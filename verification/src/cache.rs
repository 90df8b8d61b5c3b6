//! The session state cache: the most recently observed list of sessions.
//!
//! The cache is updated only by lifecycle notifications from the host; each
//! notification fully supersedes the previous list. Reads hand out a copy,
//! so no caller can mutate the shared state.

use vstd::prelude::*;
use crate::msg::SessionInfo;

verus! {

/// The last-known session list, replaced wholesale on every host
/// lifecycle notification and reset to empty at startup.
pub struct SessionCache {
    pub sessions: Vec<SessionInfo>,
}

impl SessionCache {
    /// An empty cache, the state at startup.
    pub fn new() -> (r: SessionCache)
        ensures
            r.sessions@ == Seq::<SessionInfo>::empty(),
    {
        SessionCache { sessions: Vec::new() }
    }

    /// Replaces the whole cached list: no merge, no partial update.
    /// Subsequent snapshots observe exactly the new list.
    pub fn replace(&mut self, sessions: Vec<SessionInfo>)
        ensures
            final(self).sessions == sessions,
    {
        self.sessions = sessions;
    }

    /// The current contents, verbatim, as a copy. Takes `&self`: a
    /// snapshot never mutates the cache.
    pub fn snapshot(&self) -> (r: Vec<SessionInfo>)
        ensures
            r@ == self.sessions@,
    {
        let mut r: Vec<SessionInfo> = Vec::new();
        let mut i: usize = 0;
        while i < self.sessions.len()
            invariant
                i <= self.sessions.len(),
                r@.len() == i,
                forall|j: int| 0 <= j < i ==> r@[j] == self.sessions@[j],
            decreases self.sessions.len() - i,
        {
            let s = &self.sessions[i];
            r.push(SessionInfo { name: s.name.clone() });
            i += 1;
        }
        proof {
            assert(r@ =~= self.sessions@);
        }
        r
    }
}

} // verus!
