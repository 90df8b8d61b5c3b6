//! A small JSON model with a verified encoder and parser.
//!
//! The bridge's wire format is JSON, and the grammar the bridge needs is
//! modelled here directly: null, booleans, numbers, strings (with the
//! standard escapes, surrogate pairs included), arrays and objects. The
//! protocol itself uses only non-negative 64-bit integers; any other
//! number (a sign, a fraction, an exponent, a larger magnitude) is kept
//! as its raw lexeme, so a document carrying one under an ignored key
//! stays valid. The mathematical form of a document is [`JsonV`]; the
//! executable [`Json`] mirrors it value for value through [`Json::jv`].
//! The executable encoder and parser are each proved equal to their
//! specification-level counterparts, so facts about the composition of
//! the two (round trips) are proved once, on the specification.

use vstd::prelude::*;
use crate::strutil::char_from_code;
use crate::strutil::string_from_chars;

verus! {

/// The mathematical form of a JSON value.
pub enum JsonV {
    Null,
    Bool(bool),
    UInt(u64),
    /// A number the protocol has no use for (a sign, a fraction, an
    /// exponent, or a magnitude past 64 bits), kept as its raw lexeme so
    /// that documents carrying one under an ignored key stay valid.
    FNum(Seq<char>),
    Str(Seq<char>),
    Arr(Seq<JsonV>),
    Obj(Seq<(Seq<char>, JsonV)>),
}

/// One key/value member of an executable JSON object.
pub struct JMember {
    pub key: String,
    pub value: Json,
}

/// An executable JSON value.
pub enum Json {
    Null,
    Bool(bool),
    UInt(u64),
    /// A number outside the protocol's shapes, as its raw lexeme.
    FNum(String),
    Str(String),
    Arr(Vec<Json>),
    Obj(Vec<JMember>),
}

impl Json {
    /// The mathematical value this executable value stands for.
    pub open spec fn jv(self) -> JsonV
        decreases self,
    {
        match self {
            Json::Null => JsonV::Null,
            Json::Bool(b) => JsonV::Bool(b),
            Json::UInt(n) => JsonV::UInt(n),
            Json::FNum(x) => JsonV::FNum(x@),
            Json::Str(s) => JsonV::Str(s@),
            Json::Arr(a) => JsonV::Arr(jv_seq(a@)),
            Json::Obj(m) => JsonV::Obj(jv_members(m@)),
        }
    }
}

/// The mathematical values of a sequence of executable values.
pub open spec fn jv_seq(a: Seq<Json>) -> Seq<JsonV>
    decreases a,
{
    if a.len() == 0 {
        Seq::empty()
    } else {
        jv_seq(a.drop_last()).push(a.last().jv())
    }
}

/// The mathematical members of a sequence of executable members.
pub open spec fn jv_members(m: Seq<JMember>) -> Seq<(Seq<char>, JsonV)>
    decreases m,
{
    if m.len() == 0 {
        Seq::empty()
    } else {
        jv_members(m.drop_last()).push((m.last().key@, m.last().value.jv()))
    }
}

/// `jv_seq` element by element.
pub proof fn lemma_jv_seq(a: Seq<Json>)
    ensures
        jv_seq(a).len() == a.len(),
        forall|k: int| 0 <= k < a.len() ==> jv_seq(a)[k] == #[trigger] a[k].jv(),
    decreases a.len(),
{
    if a.len() > 0 {
        lemma_jv_seq(a.drop_last());
        assert forall|k: int| 0 <= k < a.len() implies jv_seq(a)[k] == #[trigger] a[k].jv() by {
            if k < a.len() - 1 {
                assert(a.drop_last()[k] == a[k]);
                assert(jv_seq(a)[k] == jv_seq(a.drop_last())[k]);
            } else {
                assert(jv_seq(a)[k] == a.last().jv());
            }
        }
    }
}

/// `jv_members` member by member.
pub proof fn lemma_jv_members(m: Seq<JMember>)
    ensures
        jv_members(m).len() == m.len(),
        forall|k: int| 0 <= k < m.len() ==> jv_members(m)[k] == (
        #[trigger] m[k].key@,
        m[k].value.jv(),
        ),
    decreases m.len(),
{
    if m.len() > 0 {
        lemma_jv_members(m.drop_last());
        assert forall|k: int| 0 <= k < m.len() implies jv_members(m)[k] == (
        #[trigger] m[k].key@,
        m[k].value.jv(),
        ) by {
            if k < m.len() - 1 {
                assert(m.drop_last()[k] == m[k]);
                assert(jv_members(m)[k] == jv_members(m.drop_last())[k]);
            } else {
                assert(jv_members(m)[k] == (m.last().key@, m.last().value.jv()));
            }
        }
    }
}

/// `jv_seq` of one more element.
pub proof fn lemma_jv_seq_push(s: Seq<Json>, x: Json)
    ensures
        jv_seq(s.push(x)) == jv_seq(s).push(x.jv()),
{
    assert(s.push(x).drop_last() =~= s);
    assert(s.push(x).last() == x);
}

/// `jv_members` of one more member.
pub proof fn lemma_jv_members_push(s: Seq<JMember>, x: JMember)
    ensures
        jv_members(s.push(x)) == jv_members(s).push((x.key@, x.value.jv())),
{
    assert(s.push(x).drop_last() =~= s);
    assert(s.push(x).last() == x);
}

// ---------------------------------------------------------------------------
// Character classes and digits
// ---------------------------------------------------------------------------

/// JSON insignificant whitespace.
pub open spec fn is_ws(c: char) -> bool {
    c == ' ' || c == '\t' || c == '\n' || c == '\r'
}

/// A decimal digit.
pub open spec fn is_digit(c: char) -> bool {
    48 <= (c as u32) && (c as u32) <= 57
}

/// The value of a decimal digit.
pub open spec fn digit_val(c: char) -> nat {
    (((c as u32) - 48) as nat)
}

/// The character of a decimal digit value below ten.
pub open spec fn digit_char(d: nat) -> char {
    ((48 + d) as char)
}

/// The lower-case hexadecimal digit of a value below sixteen.
pub open spec fn hex_char(d: nat) -> char {
    if d < 10 {
        ((48 + d) as char)
    } else {
        ((87 + d) as char)
    }
}

/// The value of a hexadecimal digit, upper or lower case.
pub open spec fn hex_val(c: char) -> Option<nat> {
    if 48 <= (c as u32) && (c as u32) <= 57 {
        Some((((c as u32) - 48) as nat))
    } else if 97 <= (c as u32) && (c as u32) <= 102 {
        Some((((c as u32) - 87) as nat))
    } else if 65 <= (c as u32) && (c as u32) <= 70 {
        Some((((c as u32) - 55) as nat))
    } else {
        None
    }
}

/// The decimal digits of `n`, most significant first, no leading zero
/// except for zero itself.
pub open spec fn dec_digits(n: nat) -> Seq<char>
    decreases n,
{
    if n < 10 {
        seq![digit_char(n)]
    } else {
        dec_digits(n / 10) + seq![digit_char(n % 10)]
    }
}

// ---------------------------------------------------------------------------
// Specification-level encoder
// ---------------------------------------------------------------------------

/// How one character is written inside a JSON string literal.
pub open spec fn esc_char(c: char) -> Seq<char> {
    if c == '"' {
        seq!['\\', '"']
    } else if c == '\\' {
        seq!['\\', '\\']
    } else if c == '\n' {
        seq!['\\', 'n']
    } else if c == '\r' {
        seq!['\\', 'r']
    } else if c == '\t' {
        seq!['\\', 't']
    } else if (c as u32) < 32 {
        seq!['\\', 'u', '0', '0', hex_char(((c as u32) / 16) as nat), hex_char(
            ((c as u32) % 16) as nat,
        )]
    } else {
        seq![c]
    }
}

/// A whole string body, escaped.
pub open spec fn esc_str(s: Seq<char>) -> Seq<char>
    decreases s.len(),
{
    if s.len() == 0 {
        Seq::empty()
    } else {
        esc_char(s[0]) + esc_str(s.skip(1))
    }
}

/// The canonical encoding of a value: no insignificant whitespace.
pub open spec fn enc_json(j: JsonV) -> Seq<char>
    decreases j,
{
    match j {
        JsonV::Null => seq!['n', 'u', 'l', 'l'],
        JsonV::Bool(b) => if b {
            seq!['t', 'r', 'u', 'e']
        } else {
            seq!['f', 'a', 'l', 's', 'e']
        },
        JsonV::UInt(n) => dec_digits(n as nat),
        JsonV::FNum(x) => x,
        JsonV::Str(s) => seq!['"'] + esc_str(s) + seq!['"'],
        JsonV::Arr(es) => seq!['['] + enc_elems(es) + seq![']'],
        JsonV::Obj(ms) => seq!['{'] + enc_members(ms) + seq!['}'],
    }
}

/// Array elements, comma separated.
pub open spec fn enc_elems(es: Seq<JsonV>) -> Seq<char>
    decreases es,
{
    if es.len() == 0 {
        Seq::empty()
    } else if es.len() == 1 {
        enc_json(es[0])
    } else {
        enc_json(es[0]) + seq![','] + enc_elems(es.skip(1))
    }
}

/// One object member: quoted key, colon, value.
pub open spec fn enc_member(m: (Seq<char>, JsonV)) -> Seq<char>
    decreases m,
{
    seq!['"'] + esc_str(m.0) + seq!['"', ':'] + enc_json(m.1)
}

/// Object members, comma separated.
pub open spec fn enc_members(ms: Seq<(Seq<char>, JsonV)>) -> Seq<char>
    decreases ms,
{
    if ms.len() == 0 {
        Seq::empty()
    } else if ms.len() == 1 {
        enc_member(ms[0])
    } else {
        enc_member(ms[0]) + seq![','] + enc_members(ms.skip(1))
    }
}

// ---------------------------------------------------------------------------
// Specification-level parser
// ---------------------------------------------------------------------------

/// The first position at or after `i` holding no whitespace.
pub open spec fn sp_ws(s: Seq<char>, i: int) -> int
    decreases s.len() - i,
{
    if 0 <= i < s.len() && is_ws(s[i]) {
        sp_ws(s, i + 1)
    } else {
        i
    }
}

/// Consumes decimal digits from `i`, folding them onto `acc`; yields the
/// accumulated value and the first position past the digits.
pub open spec fn sp_digits(s: Seq<char>, i: int, acc: nat) -> (nat, int)
    decreases s.len() - i,
{
    if 0 <= i < s.len() && is_digit(s[i]) {
        sp_digits(s, i + 1, acc * 10 + digit_val(s[i]))
    } else {
        (acc, i)
    }
}

/// The first position at or after `i` holding no decimal digit.
pub open spec fn sp_digits_end(s: Seq<char>, i: int) -> int
    decreases s.len() - i,
{
    if 0 <= i < s.len() && is_digit(s[i]) {
        sp_digits_end(s, i + 1)
    } else {
        i
    }
}

/// A number at `i` (the caller saw a digit or a minus sign there), in the
/// standard JSON shape: optional sign, an integer part without a leading
/// zero, optional fraction and exponent. A plain non-negative integer that
/// fits 64 bits becomes a protocol value; every other shape is kept as its
/// raw lexeme.
pub open spec fn sp_number(s: Seq<char>, i: int) -> Option<(JsonV, int)> {
    let j = if 0 <= i < s.len() && s[i] == '-' {
        i + 1
    } else {
        i
    };
    if j >= s.len() || !is_digit(s[j]) {
        None
    } else if s[j] == '0' && j + 1 < s.len() && is_digit(s[j + 1]) {
        None
    } else {
        let (v, p) = sp_digits(s, j, 0);
        let q = if p < s.len() && s[p] == '.' {
            if p + 1 < s.len() && is_digit(s[p + 1]) {
                sp_digits_end(s, p + 1)
            } else {
                -1
            }
        } else {
            p
        };
        if q < 0 {
            None
        } else {
            let e = if q < s.len() && (s[q] == 'e' || s[q] == 'E') {
                let q2 = if q + 1 < s.len() && (s[q + 1] == '+' || s[q + 1] == '-') {
                    q + 2
                } else {
                    q + 1
                };
                if q2 < s.len() && is_digit(s[q2]) {
                    sp_digits_end(s, q2)
                } else {
                    -1
                }
            } else {
                q
            };
            if e < 0 {
                None
            } else if s[i] != '-' && e == p && v <= u64::MAX {
                Some((JsonV::UInt(v as u64), e))
            } else {
                Some((JsonV::FNum(s.subrange(i, e)), e))
            }
        }
    }
}

/// The rest of a string literal, from just after the opening quote or the
/// previously decoded character: decodes escapes until the closing quote.
/// A high-surrogate escape followed by a low-surrogate escape stands for
/// the one character they encode together; unescaped control characters,
/// malformed escapes and lone surrogate escapes are refused.
pub open spec fn sp_string(s: Seq<char>, i: int, acc: Seq<char>) -> Option<(Seq<char>, int)>
    decreases s.len() - i,
{
    if i < 0 || i >= s.len() {
        None
    } else if s[i] == '"' {
        Some((acc, i + 1))
    } else if s[i] == '\\' {
        if i + 1 >= s.len() {
            None
        } else {
            let e = s[i + 1];
            if e == '"' {
                sp_string(s, i + 2, acc.push('"'))
            } else if e == '\\' {
                sp_string(s, i + 2, acc.push('\\'))
            } else if e == '/' {
                sp_string(s, i + 2, acc.push('/'))
            } else if e == 'b' {
                sp_string(s, i + 2, acc.push('\u{8}'))
            } else if e == 'f' {
                sp_string(s, i + 2, acc.push('\u{c}'))
            } else if e == 'n' {
                sp_string(s, i + 2, acc.push('\n'))
            } else if e == 'r' {
                sp_string(s, i + 2, acc.push('\r'))
            } else if e == 't' {
                sp_string(s, i + 2, acc.push('\t'))
            } else if e == 'u' {
                if i + 6 > s.len() {
                    None
                } else {
                    match (hex_val(s[i + 2]), hex_val(s[i + 3]), hex_val(s[i + 4]), hex_val(
                        s[i + 5],
                    )) {
                        (Some(h3), Some(h2), Some(h1), Some(h0)) => {
                            let v = h3 * 4096 + h2 * 256 + h1 * 16 + h0;
                            if v < 0xD800 || v >= 0xE000 {
                                sp_string(s, i + 6, acc.push(v as char))
                            } else if v < 0xDC00 {
                                if i + 12 > s.len() || s[i + 6] != '\\' || s[i + 7] != 'u' {
                                    None
                                } else {
                                    match (hex_val(s[i + 8]), hex_val(s[i + 9]), hex_val(
                                        s[i + 10],
                                    ), hex_val(s[i + 11])) {
                                        (Some(g3), Some(g2), Some(g1), Some(g0)) => {
                                            let w = g3 * 4096 + g2 * 256 + g1 * 16 + g0;
                                            if 0xDC00 <= w < 0xE000 {
                                                let code = 0x10000 + (v - 0xD800) * 0x400 + (w
                                                    - 0xDC00);
                                                sp_string(s, i + 12, acc.push(code as char))
                                            } else {
                                                None
                                            }
                                        },
                                        _ => None,
                                    }
                                }
                            } else {
                                None
                            }
                        },
                        _ => None,
                    }
                }
            } else {
                None
            }
        }
    } else if (s[i] as u32) < 32 {
        None
    } else {
        sp_string(s, i + 1, acc.push(s[i]))
    }
}

/// A value starting exactly at `i` (no leading whitespace).
pub open spec fn sp_value(s: Seq<char>, i: int) -> Option<(JsonV, int)>
    decreases s.len() - i, 0int,
{
    if i < 0 || i >= s.len() {
        None
    } else {
        let c = s[i];
        if c == 'n' {
            if s.len() - i >= 4 && s[i + 1] == 'u' && s[i + 2] == 'l' && s[i + 3] == 'l' {
                Some((JsonV::Null, i + 4))
            } else {
                None
            }
        } else if c == 't' {
            if s.len() - i >= 4 && s[i + 1] == 'r' && s[i + 2] == 'u' && s[i + 3] == 'e' {
                Some((JsonV::Bool(true), i + 4))
            } else {
                None
            }
        } else if c == 'f' {
            if i + 5 <= s.len() && s[i + 1] == 'a' && s[i + 2] == 'l' && s[i + 3] == 's' && s[i + 4]
                == 'e' {
                Some((JsonV::Bool(false), i + 5))
            } else {
                None
            }
        } else if c == '"' {
            match sp_string(s, i + 1, Seq::empty()) {
                None => None,
                Some((t, n)) => Some((JsonV::Str(t), n)),
            }
        } else if is_digit(c) || c == '-' {
            sp_number(s, i)
        } else if c == '[' {
            let j = sp_ws(s, i + 1);
            if j < i + 1 || j >= s.len() {
                None
            } else if s[j] == ']' {
                Some((JsonV::Arr(Seq::empty()), j + 1))
            } else {
                match sp_elems(s, j, Seq::empty()) {
                    None => None,
                    Some((es, n)) => Some((JsonV::Arr(es), n)),
                }
            }
        } else if c == '{' {
            let j = sp_ws(s, i + 1);
            if j < i + 1 || j >= s.len() {
                None
            } else if s[j] == '}' {
                Some((JsonV::Obj(Seq::empty()), j + 1))
            } else {
                match sp_members(s, j, Seq::empty()) {
                    None => None,
                    Some((ms, n)) => Some((JsonV::Obj(ms), n)),
                }
            }
        } else {
            None
        }
    }
}

/// Array elements from the start of the first one; `acc` holds the
/// elements already parsed. Consumes the closing bracket.
pub open spec fn sp_elems(s: Seq<char>, i: int, acc: Seq<JsonV>) -> Option<(Seq<JsonV>, int)>
    decreases s.len() - i, 1int,
{
    if i < 0 || i >= s.len() {
        None
    } else {
        match sp_value(s, i) {
            None => None,
            Some((v, p)) => {
                if p <= i || p > s.len() {
                    None
                } else {
                    let q = sp_ws(s, p);
                    if q < p || q >= s.len() {
                        None
                    } else if s[q] == ',' {
                        sp_elems(s, q + 1, acc.push(v))
                    } else if s[q] == ']' {
                        Some((acc.push(v), q + 1))
                    } else {
                        None
                    }
                }
            },
        }
    }
}

/// Object members from the start of the first key's quote (after
/// whitespace); `acc` holds the members already parsed. Consumes the
/// closing brace.
pub open spec fn sp_members(s: Seq<char>, i: int, acc: Seq<(Seq<char>, JsonV)>) -> Option<
    (Seq<(Seq<char>, JsonV)>, int),
>
    decreases s.len() - i, 1int,
{
    if i < 0 || i >= s.len() || s[i] != '"' {
        None
    } else {
        match sp_string(s, i + 1, Seq::empty()) {
            None => None,
            Some((k, n)) => {
                if n <= i + 1 {
                    None
                } else {
                    let m = sp_ws(s, n);
                    if m < n || m >= s.len() || s[m] != ':' {
                        None
                    } else {
                        let v0 = sp_ws(s, m + 1);
                        if v0 < m + 1 || v0 > s.len() {
                            None
                        } else {
                            match sp_value(s, v0) {
                                None => None,
                                Some((v, p)) => {
                                    if p <= v0 || p > s.len() {
                                        None
                                    } else {
                                        let q = sp_ws(s, p);
                                        if q < p || q >= s.len() {
                                            None
                                        } else if s[q] == ',' {
                                            let r = sp_ws(s, q + 1);
                                            if r < q + 1 || r > s.len() {
                                                None
                                            } else {
                                                sp_members(s, r, acc.push((k, v)))
                                            }
                                        } else if s[q] == '}' {
                                            Some((acc.push((k, v)), q + 1))
                                        } else {
                                            None
                                        }
                                    }
                                },
                            }
                        }
                    }
                }
            },
        }
    }
}

/// A whole document: one value, surrounded only by whitespace.
pub open spec fn sp_doc(s: Seq<char>) -> Option<JsonV> {
    let i = sp_ws(s, 0);
    match sp_value(s, i) {
        None => None,
        Some((v, n)) => {
            if sp_ws(s, n) == s.len() {
                Some(v)
            } else {
                None
            }
        },
    }
}



// ---------------------------------------------------------------------------
// Executable encoder
// ---------------------------------------------------------------------------

/// Escaping distributes over appending one character.
pub proof fn lemma_esc_str_snoc(t: Seq<char>, c: char)
    ensures
        esc_str(t.push(c)) == esc_str(t) + esc_char(c),
    decreases t.len(),
{
    if t.len() == 0 {
        assert(t.push(c)[0] == c);
        assert(t.push(c).skip(1) =~= Seq::<char>::empty());
        assert(esc_str(t.push(c)) == esc_char(c) + esc_str(t.push(c).skip(1)));
        assert(esc_str(Seq::<char>::empty()) == Seq::<char>::empty());
        assert(esc_str(t.push(c)) =~= esc_str(t) + esc_char(c));
    } else {
        lemma_esc_str_snoc(t.skip(1), c);
        assert(t.push(c)[0] == t[0]);
        assert(t.push(c).skip(1) =~= t.skip(1).push(c));
        assert(esc_str(t.push(c)) == esc_char(t[0]) + esc_str(t.skip(1).push(c)));
        assert(esc_str(t) == esc_char(t[0]) + esc_str(t.skip(1)));
        assert((esc_char(t[0]) + (esc_str(t.skip(1)) + esc_char(c))) =~= ((esc_char(t[0])
            + esc_str(t.skip(1))) + esc_char(c)));
        assert(esc_str(t.push(c)) == esc_str(t) + esc_char(c));
    }
}

/// Element encoding extended by one more element.
pub proof fn lemma_enc_elems_snoc(es: Seq<JsonV>, v: JsonV)
    ensures
        enc_elems(es.push(v)) == if es.len() == 0 {
            enc_json(v)
        } else {
            enc_elems(es) + seq![','] + enc_json(v)
        },
    decreases es.len(),
{
    let e = es.push(v);
    if es.len() == 0 {
        assert(e[0] == v);
        assert(enc_elems(e) == enc_json(v));
    } else {
        lemma_enc_elems_snoc(es.skip(1), v);
        assert(e.skip(1) =~= es.skip(1).push(v));
        assert(e[0] == es[0]);
        if es.len() == 1 {
            assert(es.skip(1).len() == 0);
            assert(enc_elems(e) =~= enc_elems(es) + seq![','] + enc_json(v));
        } else {
            assert(enc_elems(e) =~= enc_elems(es) + seq![','] + enc_json(v));
        }
    }
}

/// Member encoding extended by one more member.
pub proof fn lemma_enc_members_snoc(ms: Seq<(Seq<char>, JsonV)>, m: (Seq<char>, JsonV))
    ensures
        enc_members(ms.push(m)) == if ms.len() == 0 {
            enc_member(m)
        } else {
            enc_members(ms) + seq![','] + enc_member(m)
        },
    decreases ms.len(),
{
    let e = ms.push(m);
    if ms.len() == 0 {
        assert(e[0] == m);
        assert(enc_members(e) == enc_member(m));
    } else {
        lemma_enc_members_snoc(ms.skip(1), m);
        assert(e.skip(1) =~= ms.skip(1).push(m));
        assert(e[0] == ms[0]);
        if ms.len() == 1 {
            assert(ms.skip(1).len() == 0);
            assert(enc_members(e) =~= enc_members(ms) + seq![','] + enc_member(m));
        } else {
            assert(enc_members(e) =~= enc_members(ms) + seq![','] + enc_member(m));
        }
    }
}

/// The size of a value: every proper part is strictly smaller.
pub open spec fn jsize(v: JsonV) -> nat
    decreases v,
{
    match v {
        JsonV::Null => 1,
        JsonV::Bool(_) => 1,
        JsonV::UInt(_) => 1,
        JsonV::FNum(_) => 1,
        JsonV::Str(_) => 1,
        JsonV::Arr(es) => 1 + jsize_seq(es),
        JsonV::Obj(ms) => 1 + jsize_members(ms),
    }
}

/// The summed size of a sequence of values.
pub open spec fn jsize_seq(es: Seq<JsonV>) -> nat
    decreases es,
{
    if es.len() == 0 {
        0
    } else {
        jsize(es[0]) + jsize_seq(es.skip(1))
    }
}

/// The summed size of the values of a sequence of members.
pub open spec fn jsize_members(ms: Seq<(Seq<char>, JsonV)>) -> nat
    decreases ms,
{
    if ms.len() == 0 {
        0
    } else {
        jsize(ms[0].1) + jsize_members(ms.skip(1))
    }
}

/// An element weighs no more than its sequence.
pub proof fn lemma_jsize_seq_bound(es: Seq<JsonV>, k: int)
    requires
        0 <= k < es.len(),
    ensures
        jsize(es[k]) <= jsize_seq(es),
    decreases es.len(),
{
    if k > 0 {
        lemma_jsize_seq_bound(es.skip(1), k - 1);
        assert(es.skip(1)[k - 1] == es[k]);
    }
}

/// A member's value weighs no more than its sequence.
pub proof fn lemma_jsize_members_bound(ms: Seq<(Seq<char>, JsonV)>, k: int)
    requires
        0 <= k < ms.len(),
    ensures
        jsize(ms[k].1) <= jsize_members(ms),
    decreases ms.len(),
{
    if k > 0 {
        lemma_jsize_members_bound(ms.skip(1), k - 1);
        assert(ms.skip(1)[k - 1] == ms[k]);
    }
}

/// Appends the decimal digits of `n`.
fn write_u64(n: u64, out: &mut Vec<char>)
    ensures
        final(out)@ == old(out)@ + dec_digits(n as nat),
    decreases n,
{
    if n < 10 {
        let d = (48 + n) as u8;
        out.push(d as char);
        proof {
            assert(out@ =~= old(out)@ + dec_digits(n as nat));
        }
    } else {
        write_u64(n / 10, out);
        let d = (48 + (n % 10)) as u8;
        out.push(d as char);
        proof {
            assert(out@ =~= old(out)@ + dec_digits(n as nat));
        }
    }
}

/// The lower-case hexadecimal digit character of a value below sixteen.
fn hex_digit_char(d: u32) -> (r: char)
    requires
        d < 16,
    ensures
        r == hex_char(d as nat),
{
    if d < 10 {
        ((48 + d) as u8) as char
    } else {
        ((87 + d) as u8) as char
    }
}

/// Appends one character in its escaped form.
fn write_escaped_char(c: char, out: &mut Vec<char>)
    ensures
        final(out)@ == old(out)@ + esc_char(c),
{
    if c == '"' {
        out.push('\\');
        out.push('"');
    } else if c == '\\' {
        out.push('\\');
        out.push('\\');
    } else if c == '\n' {
        out.push('\\');
        out.push('n');
    } else if c == '\r' {
        out.push('\\');
        out.push('r');
    } else if c == '\t' {
        out.push('\\');
        out.push('t');
    } else if (c as u32) < 32 {
        out.push('\\');
        out.push('u');
        out.push('0');
        out.push('0');
        out.push(hex_digit_char((c as u32) / 16));
        out.push(hex_digit_char((c as u32) % 16));
    } else {
        out.push(c);
    }
    proof {
        assert(out@ =~= old(out)@ + esc_char(c));
    }
}

/// Appends a string literal: quote, escaped body, quote.
fn write_string(s: &str, out: &mut Vec<char>)
    ensures
        final(out)@ == old(out)@ + seq!['"'] + esc_str(s@) + seq!['"'],
{
    let ghost out0 = out@;
    out.push('"');
    let cs = crate::strutil::chars_of(s);
    let mut i: usize = 0;
    while i < cs.len()
        invariant
            cs@ == s@,
            i <= cs@.len(),
            out@ == out0 + seq!['"'] + esc_str(s@.take(i as int)),
        decreases cs@.len() - i,
    {
        let ghost before = s@.take(i as int);
        write_escaped_char(cs[i], out);
        proof {
            lemma_esc_str_snoc(before, s@[i as int]);
            assert(s@.take(i + 1 as int) =~= before.push(s@[i as int]));
            assert(out@ =~= out0 + seq!['"'] + esc_str(s@.take(i + 1 as int)));
        }
        i += 1;
    }
    out.push('"');
    proof {
        assert(s@.take(s@.len() as int) =~= s@);
        assert(out@ =~= out0 + seq!['"'] + esc_str(s@) + seq!['"']);
    }
}

/// Appends the canonical encoding of a value.
#[verifier::loop_isolation(false)]
#[verifier::rlimit(100)]
pub fn write_value(j: &Json, out: &mut Vec<char>)
    ensures
        final(out)@ == old(out)@ + enc_json(j.jv()),
    decreases jsize(j.jv()),
{
    let ghost out0 = out@;
    match j {
        Json::Null => {
            out.push('n');
            out.push('u');
            out.push('l');
            out.push('l');
            proof {
                assert(out@ =~= out0 + enc_json(j.jv()));
            }
        },
        Json::Bool(b) => {
            if *b {
                out.push('t');
                out.push('r');
                out.push('u');
                out.push('e');
            } else {
                out.push('f');
                out.push('a');
                out.push('l');
                out.push('s');
                out.push('e');
            }
            proof {
                assert(out@ =~= out0 + enc_json(j.jv()));
            }
        },
        Json::UInt(n) => {
            write_u64(*n, out);
        },
        Json::FNum(x) => {
            let cs = crate::strutil::chars_of(x.as_str());
            let mut k: usize = 0;
            while k < cs.len()
                invariant
                    cs@ == x@,
                    k <= cs@.len(),
                    out@ == out0 + x@.take(k as int),
                decreases cs@.len() - k,
            {
                out.push(cs[k]);
                proof {
                    assert(out@ =~= out0 + x@.take(k + 1 as int));
                }
                k += 1;
            }
            proof {
                assert(x@.take(x@.len() as int) =~= x@);
                assert(out@ =~= out0 + enc_json(j.jv()));
            }
        },
        Json::Str(s) => {
            write_string(s.as_str(), out);
            proof {
                assert(out@ =~= out0 + enc_json(j.jv()));
            }
        },
        Json::Arr(a) => {
            out.push('[');
            let mut k: usize = 0;
            while k < a.len()
                invariant
                    k <= a@.len(),
                    out@ == out0 + seq!['['] + enc_elems(jv_seq(a@.take(k as int))),
                decreases a@.len() - k,
            {
                let ghost done = jv_seq(a@.take(k as int));
                if k > 0 {
                    out.push(',');
                }
                proof {
                    lemma_jv_seq(a@);
                    assert(a@[k as int].jv() == jv_seq(a@)[k as int]);
                    assert(j.jv() == JsonV::Arr(jv_seq(a@)));
                    lemma_jsize_seq_bound(jv_seq(a@), k as int);
                }
                write_value(&a[k], out);
                proof {
                    lemma_enc_elems_snoc(done, a@[k as int].jv());
                    assert(a@.take(k + 1 as int) =~= a@.take(k as int).push(a@[k as int]));
                    lemma_jv_seq_push(a@.take(k as int), a@[k as int]);
                    assert(out@ =~= out0 + seq!['['] + enc_elems(jv_seq(a@.take(k + 1 as int))));
                }
                k += 1;
            }
            out.push(']');
            proof {
                assert(a@.take(a@.len() as int) =~= a@);
                assert(out@ =~= out0 + enc_json(j.jv()));
            }
        },
        Json::Obj(m) => {
            out.push('{');
            let mut k: usize = 0;
            while k < m.len()
                invariant
                    k <= m@.len(),
                    out@ == out0 + seq!['{'] + enc_members(jv_members(m@.take(k as int))),
                decreases m@.len() - k,
            {
                let ghost done = jv_members(m@.take(k as int));
                if k > 0 {
                    out.push(',');
                }
                let entry = &m[k];
                write_string(entry.key.as_str(), out);
                out.push(':');
                proof {
                    lemma_jv_members(m@);
                    assert(m@[k as int].value.jv() == jv_members(m@)[k as int].1);
                    assert(j.jv() == JsonV::Obj(jv_members(m@)));
                    lemma_jsize_members_bound(jv_members(m@), k as int);
                }
                write_value(&entry.value, out);
                proof {
                    lemma_enc_members_snoc(done, (m@[k as int].key@, m@[k as int].value.jv()));
                    assert(m@.take(k + 1 as int) =~= m@.take(k as int).push(m@[k as int]));
                    lemma_jv_members_push(m@.take(k as int), m@[k as int]);
                    assert(out@ =~= out0 + seq!['{'] + enc_members(jv_members(m@.take(k + 1 as int))));
                }
                k += 1;
            }
            out.push('}');
            proof {
                assert(m@.take(m@.len() as int) =~= m@);
                assert(out@ =~= out0 + enc_json(j.jv()));
            }
        },
    }
}

/// The canonical encoding of a value, as a string.
pub fn encode_json(j: &Json) -> (r: String)
    ensures
        r@ == enc_json(j.jv()),
{
    let mut out: Vec<char> = Vec::new();
    write_value(j, &mut out);
    string_from_chars(&out)
}



// ---------------------------------------------------------------------------
// Executable parser
// ---------------------------------------------------------------------------

/// Whether `c` is JSON whitespace.
fn is_ws_x(c: char) -> (r: bool)
    ensures
        r == is_ws(c),
{
    c == ' ' || c == '\t' || c == '\n' || c == '\r'
}

/// Whether `c` is a decimal digit.
fn is_digit_x(c: char) -> (r: bool)
    ensures
        r == is_digit(c),
{
    let u = c as u32;
    48 <= u && u <= 57
}

/// The value of a hexadecimal digit, if it is one.
fn hex_val_x(c: char) -> (r: Option<u32>)
    ensures
        r matches Some(v) ==> hex_val(c) == Some(v as nat) && v < 16,
        r is None ==> hex_val(c) is None,
{
    let u = c as u32;
    if 48 <= u && u <= 57 {
        Some(u - 48)
    } else if 97 <= u && u <= 102 {
        Some(u - 87)
    } else if 65 <= u && u <= 70 {
        Some(u - 55)
    } else {
        None
    }
}

/// The first position at or after `i` holding no whitespace.
#[verifier::loop_isolation(false)]
fn ws_end(s: &Vec<char>, i: usize) -> (r: usize)
    ensures
        r as int == sp_ws(s@, i as int),
        i <= r,
        i <= s@.len() ==> r <= s@.len(),
{
    let mut r = i;
    while r < s.len() && is_ws_x(s[r])
        invariant
            i <= r,
            sp_ws(s@, i as int) == sp_ws(s@, r as int),
            r <= s@.len() || r == i,
        decreases s@.len() - r,
    {
        r += 1;
    }
    r
}

/// The body of a string literal from just after its opening quote,
/// proved equal to [`sp_string`].
#[verifier::loop_isolation(false)]
fn parse_string_x(s: &Vec<char>, i: usize) -> (r: Option<(Vec<char>, usize)>)
    ensures
        r matches Some(p) ==> sp_string(s@, i as int, Seq::empty()) == Some((p.0@, p.1 as int))
            && i < p.1 <= s@.len(),
        r is None ==> sp_string(s@, i as int, Seq::empty()) is None,
{
    let mut j = i;
    let mut acc: Vec<char> = Vec::new();
    loop
        invariant
            i <= j,
            sp_string(s@, i as int, Seq::empty()) == sp_string(s@, j as int, acc@),
        decreases s@.len() - j,
    {
        if j >= s.len() {
            return None;
        }
        let c = s[j];
        if c == '"' {
            return Some((acc, j + 1));
        } else if c == '\\' {
            if s.len() - j < 2 {
                return None;
            }
            let e = s[j + 1];
            if e == '"' {
                acc.push('"');
                j += 2;
            } else if e == '\\' {
                acc.push('\\');
                j += 2;
            } else if e == '/' {
                acc.push('/');
                j += 2;
            } else if e == 'b' {
                acc.push('\u{8}');
                j += 2;
            } else if e == 'f' {
                acc.push('\u{c}');
                j += 2;
            } else if e == 'n' {
                acc.push('\n');
                j += 2;
            } else if e == 'r' {
                acc.push('\r');
                j += 2;
            } else if e == 't' {
                acc.push('\t');
                j += 2;
            } else if e == 'u' {
                if s.len() - j < 6 {
                    return None;
                }
                let h3 = hex_val_x(s[j + 2]);
                let h2 = hex_val_x(s[j + 3]);
                let h1 = hex_val_x(s[j + 4]);
                let h0 = hex_val_x(s[j + 5]);
                match (h3, h2, h1, h0) {
                    (Some(a3), Some(a2), Some(a1), Some(a0)) => {
                        let v = a3 * 4096 + a2 * 256 + a1 * 16 + a0;
                        if v < 0xD800 || v >= 0xE000 {
                            acc.push(char_from_code(v));
                            j += 6;
                        } else if v < 0xDC00 {
                            if s.len() - j < 12 {
                                return None;
                            }
                            if s[j + 6] != '\\' || s[j + 7] != 'u' {
                                return None;
                            }
                            let g3 = hex_val_x(s[j + 8]);
                            let g2 = hex_val_x(s[j + 9]);
                            let g1 = hex_val_x(s[j + 10]);
                            let g0 = hex_val_x(s[j + 11]);
                            match (g3, g2, g1, g0) {
                                (Some(b3), Some(b2), Some(b1), Some(b0)) => {
                                    let w = b3 * 4096 + b2 * 256 + b1 * 16 + b0;
                                    if 0xDC00 <= w && w < 0xE000 {
                                        let code = 0x10000 + (v - 0xD800) * 0x400 + (w - 0xDC00);
                                        acc.push(char_from_code(code));
                                        j += 12;
                                    } else {
                                        return None;
                                    }
                                },
                                _ => {
                                    return None;
                                },
                            }
                        } else {
                            return None;
                        }
                    },
                    _ => {
                        return None;
                    },
                }
            } else {
                return None;
            }
        } else if (c as u32) < 32 {
            return None;
        } else {
            acc.push(c);
            j += 1;
        }
    }
}

/// The first position at or after `i` holding no digit.
#[verifier::loop_isolation(false)]
fn digits_end_x(s: &Vec<char>, i: usize) -> (r: usize)
    ensures
        r as int == sp_digits_end(s@, i as int),
        i <= r,
        i <= s@.len() ==> r <= s@.len(),
{
    let mut r = i;
    while r < s.len() && is_digit_x(s[r])
        invariant
            i <= r,
            sp_digits_end(s@, i as int) == sp_digits_end(s@, r as int),
            r <= s@.len() || r == i,
        decreases s@.len() - r,
    {
        r += 1;
    }
    r
}

/// A number starting at the digit or minus sign `i`, proved equal to
/// [`sp_number`].
#[verifier::loop_isolation(false)]
fn parse_number_x(s: &Vec<char>, i: usize) -> (r: Option<(Json, usize)>)
    requires
        i < s@.len(),
        is_digit(s@[i as int]) || s@[i as int] == '-',
    ensures
        r matches Some(p) ==> sp_number(s@, i as int) == Some((p.0.jv(), p.1 as int))
            && i < p.1 <= s@.len(),
        r is None ==> sp_number(s@, i as int) is None,
{
    let j = if s[i] == '-' {
        if s.len() - i < 2 {
            return None;
        }
        i + 1
    } else {
        i
    };
    if j >= s.len() || !is_digit_x(s[j]) {
        return None;
    }
    if s[j] == '0' && s.len() - j > 1 && is_digit_x(s[j + 1]) {
        return None;
    }
    let mut p = j;
    let mut acc: u64 = 0;
    let mut overflow = false;
    let ghost mut accn: nat = 0nat;
    while p < s.len() && is_digit_x(s[p])
        invariant
            j <= p <= s@.len(),
            sp_digits(s@, j as int, 0nat) == sp_digits(s@, p as int, accn),
            !overflow ==> accn == acc as nat,
            overflow ==> accn > u64::MAX,
        decreases s@.len() - p,
    {
        let d = (s[p] as u32) - 48;
        proof {
            assert(digit_val(s@[p as int]) == d as nat);
        }
        if !overflow {
            let wide: u128 = (acc as u128) * 10 + (d as u128);
            if wide > u64::MAX as u128 {
                overflow = true;
            } else {
                acc = wide as u64;
            }
        }
        proof {
            if overflow && accn > u64::MAX {
                assert(accn * 10 + digit_val(s@[p as int]) >= accn * 10);
                assert(accn * 10 >= accn) by (nonlinear_arith)
                    requires accn >= 0;
            }
            accn = accn * 10 + digit_val(s@[p as int]);
        }
        p += 1;
    }
    let q = if p < s.len() && s[p] == '.' {
        if p + 1 < s.len() && is_digit_x(s[p + 1]) {
            digits_end_x(s, p + 1)
        } else {
            return None;
        }
    } else {
        p
    };
    let e = if q < s.len() && (s[q] == 'e' || s[q] == 'E') {
        let q2 = if q + 1 < s.len() && (s[q + 1] == '+' || s[q + 1] == '-') {
            q + 2
        } else {
            q + 1
        };
        if q2 < s.len() && is_digit_x(s[q2]) {
            digits_end_x(s, q2)
        } else {
            return None;
        }
    } else {
        q
    };
    if s[i] != '-' && e == p && !overflow {
        return Some((Json::UInt(acc), e));
    }
    let mut lex: Vec<char> = Vec::new();
    let mut k = i;
    proof {
        assert(lex@ =~= s@.subrange(i as int, i as int));
    }
    while k < e
        invariant
            i <= k <= e,
            e <= s@.len(),
            lex@ == s@.subrange(i as int, k as int),
        decreases e - k,
    {
        lex.push(s[k]);
        proof {
            assert(lex@ =~= s@.subrange(i as int, k + 1 as int));
        }
        k += 1;
    }
    Some((Json::FNum(string_from_chars(&lex)), e))
}

/// A JSON value starting exactly at `i`, proved equal to [`sp_value`].
#[verifier::loop_isolation(false)]
pub fn parse_value_x(s: &Vec<char>, i: usize) -> (r: Option<(Json, usize)>)
    ensures
        r matches Some(p) ==> sp_value(s@, i as int) == Some((p.0.jv(), p.1 as int))
            && i < p.1 <= s@.len(),
        r is None ==> sp_value(s@, i as int) is None,
    decreases s@.len() - i,
{
    if i >= s.len() {
        return None;
    }
    let c = s[i];
    if c == 'n' {
        if s.len() - i >= 4 && s[i + 1] == 'u' && s[i + 2] == 'l' && s[i + 3] == 'l' {
            Some((Json::Null, i + 4))
        } else {
            None
        }
    } else if c == 't' {
        if s.len() - i >= 4 && s[i + 1] == 'r' && s[i + 2] == 'u' && s[i + 3] == 'e' {
            Some((Json::Bool(true), i + 4))
        } else {
            None
        }
    } else if c == 'f' {
        if s.len() - i >= 5 && s[i + 1] == 'a' && s[i + 2] == 'l' && s[i + 3] == 's' && s[i + 4]
            == 'e' {
            Some((Json::Bool(false), i + 5))
        } else {
            None
        }
    } else if c == '"' {
        match parse_string_x(s, i + 1) {
            None => None,
            Some((t, n)) => Some((Json::Str(string_from_chars(&t)), n)),
        }
    } else if is_digit_x(c) || c == '-' {
        match parse_number_x(s, i) {
            None => None,
            Some((v, n)) => Some((v, n)),
        }
    } else if c == '[' {
        let j0 = ws_end(s, i + 1);
        if j0 >= s.len() {
            return None;
        }
        if s[j0] == ']' {
            proof {
                assert(jv_seq(Seq::<Json>::empty()) =~= Seq::<JsonV>::empty());
            }
            return Some((Json::Arr(Vec::new()), j0 + 1));
        }
        let mut acc: Vec<Json> = Vec::new();
        let mut j = j0;
        loop
            invariant
                j0 <= j <= s@.len(),
                sp_elems(s@, j0 as int, Seq::empty()) == sp_elems(s@, j as int, jv_seq(acc@)),
            decreases s@.len() - j,
        {
            match parse_value_x(s, j) {
                None => {
                    return None;
                },
                Some((v, p)) => {
                    let q = ws_end(s, p);
                    if q >= s.len() {
                        return None;
                    }
                    let ghost acc0 = acc@;
                    if s[q] == ',' {
                        acc.push(v);
                        proof {
                            lemma_jv_seq_push(acc0, v);
                        }
                        j = q + 1;
                    } else if s[q] == ']' {
                        acc.push(v);
                        proof {
                            lemma_jv_seq_push(acc0, v);
                        }
                        return Some((Json::Arr(acc), q + 1));
                    } else {
                        return None;
                    }
                },
            }
        }
    } else if c == '{' {
        let j0 = ws_end(s, i + 1);
        if j0 >= s.len() {
            return None;
        }
        if s[j0] == '}' {
            proof {
                assert(jv_members(Seq::<JMember>::empty()) =~= Seq::<(Seq<char>, JsonV)>::empty());
            }
            return Some((Json::Obj(Vec::new()), j0 + 1));
        }
        let mut acc: Vec<JMember> = Vec::new();
        let mut j = j0;
        loop
            invariant
                j0 <= j <= s@.len(),
                sp_members(s@, j0 as int, Seq::empty()) == sp_members(
                    s@,
                    j as int,
                    jv_members(acc@),
                ),
            decreases s@.len() - j,
        {
            if j >= s.len() {
                return None;
            }
            if s[j] != '"' {
                return None;
            }
            match parse_string_x(s, j + 1) {
                None => {
                    return None;
                },
                Some((k, n)) => {
                    let m = ws_end(s, n);
                    if m >= s.len() {
                        return None;
                    }
                    if s[m] != ':' {
                        return None;
                    }
                    let v0 = ws_end(s, m + 1);
                    match parse_value_x(s, v0) {
                        None => {
                            return None;
                        },
                        Some((v, p)) => {
                            let q = ws_end(s, p);
                            if q >= s.len() {
                                return None;
                            }
                            let ghost acc0 = acc@;
                            if s[q] == ',' {
                                let r2 = ws_end(s, q + 1);
                                let member = JMember { key: string_from_chars(&k), value: v };
                                let ghost mv = member;
                                acc.push(member);
                                proof {
                                    lemma_jv_members_push(acc0, mv);
                                }
                                j = r2;
                            } else if s[q] == '}' {
                                let member = JMember { key: string_from_chars(&k), value: v };
                                let ghost mv = member;
                                acc.push(member);
                                proof {
                                    lemma_jv_members_push(acc0, mv);
                                }
                                return Some((Json::Obj(acc), q + 1));
                            } else {
                                return None;
                            }
                        },
                    }
                },
            }
        }
    } else {
        None
    }
}

/// Parses a whole document: one value surrounded only by whitespace,
/// proved equal to [`sp_doc`].
pub fn parse_json(s: &str) -> (r: Option<Json>)
    ensures
        r matches Some(j) ==> sp_doc(s@) == Some(j.jv()),
        r is None ==> sp_doc(s@) is None,
{
    let cs = crate::strutil::chars_of(s);
    let i = ws_end(&cs, 0);
    match parse_value_x(&cs, i) {
        None => None,
        Some((j, n)) => {
            let e = ws_end(&cs, n);
            if e == cs.len() {
                Some(j)
            } else {
                None
            }
        },
    }
}



// ---------------------------------------------------------------------------
// Round trip: parsing a canonical encoding yields the value back
// ---------------------------------------------------------------------------

/// Powers of ten.
pub open spec fn pow10(k: nat) -> nat
    decreases k,
{
    if k == 0 {
        1
    } else {
        10 * pow10((k - 1) as nat)
    }
}

/// Every value weighs at least one.
proof fn lemma_jsize_pos(j: JsonV)
    ensures
        jsize(j) >= 1,
{
    match j {
        JsonV::Null => {},
        JsonV::Bool(_) => {},
        JsonV::UInt(_) => {},
        JsonV::FNum(_) => {},
        JsonV::Str(_) => {},
        JsonV::Arr(_) => {},
        JsonV::Obj(_) => {},
    }
}

/// A subrange equality, element by element.
proof fn lemma_enc_at(s: Seq<char>, i: int, enc: Seq<char>)
    requires
        0 <= i,
        i + enc.len() <= s.len(),
        s.subrange(i, i + enc.len()) == enc,
    ensures
        forall|k: int| 0 <= k < enc.len() ==> s[i + k] == #[trigger] enc[k],
{
    assert forall|k: int| 0 <= k < enc.len() implies s[i + k] == #[trigger] enc[k] by {
        assert(s.subrange(i, i + enc.len() as int)[k] == s[i + k]);
    }
}

/// A piece of a known subrange is itself a known subrange.
proof fn lemma_enc_seg(s: Seq<char>, i: int, enc: Seq<char>, a: int, b: int, x: Seq<char>)
    requires
        0 <= i,
        i + enc.len() <= s.len(),
        s.subrange(i, i + enc.len()) == enc,
        0 <= a <= b <= enc.len(),
        x.len() == b - a,
        forall|k: int| 0 <= k < b - a ==> #[trigger] x[k] == enc[a + k],
    ensures
        s.subrange(i + a, i + b) == x,
{
    lemma_enc_at(s, i, enc);
    assert forall|k: int| 0 <= k < b - a implies s.subrange(i + a, i + b)[k] == x[k] by {
        assert(s.subrange(i + a, i + b)[k] == s[i + a + k]);
        assert(s[i + (a + k)] == enc[a + k]);
    }
    assert(s.subrange(i + a, i + b) =~= x);
}

/// A value free of raw number lexemes: the only values the encoder is
/// ever handed, since the protocol's own numbers are all plain
/// non-negative integers.
pub open spec fn num_free(j: JsonV) -> bool
    decreases j,
{
    match j {
        JsonV::FNum(_) => false,
        JsonV::Arr(es) => num_free_seq(es),
        JsonV::Obj(ms) => num_free_members(ms),
        _ => true,
    }
}

/// Every element free of raw number lexemes.
pub open spec fn num_free_seq(es: Seq<JsonV>) -> bool
    decreases es,
{
    es.len() == 0 || (num_free(es[0]) && num_free_seq(es.skip(1)))
}

/// Every member's value free of raw number lexemes.
pub open spec fn num_free_members(ms: Seq<(Seq<char>, JsonV)>) -> bool
    decreases ms,
{
    ms.len() == 0 || (num_free(ms[0].1) && num_free_members(ms.skip(1)))
}

/// A sequence whose elements are all free of raw number lexemes is so
/// as a whole.
pub proof fn lemma_num_free_seq_all(es: Seq<JsonV>)
    requires
        forall|k: int| 0 <= k < es.len() ==> num_free(#[trigger] es[k]),
    ensures
        num_free_seq(es),
    decreases es.len(),
{
    if es.len() > 0 {
        assert(num_free(es[0]));
        assert forall|k: int| 0 <= k < es.skip(1).len() implies num_free(
            #[trigger] es.skip(1)[k],
        ) by {
            assert(es.skip(1)[k] == es[k + 1]);
        }
        lemma_num_free_seq_all(es.skip(1));
    }
}

/// The head of a lexeme-free sequence, and its tail.
proof fn lemma_num_free_elem(es: Seq<JsonV>)
    requires
        num_free_seq(es),
        es.len() >= 1,
    ensures
        num_free(es[0]),
        !(es[0] is FNum),
        num_free_seq(es.skip(1)),
{
    reveal_with_fuel(num_free_seq, 2);
    reveal_with_fuel(num_free, 2);
}

/// The head of a lexeme-free member sequence, and its tail.
proof fn lemma_num_free_member(ms: Seq<(Seq<char>, JsonV)>)
    requires
        num_free_members(ms),
        ms.len() >= 1,
    ensures
        num_free(ms[0].1),
        !(ms[0].1 is FNum),
        num_free_members(ms.skip(1)),
{
    reveal_with_fuel(num_free_members, 2);
    reveal_with_fuel(num_free, 2);
}

/// A character that would extend a number to its right.
pub open spec fn num_extender(c: char) -> bool {
    is_digit(c) || c == '.' || c == 'e' || c == 'E'
}

/// Digit characters decode to their value.
proof fn lemma_digit_round(d: nat)
    requires
        d < 10,
    ensures
        is_digit(digit_char(d)),
        digit_val(digit_char(d)) == d,
{
    assert((digit_char(d) as u32) == 48 + d);
}

/// Hexadecimal digit characters decode to their value.
proof fn lemma_hex_round(d: nat)
    requires
        d < 16,
    ensures
        hex_val(hex_char(d)) == Some(d),
{
    if d < 10 {
        assert((hex_char(d) as u32) == 48 + d);
    } else {
        assert((hex_char(d) as u32) == 87 + d);
    }
}

/// The decimal digits of `n`: nonempty, all digits, and no leading zero
/// unless `n` is zero.
proof fn lemma_dec_digits_shape(n: nat)
    ensures
        dec_digits(n).len() >= 1,
        is_digit(dec_digits(n)[0]),
        n >= 1 ==> dec_digits(n)[0] != '0',
        forall|k: int| 0 <= k < dec_digits(n).len() ==> is_digit(#[trigger] dec_digits(n)[k]),
    decreases n,
{
    if n < 10 {
        lemma_digit_round(n);
        if n >= 1 {
            assert((digit_char(n) as u32) == 48 + n);
            assert(('0' as u32) == 48);
        }
    } else {
        lemma_dec_digits_shape(n / 10);
        lemma_digit_round(n % 10);
        assert(dec_digits(n)[0] == dec_digits(n / 10)[0]);
        assert forall|k: int| 0 <= k < dec_digits(n).len() implies is_digit(
            #[trigger] dec_digits(n)[k],
        ) by {
            if k < dec_digits(n / 10).len() {
                assert(dec_digits(n)[k] == dec_digits(n / 10)[k]);
            } else {
                assert(dec_digits(n)[k] == digit_char(n % 10));
            }
        }
    }
}

/// Consuming the digits of `n` folds it onto the accumulator.
proof fn lemma_sp_digits_enc(s: Seq<char>, i: int, n: nat, acc: nat)
    requires
        0 <= i,
        i + dec_digits(n).len() <= s.len(),
        s.subrange(i, i + dec_digits(n).len()) == dec_digits(n),
    ensures
        sp_digits(s, i, acc) == sp_digits(
            s,
            i + dec_digits(n).len(),
            acc * pow10(dec_digits(n).len()) + n,
        ),
    decreases n,
{
    let ds = dec_digits(n);
    let l = ds.len() as int;
    if n < 10 {
        lemma_digit_round(n);
        assert(s[i] == ds[0]);
        assert(pow10(1) == 10 * pow10(0));
        assert(acc * 10 + n == acc * pow10(1) + n) by (nonlinear_arith)
            requires pow10(1) == 10,
        ;
        assert(sp_digits(s, i, acc) == sp_digits(s, i + 1, acc * 10 + digit_val(s[i])));
    } else {
        let ds1 = dec_digits(n / 10);
        let l1 = ds1.len() as int;
        assert(ds == ds1 + seq![digit_char(n % 10)]);
        assert(s.subrange(i, i + l1) =~= ds1) by {
            assert(forall|k: int|
                0 <= k < l1 ==> s.subrange(i, i + l)[k] == #[trigger] s.subrange(i, i + l1)[k]);
        }
        lemma_sp_digits_enc(s, i, n / 10, acc);
        let x = acc * pow10(l1 as nat) + n / 10;
        lemma_digit_round(n % 10);
        assert(s[i + l1] == ds[l - 1]);
        assert(ds[l - 1] == digit_char(n % 10));
        assert(sp_digits(s, i + l1, x) == sp_digits(s, i + l, x * 10 + (n % 10)));
        assert(x * 10 + (n % 10) == acc * pow10(l as nat) + n) by (nonlinear_arith)
            requires
                x == acc * pow10(l1 as nat) + n / 10,
                pow10(l as nat) == 10 * pow10(l1 as nat),
                n % 10 == n - 10 * (n / 10),
                n >= 10,
        ;
    }
}

/// Parsing the encoding of a number yields the number.
proof fn lemma_sp_number_enc(s: Seq<char>, i: int, n: u64)
    requires
        0 <= i,
        i + dec_digits(n as nat).len() <= s.len(),
        s.subrange(i, i + dec_digits(n as nat).len()) == dec_digits(n as nat),
        i + dec_digits(n as nat).len() == s.len() || !num_extender(
            s[i + dec_digits(n as nat).len()],
        ),
    ensures
        sp_number(s, i) == Some((JsonV::UInt(n), i + dec_digits(n as nat).len())),
{
    let ds = dec_digits(n as nat);
    let l = ds.len() as int;
    lemma_dec_digits_shape(n as nat);
    assert(s[i] == ds[0]);
    assert(('-' as u32) == 45 && ('0' as u32) == 48);
    assert(s[i] != '-');
    if n == 0 {
        assert(l == 1);
    }
    lemma_sp_digits_enc(s, i, n as nat, 0);
    assert(0 * pow10(l as nat) + n as nat == n as nat) by (nonlinear_arith);
    assert(sp_digits(s, i + l, n as nat) == (n as nat, i + l));
    let p = i + l;
    if p < s.len() {
        assert(s[p] != '.' && s[p] != 'e' && s[p] != 'E');
    }
}

/// Parsing an escaped string body up to its closing quote yields the
/// decoded characters appended to the accumulator.
#[verifier::rlimit(60)]
proof fn lemma_sp_string_enc(s: Seq<char>, i: int, t: Seq<char>, acc: Seq<char>)
    requires
        0 <= i,
        i + esc_str(t).len() + 1 <= s.len(),
        s.subrange(i, i + esc_str(t).len()) == esc_str(t),
        s[i + esc_str(t).len()] == '"',
    ensures
        sp_string(s, i, acc) == Some((acc + t, i + esc_str(t).len() + 1)),
    decreases t.len(),
{
    let l = esc_str(t).len() as int;
    if t.len() == 0 {
        assert(acc + t =~= acc);
    } else {
        let c = t[0];
        let e0 = esc_char(c);
        let t1 = t.skip(1);
        let l0 = e0.len() as int;
        assert(esc_str(t) == e0 + esc_str(t1));
        lemma_enc_at(s, i, esc_str(t));
        assert forall|k: int| 0 <= k < l0 implies s[i + k] == #[trigger] e0[k] by {
            assert(s[i + k] == esc_str(t)[k]);
            assert(esc_str(t)[k] == (e0 + esc_str(t1))[k]);
        }
        assert forall|k: int| 0 <= k < l - l0 implies #[trigger] esc_str(t1)[k] == esc_str(t)[l0
            + k] by {
            assert(esc_str(t)[l0 + k] == (e0 + esc_str(t1))[l0 + k]);
        }
        lemma_enc_seg(s, i, esc_str(t), l0, l, esc_str(t1));
        lemma_sp_string_enc(s, i + l0, t1, acc.push(c));
        assert(acc.push(c) + t1 =~= acc + t);
        if c == '"' {
            assert(s[i] == '\\' && s[i + 1] == '"');
        } else if c == '\\' {
            assert(s[i] == '\\' && s[i + 1] == '\\');
        } else if c == '\n' {
            assert(s[i] == '\\' && s[i + 1] == 'n');
        } else if c == '\r' {
            assert(s[i] == '\\' && s[i + 1] == 'r');
        } else if c == '\t' {
            assert(s[i] == '\\' && s[i + 1] == 't');
        } else if (c as u32) < 32 {
            assert(s[i] == '\\' && s[i + 1] == 'u' && s[i + 2] == '0' && s[i + 3] == '0');
            assert(s[i + 4] == hex_char(((c as u32) / 16) as nat));
            assert(s[i + 5] == hex_char(((c as u32) % 16) as nat));
            lemma_hex_round(((c as u32) / 16) as nat);
            lemma_hex_round(((c as u32) % 16) as nat);
            assert(hex_val('0') == Some(0nat)) by {
                assert(('0' as u32) == 48);
            }
            let v = 0nat * 4096 + 0nat * 256 + ((c as u32) / 16) as nat * 16 + (
            (c as u32) % 16) as nat;
            let cu = c as u32;
            assert(cu / 16 * 16 + cu % 16 == cu) by (nonlinear_arith);
            assert(v == cu);
            vstd::utf8::char_u32_cast(c, cu);
            assert((cu as char) == c);
            assert((v as char) == c);
        } else {
            assert(e0 == seq![c]);
            assert(s[i + 0] == e0[0]);
            assert(s[i] == c);
        }
    }
}

/// The first character of an encoding: never whitespace, never a
/// closing bracket, separator or colon.
proof fn lemma_enc_json_first(j: JsonV)
    requires
        !(j is FNum),
    ensures
        enc_json(j).len() >= 1,
        !is_ws(enc_json(j)[0]),
        enc_json(j)[0] != ']',
        enc_json(j)[0] != '}',
        enc_json(j)[0] != ',',
        enc_json(j)[0] != ':',
        enc_json(j)[0] != '"' || j is Str,
{
    match j {
        JsonV::UInt(n) => {
            lemma_dec_digits_shape(n as nat);
            let c = dec_digits(n as nat)[0];
            assert((' ' as u32) == 32 && ('\t' as u32) == 9 && ('\n' as u32) == 10 && ('\r' as u32)
                == 13);
            assert((']' as u32) == 93 && ('}' as u32) == 125 && (',' as u32) == 44 && (':' as u32)
                == 58 && ('"' as u32) == 34);
        },
        _ => {},
    }
}

/// Parsing the encoding of a value yields the value.
#[verifier::rlimit(100)]
#[verifier::spinoff_prover]
proof fn lemma_sp_value_enc(s: Seq<char>, i: int, j: JsonV)
    requires
        num_free(j),
        0 <= i,
        i + enc_json(j).len() <= s.len(),
        s.subrange(i, i + enc_json(j).len()) == enc_json(j),
        i + enc_json(j).len() == s.len() || !num_extender(s[i + enc_json(j).len()]),
    ensures
        sp_value(s, i) == Some((j, i + enc_json(j).len())),
    decreases jsize(j), 0nat,
{
    let enc = enc_json(j);
    let l = enc.len() as int;
    lemma_enc_at(s, i, enc);
    lemma_enc_json_first(j);
    match j {
        JsonV::Null => {
            assert(enc == seq!['n', 'u', 'l', 'l']);
            assert(s[i + 0] == enc[0] && s[i + 1] == enc[1] && s[i + 2] == enc[2] && s[i + 3]
                == enc[3]);
            assert(s[i] == 'n' && s[i + 1] == 'u' && s[i + 2] == 'l' && s[i + 3] == 'l');
            assert(sp_value(s, i) == Some((j, i + l)));
        },
        JsonV::Bool(b) => {
            if b {
                assert(enc == seq!['t', 'r', 'u', 'e']);
                assert(s[i + 0] == enc[0] && s[i + 1] == enc[1] && s[i + 2] == enc[2] && s[i + 3]
                    == enc[3]);
                assert(s[i] == 't' && s[i + 1] == 'r' && s[i + 2] == 'u' && s[i + 3] == 'e');
                assert(sp_value(s, i) == Some((j, i + l)));
            } else {
                assert(enc == seq!['f', 'a', 'l', 's', 'e']);
                assert(s[i + 0] == enc[0] && s[i + 1] == enc[1] && s[i + 2] == enc[2] && s[i + 3]
                    == enc[3] && s[i + 4] == enc[4]);
                assert(s[i] == 'f' && s[i + 1] == 'a' && s[i + 2] == 'l' && s[i + 3] == 's' && s[i
                    + 4] == 'e');
                assert(sp_value(s, i) == Some((j, i + l)));
            }
        },
        JsonV::UInt(n) => {
            lemma_dec_digits_shape(n as nat);
            assert(s[i + 0] == enc[0]);
            assert(enc[0] == dec_digits(n as nat)[0]);
            assert(('n' as u32) == 110 && ('t' as u32) == 116 && ('f' as u32) == 102 && ('"'
                as u32) == 34 && ('[' as u32) == 91 && ('{' as u32) == 123);
            lemma_sp_number_enc(s, i, n);
            assert(sp_value(s, i) == Some((j, i + l)));
        },
        JsonV::FNum(_) => {
            reveal_with_fuel(num_free, 2);
            assert(false);
        },
        JsonV::Str(t) => {
            let le = esc_str(t).len() as int;
            assert forall|k: int| 0 <= k < le implies #[trigger] esc_str(t)[k] == enc[1 + k] by {
                assert(enc[1 + k] == (seq!['"'] + esc_str(t) + seq!['"'])[1 + k]);
            }
            lemma_enc_seg(s, i, enc, 1, 1 + le, esc_str(t));
            assert(s[i + (1 + le)] == enc[1 + le]);
            assert(enc[1 + le] == (seq!['"'] + esc_str(t) + seq!['"'])[1 + le]);
            assert(s[i] == enc[0] && enc[0] == '"');
            lemma_sp_string_enc(s, i + 1, t, Seq::empty());
            assert(Seq::<char>::empty() + t =~= t);
            assert(sp_value(s, i) == Some((j, i + l)));
        },
        JsonV::Arr(es) => {
            assert(s[i] == enc[0] && enc[0] == '[');
            if es.len() == 0 {
                assert(s[i + 1] == enc[1] && enc[1] == ']');
                assert(sp_ws(s, i + 1) == i + 1);
                assert(es =~= Seq::<JsonV>::empty());
                assert(sp_value(s, i) == Some((j, i + l)));
            } else {
                assert(num_free_seq(es));
                lemma_num_free_elem(es);
                lemma_jsize_pos(es[0]);
                lemma_enc_json_first(es[0]);
                let ll = enc_elems(es).len() as int;
                if es.len() == 1 {
                    assert(enc_elems(es) == enc_json(es[0]));
                } else {
                    assert(enc_elems(es) == enc_json(es[0]) + seq![','] + enc_elems(es.skip(1)));
                    assert(enc_elems(es)[0] == enc_json(es[0])[0]);
                }
                assert forall|k: int| 0 <= k < ll implies #[trigger] enc_elems(es)[k] == enc[1
                    + k] by {
                    assert(enc[1 + k] == (seq!['['] + enc_elems(es) + seq![']'])[1 + k]);
                }
                lemma_enc_seg(s, i, enc, 1, 1 + ll, enc_elems(es));
                assert(s[i + 1] == enc[1]);
                assert(enc_elems(es)[0] == enc_json(es[0])[0]);
                assert(sp_ws(s, i + 1) == i + 1);
                assert(s[i + (1 + ll)] == enc[1 + ll]);
                assert(enc[1 + ll] == (seq!['['] + enc_elems(es) + seq![']'])[1 + ll]);
                lemma_sp_elems_enc(s, i + 1, es, Seq::empty());
                assert(Seq::<JsonV>::empty() + es =~= es);
                assert(sp_value(s, i) == Some((j, i + l)));
            }
        },
        JsonV::Obj(ms) => {
            assert(s[i] == enc[0] && enc[0] == '{');
            if ms.len() == 0 {
                assert(s[i + 1] == enc[1] && enc[1] == '}');
                assert(sp_ws(s, i + 1) == i + 1);
                assert(ms =~= Seq::<(Seq<char>, JsonV)>::empty());
                assert(sp_value(s, i) == Some((j, i + l)));
            } else {
                assert(num_free_members(ms));
                let ll = enc_members(ms).len() as int;
                assert(enc_member(ms[0])[0] == '"') by {
                    assert(enc_member(ms[0]) == seq!['"'] + esc_str(ms[0].0) + seq!['"', ':']
                        + enc_json(ms[0].1));
                }
                if ms.len() == 1 {
                    assert(enc_members(ms) == enc_member(ms[0]));
                } else {
                    assert(enc_members(ms) == enc_member(ms[0]) + seq![','] + enc_members(
                        ms.skip(1),
                    ));
                    assert(enc_members(ms)[0] == enc_member(ms[0])[0]);
                }
                assert forall|k: int| 0 <= k < ll implies #[trigger] enc_members(ms)[k] == enc[1
                    + k] by {
                    assert(enc[1 + k] == (seq!['{'] + enc_members(ms) + seq!['}'])[1 + k]);
                }
                lemma_enc_seg(s, i, enc, 1, 1 + ll, enc_members(ms));
                assert(s[i + 1] == enc[1]);
                assert(sp_ws(s, i + 1) == i + 1);
                assert(s[i + (1 + ll)] == enc[1 + ll]);
                assert(enc[1 + ll] == (seq!['{'] + enc_members(ms) + seq!['}'])[1 + ll]);
                lemma_sp_members_enc(s, i + 1, ms, Seq::empty());
                assert(Seq::<(Seq<char>, JsonV)>::empty() + ms =~= ms);
                assert(sp_value(s, i) == Some((j, i + l)));
            }
        },
    }
}

/// Parsing encoded elements up to their closing bracket yields the
/// elements appended to the accumulator.
#[verifier::rlimit(100)]
#[verifier::spinoff_prover]
proof fn lemma_sp_elems_enc(s: Seq<char>, i: int, es: Seq<JsonV>, acc: Seq<JsonV>)
    requires
        num_free_seq(es),
        es.len() >= 1,
        0 <= i,
        i + enc_elems(es).len() + 1 <= s.len(),
        s.subrange(i, i + enc_elems(es).len()) == enc_elems(es),
        s[i + enc_elems(es).len()] == ']',
    ensures
        sp_elems(s, i, acc) == Some((acc + es, i + enc_elems(es).len() + 1)),
    decreases jsize_seq(es), 1nat,
{
    let l = enc_elems(es).len() as int;
    lemma_enc_at(s, i, enc_elems(es));
    let e0 = enc_json(es[0]);
    let l0 = e0.len() as int;
    lemma_num_free_elem(es);
    lemma_jsize_pos(es[0]);
    lemma_jsize_seq_bound(es, 0);
    lemma_enc_json_first(es[0]);
    assert((',' as u32) == 44 && (']' as u32) == 93 && ('.' as u32) == 46 && ('e' as u32) == 101
        && ('E' as u32) == 69);
    if es.len() == 1 {
        assert(enc_elems(es) == e0);
        lemma_sp_value_enc(s, i, es[0]);
        assert(sp_ws(s, i + l0) == i + l0);
        assert(acc.push(es[0]) =~= acc + es);
    } else {
        let rest = enc_elems(es.skip(1));
        assert(enc_elems(es) == e0 + seq![','] + rest);
        assert forall|k: int| 0 <= k < l0 implies #[trigger] e0[k] == enc_elems(es)[k] by {
            assert(enc_elems(es)[k] == (e0 + seq![','] + rest)[k]);
        }
        lemma_enc_seg(s, i, enc_elems(es), 0, l0, e0);
        assert(s[i + l0] == enc_elems(es)[l0]);
        assert(enc_elems(es)[l0] == (e0 + seq![','] + rest)[l0]);
        assert(s[i + l0] == ',');
        assert((',' as u32) == 44);
        lemma_sp_value_enc(s, i, es[0]);
        assert(sp_ws(s, i + l0) == i + l0);
        assert forall|k: int| 0 <= k < rest.len() implies #[trigger] rest[k] == enc_elems(es)[l0
            + 1 + k] by {
            assert(enc_elems(es)[l0 + 1 + k] == (e0 + seq![','] + rest)[l0 + 1 + k]);
        }
        lemma_enc_seg(s, i, enc_elems(es), l0 + 1, l, rest);
        assert(s[i + l] == ']');
        lemma_sp_elems_enc(s, i + l0 + 1, es.skip(1), acc.push(es[0]));
        assert(acc.push(es[0]) + es.skip(1) =~= acc + es);
    }
}

/// Parsing encoded members up to their closing brace yields the members
/// appended to the accumulator.
#[verifier::rlimit(100)]
#[verifier::spinoff_prover]
proof fn lemma_sp_members_enc(s: Seq<char>, i: int, ms: Seq<(Seq<char>, JsonV)>, acc: Seq<
    (Seq<char>, JsonV),
>)
    requires
        num_free_members(ms),
        ms.len() >= 1,
        0 <= i,
        i + enc_members(ms).len() + 1 <= s.len(),
        s.subrange(i, i + enc_members(ms).len()) == enc_members(ms),
        s[i + enc_members(ms).len()] == '}',
    ensures
        sp_members(s, i, acc) == Some((acc + ms, i + enc_members(ms).len() + 1)),
    decreases jsize_members(ms), 1nat,
{
    let l = enc_members(ms).len() as int;
    lemma_enc_at(s, i, enc_members(ms));
    let m0 = ms[0];
    let em = enc_member(m0);
    let lm = em.len() as int;
    let le = esc_str(m0.0).len() as int;
    let lv = enc_json(m0.1).len() as int;
    lemma_num_free_member(ms);
    lemma_jsize_pos(m0.1);
    lemma_jsize_members_bound(ms, 0);
    assert((',' as u32) == 44 && ('}' as u32) == 125 && ('.' as u32) == 46 && ('e' as u32) == 101
        && ('E' as u32) == 69);
    assert(em == seq!['"'] + esc_str(m0.0) + seq!['"', ':'] + enc_json(m0.1));
    assert(lm == le + 3 + lv);
    let ghost rest = enc_members(ms.skip(1));
    if ms.len() == 1 {
        assert(enc_members(ms) == em);
    } else {
        assert(enc_members(ms) == em + seq![','] + rest);
    }
    assert forall|k: int| 0 <= k < lm implies #[trigger] em[k] == enc_members(ms)[k] by {
        if ms.len() > 1 {
            assert(enc_members(ms)[k] == (em + seq![','] + rest)[k]);
        }
    }
    lemma_enc_seg(s, i, enc_members(ms), 0, lm, em);
    lemma_enc_at(s, i, em);
    assert(s[i] == em[0]);
    assert(em[0] == (seq!['"'] + esc_str(m0.0) + seq!['"', ':'] + enc_json(m0.1))[0]);
    assert forall|k: int| 0 <= k < le implies #[trigger] esc_str(m0.0)[k] == em[1 + k] by {
        assert(em[1 + k] == (seq!['"'] + esc_str(m0.0) + seq!['"', ':'] + enc_json(m0.1))[1 + k]);
    }
    lemma_enc_seg(s, i, em, 1, 1 + le, esc_str(m0.0));
    assert(s[i + (1 + le)] == em[1 + le]);
    assert(em[1 + le] == (seq!['"'] + esc_str(m0.0) + seq!['"', ':'] + enc_json(m0.1))[1 + le]);
    assert(s[i + 1 + le] == '"');
    lemma_sp_string_enc(s, i + 1, m0.0, Seq::empty());
    assert(Seq::<char>::empty() + m0.0 =~= m0.0);
    let n = i + le + 2;
    assert(s[n] == em[2 + le]);
    assert(em[2 + le] == (seq!['"'] + esc_str(m0.0) + seq!['"', ':'] + enc_json(m0.1))[2 + le]);
    assert(s[n] == ':');
    assert(sp_ws(s, n) == n);
    lemma_enc_json_first(m0.1);
    assert forall|k: int| 0 <= k < lv implies #[trigger] enc_json(m0.1)[k] == em[3 + le + k] by {
        assert(em[3 + le + k] == (seq!['"'] + esc_str(m0.0) + seq!['"', ':'] + enc_json(m0.1))[3
            + le + k]);
    }
    lemma_enc_seg(s, i, em, 3 + le, lm, enc_json(m0.1));
    assert(s[n + 1] == em[3 + le]);
    assert(sp_ws(s, n + 1) == n + 1);
    let p = n + 1 + lv;
    assert(p == i + lm);
    if ms.len() == 1 {
        assert(s[p] == '}');
        assert(('}' as u32) == 125);
    } else {
        assert(s[p] == enc_members(ms)[lm]);
        assert(enc_members(ms)[lm] == (em + seq![','] + rest)[lm]);
        assert(s[p] == ',');
        assert((',' as u32) == 44);
    }
    lemma_sp_value_enc(s, n + 1, m0.1);
    if ms.len() == 1 {
        assert(s[p] == '}');
        assert(sp_ws(s, p) == p);
        assert(acc.push((m0.0, m0.1)) =~= acc + ms) by {
            assert((m0.0, m0.1) == m0);
        }
    } else {
        assert(s[p] == enc_members(ms)[lm]);
        assert(enc_members(ms)[lm] == (em + seq![','] + rest)[lm]);
        assert(s[p] == ',');
        assert((',' as u32) == 44 && ('}' as u32) == 125);
        assert(sp_ws(s, p) == p);
        assert(rest[0] == enc_member(ms.skip(1)[0])[0]) by {
            if ms.skip(1).len() > 1 {
                assert(rest == enc_member(ms.skip(1)[0]) + seq![','] + enc_members(
                    ms.skip(1).skip(1),
                ));
            } else {
                assert(rest == enc_member(ms.skip(1)[0]));
            }
        }
        assert(enc_member(ms.skip(1)[0])[0] == '"') by {
            assert(enc_member(ms.skip(1)[0]) == seq!['"'] + esc_str(ms.skip(1)[0].0) + seq![
                '"',
                ':',
            ] + enc_json(ms.skip(1)[0].1));
        }
        assert forall|k: int| 0 <= k < rest.len() implies #[trigger] rest[k] == enc_members(ms)[lm
            + 1 + k] by {
            assert(enc_members(ms)[lm + 1 + k] == (em + seq![','] + rest)[lm + 1 + k]);
        }
        lemma_enc_seg(s, i, enc_members(ms), lm + 1, l, rest);
        assert(s[i + (lm + 1)] == enc_members(ms)[lm + 1]);
        assert(s[p + 1] == '"');
        assert(sp_ws(s, p + 1) == p + 1);
        assert(s[i + l] == '}');
        lemma_sp_members_enc(s, p + 1, ms.skip(1), acc.push((m0.0, m0.1)));
        assert(acc.push((m0.0, m0.1)) + ms.skip(1) =~= acc + ms) by {
            assert((m0.0, m0.1) == m0);
        }
    }
}

/// The round trip: parsing the canonical encoding of any value yields
/// exactly that value.
pub proof fn lemma_sp_doc_enc(j: JsonV)
    requires
        num_free(j),
    ensures
        sp_doc(enc_json(j)) == Some(j),
{
    assert(!(j is FNum));
    let s = enc_json(j);
    lemma_enc_json_first(j);
    assert(sp_ws(s, 0) == 0);
    assert(s.subrange(0, s.len() as int) =~= s);
    lemma_sp_value_enc(s, 0, j);
    assert(sp_ws(s, s.len() as int) == s.len());
}

} // verus!
