//! A byte-level model of JSON documents and a specification-level
//! parser for them.
//!
//! String and number content is kept raw: a string value holds the
//! bytes that stood between its quotes, escape sequences untouched,
//! and a number holds its lexeme.  Keeping the raw bytes lets a
//! read-modify-write round trip reproduce untouched parts of the
//! document exactly, and an object keeps its members in document
//! order.  Where a value's meaning matters rather than its bytes —
//! the `version` string the update engine parses — `sp_unescape`
//! first decodes the escapes to the bytes they denote.

use vstd::prelude::*;
use crate::version::is_digit;

verus! {

/// A JSON value, as the parser sees it.
pub enum JsonV {
    Null,
    Bool(bool),
    /// The raw lexeme of a number.
    Num(Seq<u8>),
    /// The raw bytes between the quotes of a string.
    Str(Seq<u8>),
    Arr(Seq<JsonV>),
    /// Members in document order, keys raw.
    Obj(Seq<(Seq<u8>, JsonV)>),
}

pub open spec fn quote() -> u8 {
    34
}

pub open spec fn backslash() -> u8 {
    92
}

pub open spec fn is_ws(b: u8) -> bool {
    b == 32 || b == 9 || b == 10 || b == 13
}

/// The single characters that may follow a backslash.
pub open spec fn is_esc_code(b: u8) -> bool {
    b == 34 || b == 92 || b == 47 || b == 98 || b == 102 || b == 110 || b == 114 || b == 116
}

pub open spec fn is_hex(b: u8) -> bool {
    (48 <= b <= 57) || (65 <= b <= 70) || (97 <= b <= 102)
}

/// First position at or after `i` that does not hold whitespace.
pub open spec fn sp_ws(s: Seq<u8>, i: int) -> int
    decreases s.len() - i,
{
    if 0 <= i < s.len() && is_ws(s[i]) {
        sp_ws(s, i + 1)
    } else {
        i
    }
}

pub proof fn lemma_sp_ws(s: Seq<u8>, i: int)
    requires
        0 <= i <= s.len(),
    ensures
        i <= sp_ws(s, i) <= s.len(),
        sp_ws(s, i) < s.len() ==> !is_ws(s[sp_ws(s, i)]),
        forall|j: int| i <= j < sp_ws(s, i) ==> is_ws(#[trigger] s[j]),
    decreases s.len() - i,
{
    if 0 <= i < s.len() && is_ws(s[i]) {
        lemma_sp_ws(s, i + 1);
    }
}

/// `sp_ws` stops exactly at the end of a whitespace run.
pub proof fn lemma_sp_ws_run(s: Seq<u8>, i: int, p: int)
    requires
        0 <= i <= p <= s.len(),
        forall|j: int| i <= j < p ==> is_ws(#[trigger] s[j]),
        p < s.len() ==> !is_ws(s[p]),
    ensures
        sp_ws(s, i) == p,
    decreases p - i,
{
    if i < p {
        lemma_sp_ws_run(s, i + 1, p);
    }
}

/// Scan a string body from `i` (just after the opening quote) to its
/// closing quote.  Yields the raw content and the position after the
/// closing quote.
pub open spec fn sp_str_body(s: Seq<u8>, i: int) -> Option<(Seq<u8>, int)>
    decreases s.len() - i,
{
    if !(0 <= i < s.len()) {
        None
    } else if s[i] == quote() {
        Some((Seq::empty(), i + 1))
    } else if s[i] == backslash() {
        if i + 1 < s.len() && is_esc_code(s[i + 1]) {
            match sp_str_body(s, i + 2) {
                Some((c, j)) => Some((seq![s[i], s[i + 1]] + c, j)),
                None => None,
            }
        } else if i + 5 < s.len() && s[i + 1] == 117 && is_hex(s[i + 2]) && is_hex(s[i + 3])
            && is_hex(s[i + 4]) && is_hex(s[i + 5]) {
            match sp_str_body(s, i + 6) {
                Some((c, j)) => Some((s.subrange(i, i + 6) + c, j)),
                None => None,
            }
        } else {
            None
        }
    } else if s[i] < 32 {
        None
    } else {
        match sp_str_body(s, i + 1) {
            Some((c, j)) => Some((seq![s[i]] + c, j)),
            None => None,
        }
    }
}

pub proof fn lemma_sp_str_body_bounds(s: Seq<u8>, i: int)
    requires
        0 <= i <= s.len(),
    ensures
        sp_str_body(s, i) matches Some(r) ==> i < r.1 <= s.len(),
    decreases s.len() - i,
{
    if 0 <= i < s.len() {
        if s[i] == quote() {
        } else if s[i] == backslash() {
            if i + 1 < s.len() && is_esc_code(s[i + 1]) {
                lemma_sp_str_body_bounds(s, i + 2);
            } else if i + 5 < s.len() && s[i + 1] == 117 && is_hex(s[i + 2]) && is_hex(s[i + 3])
                && is_hex(s[i + 4]) && is_hex(s[i + 5]) {
                lemma_sp_str_body_bounds(s, i + 6);
            }
        } else {
            lemma_sp_str_body_bounds(s, i + 1);
        }
    }
}

/// End of the digit run that starts at `i`.
pub open spec fn sp_digits(s: Seq<u8>, i: int) -> int
    decreases s.len() - i,
{
    if 0 <= i < s.len() && is_digit(s[i]) {
        sp_digits(s, i + 1)
    } else {
        i
    }
}

pub proof fn lemma_sp_digits(s: Seq<u8>, i: int)
    requires
        0 <= i <= s.len(),
    ensures
        i <= sp_digits(s, i) <= s.len(),
        sp_digits(s, i) < s.len() ==> !is_digit(s[sp_digits(s, i)]),
        forall|j: int| i <= j < sp_digits(s, i) ==> is_digit(#[trigger] s[j]),
    decreases s.len() - i,
{
    if 0 <= i < s.len() && is_digit(s[i]) {
        lemma_sp_digits(s, i + 1);
    }
}

pub proof fn lemma_sp_digits_run(s: Seq<u8>, i: int, p: int)
    requires
        0 <= i <= p <= s.len(),
        forall|j: int| i <= j < p ==> is_digit(#[trigger] s[j]),
        p < s.len() ==> !is_digit(s[p]),
    ensures
        sp_digits(s, i) == p,
    decreases p - i,
{
    if i < p {
        lemma_sp_digits_run(s, i + 1, p);
    }
}

/// Scan a number lexeme that starts at `i`, after the grammar of JSON:
/// an optional minus, an integer part without a superfluous leading
/// zero, then optional fraction and exponent parts.
pub open spec fn sp_number(s: Seq<u8>, i: int) -> Option<(Seq<u8>, int)> {
    let i1 = if 0 <= i < s.len() && s[i] == 45 {
        i + 1
    } else {
        i
    };
    if !(0 <= i1 < s.len() && is_digit(s[i1])) {
        None
    } else {
        let i2 = if s[i1] == 48 {
            i1 + 1
        } else {
            sp_digits(s, i1)
        };
        let i3 = if i2 < s.len() && s[i2] == 46 {
            if sp_digits(s, i2 + 1) == i2 + 1 {
                -1
            } else {
                sp_digits(s, i2 + 1)
            }
        } else {
            i2
        };
        if i3 < 0 {
            None
        } else {
            let i4 = if i3 < s.len() && (s[i3] == 101 || s[i3] == 69) {
                let ie = if i3 + 1 < s.len() && (s[i3 + 1] == 43 || s[i3 + 1] == 45) {
                    i3 + 2
                } else {
                    i3 + 1
                };
                if sp_digits(s, ie) == ie {
                    -1
                } else {
                    sp_digits(s, ie)
                }
            } else {
                i3
            };
            if i4 < 0 {
                None
            } else {
                Some((s.subrange(i, i4), i4))
            }
        }
    }
}

pub proof fn lemma_sp_number_bounds(s: Seq<u8>, i: int)
    requires
        0 <= i <= s.len(),
    ensures
        sp_number(s, i) matches Some(r) ==> i < r.1 <= s.len(),
{
    let i1 = if 0 <= i < s.len() && s[i] == 45 {
        i + 1
    } else {
        i
    };
    if 0 <= i1 < s.len() && is_digit(s[i1]) {
        lemma_sp_digits(s, i1);
        let i2 = if s[i1] == 48 {
            i1 + 1
        } else {
            sp_digits(s, i1)
        };
        if i2 < s.len() && s[i2] == 46 {
            lemma_sp_digits(s, i2 + 1);
        }
        if 0 <= i2 <= s.len() {
            let i3 = if i2 < s.len() && s[i2] == 46 {
                if sp_digits(s, i2 + 1) == i2 + 1 {
                    -1
                } else {
                    sp_digits(s, i2 + 1)
                }
            } else {
                i2
            };
            if 0 <= i3 <= s.len() {
                if i3 < s.len() && (s[i3] == 101 || s[i3] == 69) {
                    let ie = if i3 + 1 < s.len() && (s[i3 + 1] == 43 || s[i3 + 1] == 45) {
                        i3 + 2
                    } else {
                        i3 + 1
                    };
                    if ie <= s.len() {
                        lemma_sp_digits(s, ie);
                    }
                }
            }
        }
    }
}

pub open spec fn null_bytes() -> Seq<u8> {
    seq![110, 117, 108, 108]
}

pub open spec fn true_bytes() -> Seq<u8> {
    seq![116, 114, 117, 101]
}

pub open spec fn false_bytes() -> Seq<u8> {
    seq![102, 97, 108, 115, 101]
}

/// Does the literal `w` stand at position `i` of `s`?
pub open spec fn sp_lit(s: Seq<u8>, i: int, w: Seq<u8>) -> bool {
    0 <= i && i + w.len() <= s.len() && s.subrange(i, i + w.len()) == w
}

/// Parse one JSON value, leading whitespace skipped, at position `i`.
/// `f` is recursion fuel; `top_fuel` is always enough for a whole
/// document.
pub open spec fn sp_value(s: Seq<u8>, i: int, f: nat) -> Option<(JsonV, int)>
    decreases f,
{
    if f == 0 {
        None
    } else {
        let j = sp_ws(s, i);
        if !(0 <= j < s.len()) {
            None
        } else if s[j] == 123 {
            match sp_members_first(s, j + 1, (f - 1) as nat) {
                Some((m, k)) => Some((JsonV::Obj(m), k)),
                None => None,
            }
        } else if s[j] == 91 {
            match sp_items_first(s, j + 1, (f - 1) as nat) {
                Some((a, k)) => Some((JsonV::Arr(a), k)),
                None => None,
            }
        } else if s[j] == quote() {
            match sp_str_body(s, j + 1) {
                Some((c, k)) => Some((JsonV::Str(c), k)),
                None => None,
            }
        } else if sp_lit(s, j, null_bytes()) {
            Some((JsonV::Null, j + 4))
        } else if sp_lit(s, j, true_bytes()) {
            Some((JsonV::Bool(true), j + 4))
        } else if sp_lit(s, j, false_bytes()) {
            Some((JsonV::Bool(false), j + 5))
        } else if s[j] == 45 || is_digit(s[j]) {
            match sp_number(s, j) {
                Some((lx, k)) => Some((JsonV::Num(lx), k)),
                None => None,
            }
        } else {
            None
        }
    }
}

/// Items of an array from just after `[`; the array may be empty.
pub open spec fn sp_items_first(s: Seq<u8>, i: int, f: nat) -> Option<(Seq<JsonV>, int)>
    decreases f,
{
    if f == 0 {
        None
    } else {
        let j = sp_ws(s, i);
        if 0 <= j < s.len() && s[j] == 93 {
            Some((Seq::empty(), j + 1))
        } else {
            sp_items(s, i, (f - 1) as nat)
        }
    }
}

/// One or more array items, then `]`.
pub open spec fn sp_items(s: Seq<u8>, i: int, f: nat) -> Option<(Seq<JsonV>, int)>
    decreases f,
{
    if f == 0 {
        None
    } else {
        match sp_value(s, i, (f - 1) as nat) {
            None => None,
            Some((v, k)) => {
                let k2 = sp_ws(s, k);
                if 0 <= k2 < s.len() && s[k2] == 44 {
                    match sp_items(s, k2 + 1, (f - 1) as nat) {
                        Some((rest, e)) => Some((seq![v] + rest, e)),
                        None => None,
                    }
                } else if 0 <= k2 < s.len() && s[k2] == 93 {
                    Some((seq![v], k2 + 1))
                } else {
                    None
                }
            },
        }
    }
}

/// Members of an object from just after `{`; the object may be empty.
pub open spec fn sp_members_first(s: Seq<u8>, i: int, f: nat) -> Option<
    (Seq<(Seq<u8>, JsonV)>, int),
>
    decreases f,
{
    if f == 0 {
        None
    } else {
        let j = sp_ws(s, i);
        if 0 <= j < s.len() && s[j] == 125 {
            Some((Seq::empty(), j + 1))
        } else {
            sp_members(s, i, (f - 1) as nat)
        }
    }
}

/// One or more `"key": value` members, then `}`.
pub open spec fn sp_members(s: Seq<u8>, i: int, f: nat) -> Option<(Seq<(Seq<u8>, JsonV)>, int)>
    decreases f,
{
    if f == 0 {
        None
    } else {
        let j = sp_ws(s, i);
        if !(0 <= j < s.len() && s[j] == quote()) {
            None
        } else {
            match sp_str_body(s, j + 1) {
                None => None,
                Some((key, k)) => {
                    let k2 = sp_ws(s, k);
                    if !(0 <= k2 < s.len() && s[k2] == 58) {
                        None
                    } else {
                        match sp_value(s, k2 + 1, (f - 1) as nat) {
                            None => None,
                            Some((v, m)) => {
                                let m2 = sp_ws(s, m);
                                if 0 <= m2 < s.len() && s[m2] == 44 {
                                    match sp_members(s, m2 + 1, (f - 1) as nat) {
                                        Some((rest, e)) => Some((seq![(key, v)] + rest, e)),
                                        None => None,
                                    }
                                } else if 0 <= m2 < s.len() && s[m2] == 125 {
                                    Some((seq![(key, v)], m2 + 1))
                                } else {
                                    None
                                }
                            },
                        }
                    }
                }
            }
        }
    }
}

/// Fuel that suffices to parse any document of `s`'s length.
pub open spec fn top_fuel(s: Seq<u8>) -> nat {
    (3 * s.len() + 3) as nat
}

/// Parse a whole document: one value and nothing but trailing
/// whitespace after it.
pub open spec fn sp_json(s: Seq<u8>) -> Option<JsonV> {
    match sp_value(s, 0, top_fuel(s)) {
        Some((v, j)) => {
            if sp_ws(s, j) == s.len() {
                Some(v)
            } else {
                None
            }
        },
        None => None,
    }
}

pub proof fn lemma_sp_value_bounds(s: Seq<u8>, i: int, f: nat)
    requires
        0 <= i <= s.len(),
    ensures
        sp_value(s, i, f) matches Some(r) ==> i < r.1 <= s.len(),
    decreases f,
{
    lemma_sp_ws(s, i);
    if f > 0 {
        let j = sp_ws(s, i);
        if 0 <= j < s.len() {
            if s[j] == 123 {
                lemma_sp_members_first_bounds(s, j + 1, (f - 1) as nat);
            } else if s[j] == 91 {
                lemma_sp_items_first_bounds(s, j + 1, (f - 1) as nat);
            } else if s[j] == quote() {
                lemma_sp_str_body_bounds(s, j + 1);
            } else if s[j] == 45 || is_digit(s[j]) {
                lemma_sp_number_bounds(s, j);
            }
        }
    }
}

pub proof fn lemma_sp_items_first_bounds(s: Seq<u8>, i: int, f: nat)
    requires
        0 <= i <= s.len(),
    ensures
        sp_items_first(s, i, f) matches Some(r) ==> i < r.1 <= s.len(),
    decreases f,
{
    lemma_sp_ws(s, i);
    if f > 0 {
        lemma_sp_items_bounds(s, i, (f - 1) as nat);
    }
}

pub proof fn lemma_sp_items_bounds(s: Seq<u8>, i: int, f: nat)
    requires
        0 <= i <= s.len(),
    ensures
        sp_items(s, i, f) matches Some(r) ==> i < r.1 <= s.len(),
    decreases f,
{
    if f > 0 {
        lemma_sp_value_bounds(s, i, (f - 1) as nat);
        match sp_value(s, i, (f - 1) as nat) {
            None => {},
            Some((v, k)) => {
                lemma_sp_ws(s, k);
                let k2 = sp_ws(s, k);
                if 0 <= k2 < s.len() && s[k2] == 44 {
                    lemma_sp_items_bounds(s, k2 + 1, (f - 1) as nat);
                }
            },
        }
    }
}

pub proof fn lemma_sp_members_first_bounds(s: Seq<u8>, i: int, f: nat)
    requires
        0 <= i <= s.len(),
    ensures
        sp_members_first(s, i, f) matches Some(r) ==> i < r.1 <= s.len(),
    decreases f,
{
    lemma_sp_ws(s, i);
    if f > 0 {
        lemma_sp_members_bounds(s, i, (f - 1) as nat);
    }
}

pub proof fn lemma_sp_members_bounds(s: Seq<u8>, i: int, f: nat)
    requires
        0 <= i <= s.len(),
    ensures
        sp_members(s, i, f) matches Some(r) ==> i < r.1 <= s.len(),
    decreases f,
{
    lemma_sp_ws(s, i);
    if f > 0 {
        let j = sp_ws(s, i);
        if 0 <= j < s.len() && s[j] == quote() {
            lemma_sp_str_body_bounds(s, j + 1);
            match sp_str_body(s, j + 1) {
                None => {},
                Some((key, k)) => {
                    lemma_sp_ws(s, k);
                    let k2 = sp_ws(s, k);
                    if 0 <= k2 < s.len() && s[k2] == 58 {
                        lemma_sp_value_bounds(s, k2 + 1, (f - 1) as nat);
                        match sp_value(s, k2 + 1, (f - 1) as nat) {
                            None => {},
                            Some((v, m)) => {
                                lemma_sp_ws(s, m);
                                let m2 = sp_ws(s, m);
                                if 0 <= m2 < s.len() && s[m2] == 44 {
                                    lemma_sp_members_bounds(s, m2 + 1, (f - 1) as nat);
                                }
                            },
                        }
                    }
                },
            }
        }
    }
}

/// The constructor of a parsed value is decided by its first byte.
pub proof fn lemma_sp_value_shape(s: Seq<u8>, i: int, f: nat)
    ensures
        sp_value(s, i, f) matches Some(r) ==> {
            let j = sp_ws(s, i);
            &&& (r.0 is Obj <==> s[j] == 123)
            &&& (r.0 is Arr <==> s[j] == 91)
            &&& (r.0 is Str <==> s[j] == quote())
        },
{
}

/// Well-formed raw string content: every byte may stand between the
/// quotes of a JSON string (no bare quote, no bare backslash, no
/// control byte), and every backslash begins a valid escape.
pub open spec fn wf_str(c: Seq<u8>) -> bool
    decreases c.len(),
{
    if c.len() == 0 {
        true
    } else if c[0] == backslash() {
        ||| (c.len() >= 2 && is_esc_code(c[1]) && wf_str(c.skip(2)))
        ||| (c.len() >= 6 && c[1] == 117 && is_hex(c[2]) && is_hex(c[3]) && is_hex(c[4]) && is_hex(
            c[5],
        ) && wf_str(c.skip(6)))
    } else {
        c[0] != quote() && c[0] >= 32 && wf_str(c.skip(1))
    }
}

/// Whatever the scanner accepts as string content is well-formed.
pub proof fn lemma_sp_str_body_wf(s: Seq<u8>, i: int)
    ensures
        sp_str_body(s, i) matches Some(p) ==> wf_str(p.0),
    decreases s.len() - i,
{
    if 0 <= i < s.len() {
        if s[i] == quote() {
        } else if s[i] == backslash() {
            if i + 1 < s.len() && is_esc_code(s[i + 1]) {
                lemma_sp_str_body_wf(s, i + 2);
                if let Some((c, j)) = sp_str_body(s, i + 2) {
                    let w = seq![s[i], s[i + 1]] + c;
                    assert(w[0] == backslash() && w[1] == s[i + 1]);
                    assert(w.skip(2) =~= c);
                }
            } else if i + 5 < s.len() && s[i + 1] == 117 && is_hex(s[i + 2]) && is_hex(s[i + 3])
                && is_hex(s[i + 4]) && is_hex(s[i + 5]) {
                lemma_sp_str_body_wf(s, i + 6);
                if let Some((c, j)) = sp_str_body(s, i + 6) {
                    let w = s.subrange(i, i + 6) + c;
                    assert(w[0] == backslash() && w[1] == 117 && is_hex(w[2]) && is_hex(w[3])
                        && is_hex(w[4]) && is_hex(w[5]));
                    assert(w.skip(6) =~= c);
                }
            }
        } else if s[i] >= 32 {
            lemma_sp_str_body_wf(s, i + 1);
            if let Some((c, j)) = sp_str_body(s, i + 1) {
                let w = seq![s[i]] + c;
                assert(w[0] == s[i]);
                assert(w.skip(1) =~= c);
            }
        }
    }
}

/// Well-formed content embedded at `i` with a closing quote after it
/// scans to exactly that content.
pub proof fn lemma_str_body_embed(s: Seq<u8>, i: int, c: Seq<u8>)
    requires
        0 <= i,
        i + c.len() + 1 <= s.len(),
        s.subrange(i, i + c.len()) == c,
        s[i + c.len()] == quote(),
        wf_str(c),
    ensures
        sp_str_body(s, i) == Some::<(Seq<u8>, int)>((c, i + c.len() + 1)),
    decreases c.len(),
{
    if c.len() == 0 {
        assert(s[i] == quote());
    } else if c[0] == backslash() {
        assert(s[i] == c[0]);
        if c.len() >= 2 && is_esc_code(c[1]) && wf_str(c.skip(2)) {
            let c2 = c.skip(2);
            assert(s[i + 1] == c[1]);
            assert(s.subrange(i + 2, i + 2 + c2.len()) =~= c2);
            lemma_str_body_embed(s, i + 2, c2);
            assert(seq![s[i], s[i + 1]] + c2 =~= c);
        } else {
            let c6 = c.skip(6);
            assert(s[i + 1] == c[1] && s[i + 2] == c[2] && s[i + 3] == c[3] && s[i + 4] == c[4]
                && s[i + 5] == c[5]);
            assert(!is_esc_code(s[i + 1]));
            assert(s.subrange(i + 6, i + 6 + c6.len()) =~= c6);
            lemma_str_body_embed(s, i + 6, c6);
            assert(s.subrange(i, i + 6) + c6 =~= c);
        }
    } else {
        assert(s[i] == c[0]);
        let c1 = c.skip(1);
        assert(s.subrange(i + 1, i + 1 + c1.len()) =~= c1);
        lemma_str_body_embed(s, i + 1, c1);
        assert(seq![s[i]] + c1 =~= c);
    }
}

/// The byte a simple escape denotes.
pub open spec fn esc_byte(b: u8) -> u8 {
    if b == 34 {
        34
    } else if b == 92 {
        92
    } else if b == 47 {
        47
    } else if b == 98 {
        8
    } else if b == 102 {
        12
    } else if b == 110 {
        10
    } else if b == 114 {
        13
    } else {
        9
    }
}

/// The numeric value of one hex digit byte.
pub open spec fn hex_val(b: u8) -> nat {
    if 48 <= b <= 57 {
        (b - 48) as nat
    } else if 65 <= b <= 70 {
        (b - 55) as nat
    } else if 97 <= b <= 102 {
        (b - 87) as nat
    } else {
        0
    }
}

/// Decode raw string content to the bytes it denotes, as far as one
/// byte carries them: the simple escapes and `\u` escapes below 0x80
/// become their byte; a `\u` escape at 0x80 or above is kept raw,
/// and so is a backslash that begins no escape.  The bytes left
/// undecided all lie outside ASCII, so digits, dots and signs are
/// decoded completely.
pub open spec fn sp_unescape(c: Seq<u8>) -> Seq<u8>
    decreases c.len(),
{
    if c.len() == 0 {
        Seq::empty()
    } else if c[0] == backslash() && c.len() >= 2 && is_esc_code(c[1]) {
        seq![esc_byte(c[1])] + sp_unescape(c.skip(2))
    } else if c[0] == backslash() && c.len() >= 6 && c[1] == 117 && is_hex(c[2]) && is_hex(c[3])
        && is_hex(c[4]) && is_hex(c[5]) {
        let v = hex_val(c[2]) * 4096 + hex_val(c[3]) * 256 + hex_val(c[4]) * 16 + hex_val(c[5]);
        if v < 128 {
            seq![v as u8] + sp_unescape(c.skip(6))
        } else {
            c.subrange(0, 6) + sp_unescape(c.skip(6))
        }
    } else {
        seq![c[0]] + sp_unescape(c.skip(1))
    }
}

/// Content without backslashes decodes to itself.
pub proof fn lemma_unescape_plain(c: Seq<u8>)
    requires
        forall|q: int| 0 <= q < c.len() ==> #[trigger] c[q] != backslash(),
    ensures
        sp_unescape(c) == c,
    decreases c.len(),
{
    if c.len() > 0 {
        assert(c[0] != backslash());
        assert forall|q: int| 0 <= q < c.skip(1).len() implies #[trigger] c.skip(1)[q]
            != backslash() by {
            assert(c.skip(1)[q] == c[q + 1]);
        }
        lemma_unescape_plain(c.skip(1));
        assert(seq![c[0]] + c.skip(1) =~= c);
    }
}

/// Content without quotes, backslashes or control bytes is
/// well-formed as it stands.
pub proof fn lemma_wf_str_plain(c: Seq<u8>)
    requires
        forall|q: int|
            0 <= q < c.len() ==> 32 <= #[trigger] c[q] && c[q] != quote() && c[q] != backslash(),
    ensures
        wf_str(c),
    decreases c.len(),
{
    if c.len() > 0 {
        assert(32 <= c[0] && c[0] != quote() && c[0] != backslash());
        assert forall|q: int| 0 <= q < c.skip(1).len() implies 32 <= #[trigger] c.skip(1)[q]
            && c.skip(1)[q] != quote() && c.skip(1)[q] != backslash() by {
            assert(c.skip(1)[q] == c[q + 1]);
        }
        lemma_wf_str_plain(c.skip(1));
    }
}

/// Every string in the value, content and keys alike, is
/// well-formed.
pub open spec fn wf_jv(v: JsonV) -> bool
    decreases v,
{
    match v {
        JsonV::Str(c) => wf_str(c),
        JsonV::Arr(vs) => forall|k: int| 0 <= k < vs.len() ==> wf_jv(#[trigger] vs[k]),
        JsonV::Obj(es) => forall|k: int|
            0 <= k < es.len() ==> wf_str(#[trigger] es[k].0) && wf_jv(es[k].1),
        _ => true,
    }
}

/// Whatever the parser accepts is well-formed.
pub proof fn lemma_sp_value_wf(s: Seq<u8>, i: int, f: nat)
    ensures
        sp_value(s, i, f) matches Some(p) ==> wf_jv(p.0),
    decreases f,
{
    if f > 0 {
        let j = sp_ws(s, i);
        if 0 <= j < s.len() {
            if s[j] == 123 {
                lemma_sp_members_first_wf(s, j + 1, (f - 1) as nat);
            } else if s[j] == 91 {
                lemma_sp_items_first_wf(s, j + 1, (f - 1) as nat);
            } else if s[j] == quote() {
                lemma_sp_str_body_wf(s, j + 1);
            }
        }
    }
}

pub proof fn lemma_sp_items_first_wf(s: Seq<u8>, i: int, f: nat)
    ensures
        sp_items_first(s, i, f) matches Some(p) ==> forall|k: int|
            0 <= k < p.0.len() ==> wf_jv(#[trigger] p.0[k]),
    decreases f,
{
    if f > 0 {
        lemma_sp_items_wf(s, i, (f - 1) as nat);
    }
}

pub proof fn lemma_sp_items_wf(s: Seq<u8>, i: int, f: nat)
    ensures
        sp_items(s, i, f) matches Some(p) ==> forall|k: int|
            0 <= k < p.0.len() ==> wf_jv(#[trigger] p.0[k]),
    decreases f,
{
    if f > 0 {
        lemma_sp_value_wf(s, i, (f - 1) as nat);
        match sp_value(s, i, (f - 1) as nat) {
            None => {},
            Some((v, k)) => {
                let k2 = sp_ws(s, k);
                if 0 <= k2 < s.len() && s[k2] == 44 {
                    lemma_sp_items_wf(s, k2 + 1, (f - 1) as nat);
                    if let Some((rest, e)) = sp_items(s, k2 + 1, (f - 1) as nat) {
                        assert forall|m: int| 0 <= m < (seq![v] + rest).len() implies wf_jv(
                            #[trigger] (seq![v] + rest)[m],
                        ) by {
                            if m > 0 {
                                assert((seq![v] + rest)[m] == rest[m - 1]);
                            }
                        }
                    }
                }
            },
        }
    }
}

#[verifier::spinoff_prover]
#[verifier::rlimit(60)]
pub proof fn lemma_sp_members_first_wf(s: Seq<u8>, i: int, f: nat)
    ensures
        sp_members_first(s, i, f) matches Some(p) ==> forall|k: int|
            0 <= k < p.0.len() ==> wf_str(#[trigger] p.0[k].0) && wf_jv(p.0[k].1),
    decreases f,
{
    if f > 0 {
        let j = sp_ws(s, i);
        if 0 <= j < s.len() && s[j] == 125 {
            let whole = Seq::<(Seq<u8>, JsonV)>::empty();
            assert(forall|k: int|
                0 <= k < whole.len() ==> wf_str(#[trigger] whole[k].0) && wf_jv(whole[k].1));
        } else {
            lemma_sp_members_wf(s, i, (f - 1) as nat);
        }
    }
}

#[verifier::spinoff_prover]
#[verifier::rlimit(60)]
pub proof fn lemma_sp_members_wf(s: Seq<u8>, i: int, f: nat)
    ensures
        sp_members(s, i, f) matches Some(p) ==> forall|k: int|
            0 <= k < p.0.len() ==> wf_str(#[trigger] p.0[k].0) && wf_jv(p.0[k].1),
    decreases f,
{
    if f > 0 {
        let j = sp_ws(s, i);
        if 0 <= j < s.len() && s[j] == quote() {
            lemma_sp_str_body_wf(s, j + 1);
            match sp_str_body(s, j + 1) {
                None => {
                    assert(sp_members(s, i, f) is None);
                },
                Some((key, k)) => {
                    assert(wf_str(key));
                    let k2 = sp_ws(s, k);
                    if 0 <= k2 < s.len() && s[k2] == 58 {
                        lemma_sp_value_wf(s, k2 + 1, (f - 1) as nat);
                        match sp_value(s, k2 + 1, (f - 1) as nat) {
                            None => {
                                assert(sp_members(s, i, f) is None);
                            },
                            Some((v, m)) => {
                                assert(wf_jv(v));
                                let m2 = sp_ws(s, m);
                                if 0 <= m2 < s.len() && s[m2] == 44 {
                                    lemma_sp_members_wf(s, m2 + 1, (f - 1) as nat);
                                    match sp_members(s, m2 + 1, (f - 1) as nat) {
                                        None => {
                                            assert(sp_members(s, i, f) is None);
                                        },
                                        Some((rest, e)) => {
                                            let whole = seq![(key, v)] + rest;
                                            assert(sp_members(s, i, f) == Some::<
                                                (Seq<(Seq<u8>, JsonV)>, int),
                                            >((whole, e)));
                                            assert forall|q: int|
                                                0 <= q < whole.len() implies wf_str(
                                                #[trigger] whole[q].0,
                                            ) && wf_jv(whole[q].1) by {
                                                if q > 0 {
                                                    assert(whole[q] == rest[q - 1]);
                                                } else {
                                                    assert(whole[0] == (key, v));
                                                }
                                            }
                                        },
                                    }
                                } else if 0 <= m2 < s.len() && s[m2] == 125 {
                                    let whole = seq![(key, v)];
                                    assert(sp_members(s, i, f) == Some::<
                                        (Seq<(Seq<u8>, JsonV)>, int),
                                    >((whole, m2 + 1)));
                                    assert forall|q: int| 0 <= q < whole.len() implies wf_str(
                                        #[trigger] whole[q].0,
                                    ) && wf_jv(whole[q].1) by {
                                        assert(whole[0] == (key, v));
                                    }
                                } else {
                                    assert(sp_members(s, i, f) is None);
                                }
                            },
                        }
                    } else {
                        assert(sp_members(s, i, f) is None);
                    }
                },
            }
        } else {
            assert(sp_members(s, i, f) is None);
        }
    } else {
        assert(sp_members(s, i, f) is None);
    }
}

/// First index at or after `i` that holds no whitespace.
pub(crate) fn scan_ws(s: &Vec<u8>, i: usize) -> (j: usize)
    requires
        i <= s@.len(),
    ensures
        j == sp_ws(s@, i as int),
        i <= j <= s@.len(),
        j < s@.len() ==> !is_ws(s@[j as int]),
{
    let mut j = i;
    while j < s.len() && (s[j] == 32 || s[j] == 9 || s[j] == 10 || s[j] == 13)
        invariant
            i <= j <= s@.len(),
            forall|m: int| i <= m < j ==> is_ws(#[trigger] s@[m]),
        decreases s@.len() - j,
    {
        j = j + 1;
    }
    proof {
        lemma_sp_ws_run(s@, i as int, j as int);
    }
    j
}

fn esc_code(b: u8) -> (r: bool)
    ensures
        r == is_esc_code(b),
{
    b == 34 || b == 92 || b == 47 || b == 98 || b == 102 || b == 110 || b == 114 || b == 116
}

fn hex_digit(b: u8) -> (r: bool)
    ensures
        r == is_hex(b),
{
    (48 <= b && b <= 57) || (65 <= b && b <= 70) || (97 <= b && b <= 102)
}

/// Relates a scan position `m` inside a string body to its start
/// `i0`: whatever the rest scans to, prefixing the bytes consumed so
/// far gives the scan from the start.
pub(crate) open spec fn str_cont(s: Seq<u8>, i0: int, m: int, pre: Seq<u8>) -> bool {
    match sp_str_body(s, m) {
        Some((c, j)) => sp_str_body(s, i0) == Some::<(Seq<u8>, int)>((pre + c, j)),
        None => sp_str_body(s, i0) is None,
    }
}

/// Scan a string body from `i0` (just after the opening quote),
/// returning the raw content and the position after the closing
/// quote.
pub(crate) fn parse_str_body(s: &Vec<u8>, i0: usize) -> (r: Option<(Vec<u8>, usize)>)
    requires
        i0 <= s@.len(),
    ensures
        match r {
            Some(p) => sp_str_body(s@, i0 as int) == Some::<(Seq<u8>, int)>((p.0@, p.1 as int))
                && i0 < p.1 <= s@.len(),
            None => sp_str_body(s@, i0 as int) is None,
        },
{
    let mut out: Vec<u8> = Vec::new();
    let mut m = i0;
    proof {
        if let Some((c, j)) = sp_str_body(s@, i0 as int) {
            assert(Seq::<u8>::empty() + c =~= c);
        }
        lemma_sp_str_body_bounds(s@, i0 as int);
    }
    loop
        invariant
            i0 <= m <= s@.len(),
            str_cont(s@, i0 as int, m as int, out@),
        decreases s@.len() - m,
    {
        if m >= s.len() {
            return None;
        }
        let b = s[m];
        if b == 34 {
            proof {
                assert(out@ + Seq::<u8>::empty() =~= out@);
                lemma_sp_str_body_bounds(s@, i0 as int);
            }
            return Some((out, m + 1));
        } else if b == 92 {
            if m + 1 < s.len() && esc_code(s[m + 1]) {
                let b1 = s[m + 1];
                let ghost pre = out@;
                out.push(b);
                out.push(b1);
                proof {
                    assert(out@ =~= pre + seq![b, b1]);
                    if let Some((c, j)) = sp_str_body(s@, m + 2) {
                        assert(pre + (seq![b, b1] + c) =~= out@ + c);
                    }
                }
                m = m + 2;
            } else if s.len() >= 6 && m <= s.len() - 6 && s[m + 1] == 117 && hex_digit(s[m + 2])
                && hex_digit(s[m + 3]) && hex_digit(s[m + 4]) && hex_digit(s[m + 5]) {
                let ghost pre = out@;
                out.push(b);
                out.push(s[m + 1]);
                out.push(s[m + 2]);
                out.push(s[m + 3]);
                out.push(s[m + 4]);
                out.push(s[m + 5]);
                proof {
                    assert(out@ =~= pre + s@.subrange(m as int, m + 6));
                    if let Some((c, j)) = sp_str_body(s@, m + 6) {
                        assert(pre + (s@.subrange(m as int, m + 6) + c) =~= out@ + c);
                    }
                }
                m = m + 6;
            } else {
                return None;
            }
        } else if b < 32 {
            return None;
        } else {
            let ghost pre = out@;
            out.push(b);
            proof {
                if let Some((c, j)) = sp_str_body(s@, m + 1) {
                    assert(pre + (seq![b] + c) =~= out@ + c);
                }
            }
            m = m + 1;
        }
    }
}

/// End of the digit run that starts at `i`.
fn scan_digits(s: &Vec<u8>, i: usize) -> (k: usize)
    requires
        i <= s@.len(),
    ensures
        k == sp_digits(s@, i as int),
        i <= k <= s@.len(),
{
    let mut k = i;
    while k < s.len() && 48 <= s[k] && s[k] <= 57
        invariant
            i <= k <= s@.len(),
            forall|m: int| i <= m < k ==> is_digit(#[trigger] s@[m]),
        decreases s@.len() - k,
    {
        k = k + 1;
    }
    proof {
        lemma_sp_digits_run(s@, i as int, k as int);
    }
    k
}

/// Scan a number lexeme from `i`; returns the position after it.
fn scan_number(s: &Vec<u8>, i: usize) -> (r: Option<usize>)
    requires
        i <= s@.len(),
    ensures
        match r {
            Some(j) => sp_number(s@, i as int) matches Some(p) && p.1 == j as int && i < j
                <= s@.len(),
            None => sp_number(s@, i as int) is None,
        },
{
    proof {
        lemma_sp_number_bounds(s@, i as int);
    }
    let i1 = if i < s.len() && s[i] == 45 {
        i + 1
    } else {
        i
    };
    if !(i1 < s.len() && 48 <= s[i1] && s[i1] <= 57) {
        return None;
    }
    let i2 = if s[i1] == 48 {
        i1 + 1
    } else {
        scan_digits(s, i1)
    };
    proof {
        lemma_sp_digits(s@, i1 as int);
    }
    let i3 = if i2 < s.len() && s[i2] == 46 {
        let e = scan_digits(s, i2 + 1);
        if e == i2 + 1 {
            return None;
        }
        e
    } else {
        i2
    };
    let i4 = if i3 < s.len() && (s[i3] == 101 || s[i3] == 69) {
        let ie = if i3 + 1 < s.len() && (s[i3 + 1] == 43 || s[i3 + 1] == 45) {
            i3 + 2
        } else {
            i3 + 1
        };
        let e = scan_digits(s, ie);
        if e == ie {
            return None;
        }
        e
    } else {
        i3
    };
    Some(i4)
}

/// Does the four-byte word `a b c d` stand at `j`?
fn lit4(s: &Vec<u8>, j: usize, a: u8, b: u8, c: u8, d: u8) -> (r: bool)
    requires
        j <= s@.len(),
    ensures
        r == sp_lit(s@, j as int, seq![a, b, c, d]),
{
    if s.len() >= 4 && j <= s.len() - 4 && s[j] == a && s[j + 1] == b && s[j + 2] == c && s[j + 3]
        == d {
        proof {
            assert(s@.subrange(j as int, j + 4) =~= seq![a, b, c, d]);
        }
        true
    } else {
        proof {
            if j + 4 <= s@.len() {
                let w = seq![a, b, c, d];
                let sub = s@.subrange(j as int, j + 4);
                assert(sub[0] == s@[j as int] && sub[1] == s@[j + 1] && sub[2] == s@[j + 2]
                    && sub[3] == s@[j + 3]);
            }
        }
        false
    }
}

/// Does the five-byte word `a b c d e` stand at `j`?
fn lit5(s: &Vec<u8>, j: usize, a: u8, b: u8, c: u8, d: u8, e: u8) -> (r: bool)
    requires
        j <= s@.len(),
    ensures
        r == sp_lit(s@, j as int, seq![a, b, c, d, e]),
{
    if s.len() >= 5 && j <= s.len() - 5 && s[j] == a && s[j + 1] == b && s[j + 2] == c && s[j + 3]
        == d && s[j + 4] == e {
        proof {
            assert(s@.subrange(j as int, j + 5) =~= seq![a, b, c, d, e]);
        }
        true
    } else {
        proof {
            if j + 5 <= s@.len() {
                let w = seq![a, b, c, d, e];
                let sub = s@.subrange(j as int, j + 5);
                assert(sub[0] == s@[j as int] && sub[1] == s@[j + 1] && sub[2] == s@[j + 2]
                    && sub[3] == s@[j + 3] && sub[4] == s@[j + 4]);
            }
        }
        false
    }
}

/// Scan one JSON value from `i`; returns the position after it.
pub(crate) fn scan_value(s: &Vec<u8>, i: usize, Ghost(f): Ghost<nat>) -> (r: Option<usize>)
    requires
        i <= s@.len(),
        f >= 3 * (s@.len() - i) + 3,
    ensures
        match r {
            Some(j) => sp_value(s@, i as int, f) matches Some(p) && p.1 == j as int && i < j
                <= s@.len(),
            None => sp_value(s@, i as int, f) is None,
        },
    decreases s@.len() - i, 0int,
{
    proof {
        lemma_sp_value_bounds(s@, i as int, f);
    }
    let j = scan_ws(s, i);
    if j == s.len() {
        return None;
    }
    let b = s[j];
    if b == 123 {
        match scan_members_first(s, j + 1, Ghost((f - 1) as nat)) {
            Some(k) => Some(k),
            None => None,
        }
    } else if b == 91 {
        match scan_items_first(s, j + 1, Ghost((f - 1) as nat)) {
            Some(k) => Some(k),
            None => None,
        }
    } else if b == 34 {
        match parse_str_body(s, j + 1) {
            Some(p) => Some(p.1),
            None => None,
        }
    } else if lit4(s, j, 110, 117, 108, 108) {
        Some(j + 4)
    } else if lit4(s, j, 116, 114, 117, 101) {
        Some(j + 4)
    } else if lit5(s, j, 102, 97, 108, 115, 101) {
        Some(j + 5)
    } else if b == 45 || (48 <= b && b <= 57) {
        scan_number(s, j)
    } else {
        None
    }
}

/// Scan the items of an array from just after `[`.
fn scan_items_first(s: &Vec<u8>, i: usize, Ghost(f): Ghost<nat>) -> (r: Option<usize>)
    requires
        i <= s@.len(),
        f >= 3 * (s@.len() - i) + 5,
    ensures
        match r {
            Some(j) => sp_items_first(s@, i as int, f) matches Some(p) && p.1 == j as int && i < j
                <= s@.len(),
            None => sp_items_first(s@, i as int, f) is None,
        },
    decreases s@.len() - i, 2int,
{
    proof {
        lemma_sp_items_first_bounds(s@, i as int, f);
    }
    let j = scan_ws(s, i);
    if j < s.len() && s[j] == 93 {
        Some(j + 1)
    } else {
        scan_items(s, i, Ghost((f - 1) as nat))
    }
}

/// Scan one or more array items, then `]`.
fn scan_items(s: &Vec<u8>, i: usize, Ghost(f): Ghost<nat>) -> (r: Option<usize>)
    requires
        i <= s@.len(),
        f >= 3 * (s@.len() - i) + 4,
    ensures
        match r {
            Some(j) => sp_items(s@, i as int, f) matches Some(p) && p.1 == j as int && i < j
                <= s@.len(),
            None => sp_items(s@, i as int, f) is None,
        },
    decreases s@.len() - i, 1int,
{
    proof {
        lemma_sp_items_bounds(s@, i as int, f);
    }
    match scan_value(s, i, Ghost((f - 1) as nat)) {
        None => None,
        Some(k) => {
            let k2 = scan_ws(s, k);
            if k2 < s.len() && s[k2] == 44 {
                scan_items(s, k2 + 1, Ghost((f - 1) as nat))
            } else if k2 < s.len() && s[k2] == 93 {
                Some(k2 + 1)
            } else {
                None
            }
        },
    }
}

/// Scan the members of an object from just after `{`.
fn scan_members_first(s: &Vec<u8>, i: usize, Ghost(f): Ghost<nat>) -> (r: Option<usize>)
    requires
        i <= s@.len(),
        f >= 3 * (s@.len() - i) + 5,
    ensures
        match r {
            Some(j) => sp_members_first(s@, i as int, f) matches Some(p) && p.1 == j as int && i < j
                <= s@.len(),
            None => sp_members_first(s@, i as int, f) is None,
        },
    decreases s@.len() - i, 2int,
{
    proof {
        lemma_sp_members_first_bounds(s@, i as int, f);
    }
    let j = scan_ws(s, i);
    if j < s.len() && s[j] == 125 {
        Some(j + 1)
    } else {
        scan_members(s, i, Ghost((f - 1) as nat))
    }
}

/// Scan one or more `"key": value` members, then `}`.
fn scan_members(s: &Vec<u8>, i: usize, Ghost(f): Ghost<nat>) -> (r: Option<usize>)
    requires
        i <= s@.len(),
        f >= 3 * (s@.len() - i) + 4,
    ensures
        match r {
            Some(j) => sp_members(s@, i as int, f) matches Some(p) && p.1 == j as int && i < j
                <= s@.len(),
            None => sp_members(s@, i as int, f) is None,
        },
    decreases s@.len() - i, 1int,
{
    proof {
        lemma_sp_members_bounds(s@, i as int, f);
    }
    let j = scan_ws(s, i);
    if !(j < s.len() && s[j] == 34) {
        return None;
    }
    match parse_str_body(s, j + 1) {
        None => None,
        Some(kp) => {
            let k2 = scan_ws(s, kp.1);
            if !(k2 < s.len() && s[k2] == 58) {
                return None;
            }
            match scan_value(s, k2 + 1, Ghost((f - 1) as nat)) {
                None => None,
                Some(m) => {
                    let m2 = scan_ws(s, m);
                    if m2 < s.len() && s[m2] == 44 {
                        scan_members(s, m2 + 1, Ghost((f - 1) as nat))
                    } else if m2 < s.len() && s[m2] == 125 {
                        Some(m2 + 1)
                    } else {
                        None
                    }
                },
            }
        },
    }
}

fn esc_byte_of(b: u8) -> (r: u8)
    ensures
        r == esc_byte(b),
{
    if b == 34 {
        34
    } else if b == 92 {
        92
    } else if b == 47 {
        47
    } else if b == 98 {
        8
    } else if b == 102 {
        12
    } else if b == 110 {
        10
    } else if b == 114 {
        13
    } else {
        9
    }
}

fn hex_val_of(b: u8) -> (r: u32)
    ensures
        r == hex_val(b),
{
    if 48 <= b && b <= 57 {
        (b - 48) as u32
    } else if 65 <= b && b <= 70 {
        (b - 55) as u32
    } else if 97 <= b && b <= 102 {
        (b - 87) as u32
    } else {
        0
    }
}

/// Decode raw string content, as `sp_unescape` says.
pub fn unescape_content(c: &Vec<u8>) -> (r: Vec<u8>)
    ensures
        r@ == sp_unescape(c@),
{
    proof {
        assert(c@.skip(0) =~= c@);
    }
    unescape_from(c, 0)
}

fn unescape_from(c: &Vec<u8>, i: usize) -> (r: Vec<u8>)
    requires
        i <= c@.len(),
    ensures
        r@ == sp_unescape(c@.skip(i as int)),
    decreases c@.len() - i,
{
    let ghost t = c@.skip(i as int);
    if i == c.len() {
        proof {
            assert(t =~= Seq::<u8>::empty());
        }
        return Vec::new();
    }
    let b = c[i];
    proof {
        assert(t[0] == b);
    }
    if b == 92 && i + 1 < c.len() && esc_code(c[i + 1]) {
        proof {
            assert(t[1] == c@[i + 1]);
            assert(t.skip(2) =~= c@.skip(i + 2));
        }
        let eb = esc_byte_of(c[i + 1]);
        let mut out: Vec<u8> = Vec::new();
        out.push(eb);
        let mut rest = unescape_from(c, i + 2);
        let ghost restg = rest@;
        out.append(&mut rest);
        proof {
            assert(out@ =~= seq![eb] + restg);
        }
        out
    } else if b == 92 && c.len() - i >= 6 && c[i + 1] == 117 && hex_digit(c[i + 2]) && hex_digit(
        c[i + 3],
    ) && hex_digit(c[i + 4]) && hex_digit(c[i + 5]) {
        proof {
            assert(t[1] == c@[i + 1] && t[2] == c@[i + 2] && t[3] == c@[i + 3] && t[4] == c@[i + 4]
                && t[5] == c@[i + 5]);
            assert(t.skip(6) =~= c@.skip(i + 6));
        }
        let v = hex_val_of(c[i + 2]) * 4096 + hex_val_of(c[i + 3]) * 256 + hex_val_of(c[i + 4])
            * 16 + hex_val_of(c[i + 5]);
        proof {
            assert(v == hex_val(t[2]) * 4096 + hex_val(t[3]) * 256 + hex_val(t[4]) * 16 + hex_val(
                t[5],
            ));
        }
        let mut out: Vec<u8> = Vec::new();
        if v < 128 {
            out.push(v as u8);
            let mut rest = unescape_from(c, i + 6);
            let ghost restg = rest@;
            out.append(&mut rest);
            proof {
                assert(out@ =~= seq![(hex_val(t[2]) * 4096 + hex_val(t[3]) * 256 + hex_val(t[4])
                    * 16 + hex_val(t[5])) as u8] + restg);
            }
        } else {
            out.push(b);
            out.push(c[i + 1]);
            out.push(c[i + 2]);
            out.push(c[i + 3]);
            out.push(c[i + 4]);
            out.push(c[i + 5]);
            let mut rest = unescape_from(c, i + 6);
            let ghost restg = rest@;
            out.append(&mut rest);
            proof {
                assert(out@ =~= t.subrange(0, 6) + restg);
            }
        }
        out
    } else {
        proof {
            assert(t.skip(1) =~= c@.skip(i + 1));
            if b == 92 && t.len() >= 2 {
                assert(t[1] == c@[i + 1]);
            }
            if b == 92 && t.len() >= 6 {
                assert(t[2] == c@[i + 2] && t[3] == c@[i + 3] && t[4] == c@[i + 4] && t[5] == c@[i
                    + 5]);
            }
        }
        let mut out: Vec<u8> = Vec::new();
        out.push(b);
        let mut rest = unescape_from(c, i + 1);
        let ghost restg = rest@;
        out.append(&mut rest);
        proof {
            assert(out@ =~= seq![b] + restg);
        }
        out
    }
}

} // verus!
