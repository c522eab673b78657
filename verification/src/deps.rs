//! Dependency strings: `[<prefix>] <modname> [<op> <version>]`,
//! whitespace-separated, with `!`, `?`, `(?)` or `~` as the optional
//! prefix.  The update engine parses these but never rewrites them;
//! the parser tolerates any trailing tokens.

use vstd::prelude::*;
use crate::json::is_ws;
use crate::manifest::strs_view;
use crate::update::copy_bytes;

verus! {

/// End of the token that starts `s`: the index of the first
/// whitespace byte, or `s.len()`.
pub open spec fn tok_end(s: Seq<u8>) -> int
    decreases s.len(),
{
    if s.len() == 0 {
        0
    } else if is_ws(s[0]) {
        0
    } else {
        1 + tok_end(s.skip(1))
    }
}

pub proof fn lemma_tok_end(s: Seq<u8>)
    ensures
        0 <= tok_end(s) <= s.len(),
        tok_end(s) < s.len() ==> is_ws(s[tok_end(s)]),
        forall|j: int| 0 <= j < tok_end(s) ==> !is_ws(#[trigger] s[j]),
    decreases s.len(),
{
    if s.len() > 0 && !is_ws(s[0]) {
        lemma_tok_end(s.skip(1));
        assert forall|j: int| 0 <= j < tok_end(s) implies !is_ws(#[trigger] s[j]) by {
            if j > 0 {
                assert(s[j] == s.skip(1)[j - 1]);
            }
        }
    }
}

pub proof fn lemma_tok_end_at(s: Seq<u8>, p: int)
    requires
        0 <= p <= s.len(),
        forall|j: int| 0 <= j < p ==> !is_ws(#[trigger] s[j]),
        p < s.len() ==> is_ws(s[p]),
    ensures
        tok_end(s) == p,
{
    lemma_tok_end(s);
    let k = tok_end(s);
    if k < p {
        assert(is_ws(s[k]));
        assert(!is_ws(s[k]));
    }
    if p < k {
        assert(is_ws(s[p]));
    }
}

/// The whitespace-separated tokens of `s`, in order.
pub open spec fn ws_tokens(s: Seq<u8>) -> Seq<Seq<u8>>
    decreases s.len(),
{
    if s.len() == 0 {
        Seq::empty()
    } else if is_ws(s[0]) {
        ws_tokens(s.skip(1))
    } else {
        let k = tok_end(s);
        if !(1 <= k < s.len()) {
            seq![s]
        } else {
            seq![s.take(k)] + ws_tokens(s.skip(k))
        }
    }
}

/// A parsed dependency: an optional prefix token, the mod name, and
/// an optional operator-and-version pair.
#[derive(Debug)]
pub struct Dependency {
    pub prefix: Option<Vec<u8>>,
    pub name: Vec<u8>,
    pub op_version: Option<(Vec<u8>, Vec<u8>)>,
}

/// The mathematical shape of a dependency.
pub struct DependencyV {
    pub prefix: Option<Seq<u8>>,
    pub name: Seq<u8>,
    pub op_version: Option<(Seq<u8>, Seq<u8>)>,
}

impl View for Dependency {
    type V = DependencyV;

    open spec fn view(&self) -> DependencyV {
        DependencyV {
            prefix: match &self.prefix {
                Some(p) => Some(p@),
                None => None,
            },
            name: self.name@,
            op_version: match &self.op_version {
                Some(p) => Some((p.0@, p.1@)),
                None => None,
            },
        }
    }
}

/// Is the token one of the dependency prefixes `!`, `?`, `(?)`, `~`?
pub open spec fn is_prefix_tok(t: Seq<u8>) -> bool {
    t == seq![33u8] || t == seq![63u8] || t == seq![40u8, 63u8, 41u8] || t == seq![126u8]
}

/// Parse a dependency string into its parts.  The first token, if it
/// is a prefix, becomes the prefix; the next is the mod name; an
/// operator and version are taken only as a pair; anything further
/// is tolerated and ignored.  A string without a name yields
/// nothing.
pub open spec fn spec_parse_dependency(s: Seq<u8>) -> Option<DependencyV> {
    let ts = ws_tokens(s);
    if ts.len() == 0 {
        None
    } else if is_prefix_tok(ts[0]) {
        if ts.len() < 2 {
            None
        } else {
            Some(
                DependencyV {
                    prefix: Some(ts[0]),
                    name: ts[1],
                    op_version: if ts.len() >= 4 {
                        Some((ts[2], ts[3]))
                    } else {
                        None
                    },
                },
            )
        }
    } else {
        Some(
            DependencyV {
                prefix: None,
                name: ts[0],
                op_version: if ts.len() >= 3 {
                    Some((ts[1], ts[2]))
                } else {
                    None
                },
            },
        )
    }
}

/// Copy the bytes `s[i..k]`.
fn copy_range(s: &Vec<u8>, i: usize, k: usize) -> (r: Vec<u8>)
    requires
        i <= k <= s@.len(),
    ensures
        r@ == s@.subrange(i as int, k as int),
{
    let mut r: Vec<u8> = Vec::new();
    let mut j = i;
    while j < k
        invariant
            i <= j <= k <= s@.len(),
            r@ == s@.subrange(i as int, j as int),
        decreases k - j,
    {
        r.push(s[j]);
        proof {
            assert(s@.subrange(i as int, j + 1) =~= s@.subrange(i as int, j as int).push(
                s@[j as int],
            ));
        }
        j = j + 1;
    }
    r
}

/// The whitespace-separated tokens of the tail of `s` that starts at
/// `i`.
fn tokens_from(s: &Vec<u8>, i: usize) -> (r: Vec<Vec<u8>>)
    requires
        i <= s@.len(),
    ensures
        strs_view(r@) == ws_tokens(s@.skip(i as int)),
    decreases s@.len() - i,
{
    let ghost t = s@.skip(i as int);
    if i == s.len() {
        proof {
            assert(t =~= Seq::<u8>::empty());
            assert(strs_view(Seq::<Vec<u8>>::empty()) =~= Seq::<Seq<u8>>::empty());
        }
        return Vec::new();
    }
    if s[i] == 32 || s[i] == 9 || s[i] == 10 || s[i] == 13 {
        proof {
            assert(t[0] == s@[i as int]);
            assert(t.skip(1) =~= s@.skip(i + 1));
        }
        return tokens_from(s, i + 1);
    }
    // scan the token
    let mut k = i;
    while k < s.len() && !(s[k] == 32 || s[k] == 9 || s[k] == 10 || s[k] == 13)
        invariant
            i <= k <= s@.len(),
            forall|j: int| i <= j < k ==> !is_ws(#[trigger] s@[j]),
        decreases s@.len() - k,
    {
        k = k + 1;
    }
    proof {
        assert(t[0] == s@[i as int]);
        assert forall|j: int| 0 <= j < k - i implies !is_ws(#[trigger] t[j]) by {
            assert(t[j] == s@[i + j]);
        }
        if k < s@.len() {
            assert(t[k - i] == s@[k as int]);
        }
        lemma_tok_end_at(t, k - i);
        assert(t.take(k - i) =~= s@.subrange(i as int, k as int));
    }
    let tok = copy_range(s, i, k);
    let ghost tokg = tok@;
    if k == s.len() {
        proof {
            assert(t.take(k - i) =~= t);
        }
        let mut r: Vec<Vec<u8>> = Vec::new();
        r.push(tok);
        proof {
            assert(strs_view(r@) =~= seq![tokg]);
        }
        r
    } else {
        proof {
            assert(t.skip(k - i) =~= s@.skip(k as int));
        }
        let mut rest = tokens_from(s, k);
        let ghost restg = rest@;
        let mut r: Vec<Vec<u8>> = Vec::new();
        r.push(tok);
        r.append(&mut rest);
        proof {
            assert(r@.skip(1) =~= restg);
            assert(strs_view(r@) =~= seq![tokg] + strs_view(restg));
        }
        r
    }
}

fn is_prefix(t: &Vec<u8>) -> (r: bool)
    ensures
        r == is_prefix_tok(t@),
{
    let r = (t.len() == 1 && (t[0] == 33 || t[0] == 63 || t[0] == 126)) || (t.len() == 3 && t[0]
        == 40 && t[1] == 63 && t[2] == 41);
    proof {
        if r {
            if t@.len() == 1 {
                if t@[0] == 33 {
                    assert(t@ =~= seq![33u8]);
                } else if t@[0] == 63 {
                    assert(t@ =~= seq![63u8]);
                } else {
                    assert(t@ =~= seq![126u8]);
                }
            } else {
                assert(t@ =~= seq![40u8, 63u8, 41u8]);
            }
        } else {
            if t@ == seq![33u8] {
                assert(t@.len() == 1 && t@[0] == 33);
            }
            if t@ == seq![63u8] {
                assert(t@.len() == 1 && t@[0] == 63);
            }
            if t@ == seq![126u8] {
                assert(t@.len() == 1 && t@[0] == 126);
            }
            if t@ == seq![40u8, 63u8, 41u8] {
                assert(t@.len() == 3 && t@[0] == 40 && t@[1] == 63 && t@[2] == 41);
            }
        }
    }
    r
}

/// Parse one dependency string.
pub fn parse_dependency(s: &Vec<u8>) -> (r: Option<Dependency>)
    ensures
        match spec_parse_dependency(s@) {
            Some(d) => r matches Some(rd) && rd@ == d,
            None => r is None,
        },
{
    proof {
        assert(s@.skip(0) =~= s@);
    }
    let ts = tokens_from(s, 0);
    let ghost tv = ws_tokens(s@);
    if ts.len() == 0 {
        return None;
    }
    proof {
        assert(tv[0] == ts@[0]@);
    }
    if is_prefix(&ts[0]) {
        if ts.len() < 2 {
            return None;
        }
        proof {
            assert(tv[1] == ts@[1]@);
        }
        let op_version = if ts.len() >= 4 {
            proof {
                assert(tv[2] == ts@[2]@);
                assert(tv[3] == ts@[3]@);
            }
            Some((copy_bytes(&ts[2]), copy_bytes(&ts[3])))
        } else {
            None
        };
        Some(
            Dependency {
                prefix: Some(copy_bytes(&ts[0])),
                name: copy_bytes(&ts[1]),
                op_version,
            },
        )
    } else {
        let op_version = if ts.len() >= 3 {
            proof {
                assert(tv[1] == ts@[1]@);
                assert(tv[2] == ts@[2]@);
            }
            Some((copy_bytes(&ts[1]), copy_bytes(&ts[2])))
        } else {
            None
        };
        Some(Dependency { prefix: None, name: copy_bytes(&ts[0]), op_version })
    }
}

} // verus!
