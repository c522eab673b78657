//! Version vectors: the ordered integer components of a dotted-decimal
//! version string, such as `1.2.3`.
//!
//! A version string is split on `.`; every group that parses as an
//! unsigned integer — an optional leading `+`, then a non-empty run
//! of decimal digits whose value fits in a `u32` — contributes one
//! component, and every other group is dropped.  Joining a vector
//! puts the decimal rendering of each component back, separated by
//! dots.

use vstd::prelude::*;

verus! {

/// The byte value of `.`.
pub open spec fn dot() -> u8 {
    46
}

pub open spec fn is_digit(b: u8) -> bool {
    48 <= b <= 57
}

pub open spec fn all_digits(s: Seq<u8>) -> bool {
    forall|i: int| 0 <= i < s.len() ==> is_digit(#[trigger] s[i])
}

/// The numeric value of a digit string, most significant digit first.
pub open spec fn digits_val(s: Seq<u8>) -> nat
    decreases s.len(),
{
    if s.len() == 0 {
        0
    } else {
        digits_val(s.drop_last()) * 10 + (if is_digit(s.last()) {
            (s.last() - 48) as nat
        } else {
            0
        })
    }
}

/// The decimal rendering of `n`, most significant digit first.
pub open spec fn dec_of(n: nat) -> Seq<u8>
    decreases n,
{
    if n < 10 {
        seq![(48 + n) as u8]
    } else {
        dec_of(n / 10).push((48 + n % 10) as u8)
    }
}

pub proof fn lemma_dec_of(n: nat)
    ensures
        dec_of(n).len() >= 1,
        all_digits(dec_of(n)),
        digits_val(dec_of(n)) == n,
    decreases n,
{
    if n < 10 {
        let s = dec_of(n);
        assert(s =~= seq![(48 + n) as u8]);
        assert(s.drop_last() =~= Seq::<u8>::empty());
        assert(s.last() == (48 + n) as u8);
        assert(is_digit(s.last()));
        assert(digits_val(s) == digits_val(s.drop_last()) * 10 + (s.last() - 48) as nat);
        assert(digits_val(s.drop_last()) == 0);
        assert((s.last() - 48) as nat == n);
    } else {
        lemma_dec_of(n / 10);
        vstd::arithmetic::div_mod::lemma_fundamental_div_mod(n as int, 10);
        let s = dec_of(n);
        assert(s =~= dec_of(n / 10).push((48 + n % 10) as u8));
        assert(s.drop_last() =~= dec_of(n / 10));
        assert(s.last() == (48 + n % 10) as u8);
        assert(is_digit(s.last()));
        assert(digits_val(s) == digits_val(dec_of(n / 10)) * 10 + (s.last() - 48) as nat);
        assert((s.last() - 48) as nat == n % 10);
        assert(digits_val(s) == (n / 10) * 10 + n % 10);
    }
}

/// Index of the first `.` in `s`, or `s.len()` if there is none.
pub open spec fn find_dot(s: Seq<u8>) -> int
    decreases s.len(),
{
    if s.len() == 0 {
        0
    } else if s[0] == dot() {
        0
    } else {
        1 + find_dot(s.skip(1))
    }
}

pub proof fn lemma_find_dot(s: Seq<u8>)
    ensures
        0 <= find_dot(s) <= s.len(),
        find_dot(s) < s.len() ==> s[find_dot(s)] == dot(),
        forall|i: int| 0 <= i < find_dot(s) ==> #[trigger] s[i] != dot(),
    decreases s.len(),
{
    if s.len() == 0 || s[0] == dot() {
    } else {
        lemma_find_dot(s.skip(1));
        assert forall|i: int| 0 <= i < find_dot(s) implies #[trigger] s[i] != dot() by {
            if i > 0 {
                assert(s[i] == s.skip(1)[i - 1]);
            }
        }
    }
}

/// `find_dot` is the unique position `p` with no dot before it that is
/// either the end of `s` or a dot.
pub proof fn lemma_find_dot_at(s: Seq<u8>, p: int)
    requires
        0 <= p <= s.len(),
        forall|i: int| 0 <= i < p ==> #[trigger] s[i] != dot(),
        p < s.len() ==> s[p] == dot(),
    ensures
        find_dot(s) == p,
{
    lemma_find_dot(s);
    let k = find_dot(s);
    if k < p {
        assert(s[k] == dot());
        assert(s[k] != dot());
    }
    if p < k {
        assert(s[p] != dot());
    }
}

/// The groups of `s`, split on `.`; separators are dropped, every
/// group (possibly empty) is kept.
pub open spec fn dot_groups(s: Seq<u8>) -> Seq<Seq<u8>>
    decreases s.len(),
{
    let k = find_dot(s);
    if !(0 <= k < s.len()) {
        seq![s]
    } else {
        seq![s.take(k)] + dot_groups(s.skip(k + 1))
    }
}

/// The byte value of `+`.
pub open spec fn plus() -> u8 {
    43
}

/// The digits of a group, an optional leading `+` stripped — the
/// grammar of unsigned-integer parsing, which allows the plus sign
/// but no minus.
pub open spec fn group_digits(g: Seq<u8>) -> Seq<u8> {
    if g.len() > 0 && g[0] == plus() {
        g.skip(1)
    } else {
        g
    }
}

/// The component contributed by one group: its numeric value, if
/// after an optional leading `+` the group is a non-empty digit run
/// whose value fits in a `u32`.
pub open spec fn group_val(g: Seq<u8>) -> Option<u32> {
    let d = group_digits(g);
    if d.len() > 0 && all_digits(d) && digits_val(d) <= 0xffff_ffff {
        Some(digits_val(d) as u32)
    } else {
        None
    }
}

/// The components of a group sequence, parseable groups only, in order.
pub open spec fn vals_of(gs: Seq<Seq<u8>>) -> Seq<u32>
    decreases gs.len(),
{
    if gs.len() == 0 {
        Seq::empty()
    } else {
        match group_val(gs[0]) {
            Some(v) => seq![v] + vals_of(gs.skip(1)),
            None => vals_of(gs.skip(1)),
        }
    }
}

/// The version vector of a dotted-decimal string.
pub open spec fn spec_version_vector(s: Seq<u8>) -> Seq<u32> {
    vals_of(dot_groups(s))
}

/// The dotted-decimal rendering of a version vector.
pub open spec fn spec_join(v: Seq<u32>) -> Seq<u8>
    decreases v.len(),
{
    if v.len() == 0 {
        Seq::empty()
    } else if v.len() == 1 {
        dec_of(v[0] as nat)
    } else {
        dec_of(v[0] as nat) + seq![dot()] + spec_join(v.skip(1))
    }
}

/// Splitting a joined vector gives the vector back: parsing undoes
/// `spec_join` exactly, for every vector.
pub proof fn lemma_vv_join(v: Seq<u32>)
    ensures
        spec_version_vector(spec_join(v)) == v,
    decreases v.len(),
{
    let s = spec_join(v);
    if v.len() == 0 {
        assert(find_dot(s) == 0);
        assert(dot_groups(s) =~= seq![s]);
        assert(group_val(s) is None);
        assert(dot_groups(s).skip(1) =~= Seq::<Seq<u8>>::empty());
        assert(vals_of(Seq::<Seq<u8>>::empty()) =~= Seq::<u32>::empty());
        assert(vals_of(dot_groups(s)) =~= Seq::<u32>::empty());
    } else if v.len() == 1 {
        lemma_dec_of(v[0] as nat);
        lemma_find_dot_at(s, s.len() as int);
        assert(dot_groups(s) =~= seq![s]);
        assert(is_digit(s[0]));
        assert(group_digits(s) =~= s);
        assert(group_val(s) == Some(v[0]));
        assert(dot_groups(s).skip(1) =~= Seq::<Seq<u8>>::empty());
        assert(vals_of(Seq::<Seq<u8>>::empty()) =~= Seq::<u32>::empty());
        assert(vals_of(dot_groups(s)) =~= seq![v[0]]);
        assert(seq![v[0]] =~= v);
    } else {
        lemma_dec_of(v[0] as nat);
        let a = dec_of(v[0] as nat);
        let rest = spec_join(v.skip(1));
        assert(s =~= a + seq![dot()] + rest);
        assert forall|i: int| 0 <= i < a.len() implies #[trigger] s[i] != dot() by {
            assert(s[i] == a[i]);
        }
        lemma_find_dot_at(s, a.len() as int);
        assert(s.take(a.len() as int) =~= a);
        assert(s.skip(a.len() as int + 1) =~= rest);
        lemma_vv_join(v.skip(1));
        assert(is_digit(a[0]));
        assert(group_digits(a) =~= a);
        assert(group_val(a) == Some(v[0]));
        assert(dot_groups(s) =~= seq![a] + dot_groups(rest));
        assert(dot_groups(s).skip(1) =~= dot_groups(rest));
        assert(vals_of(dot_groups(s)) =~= seq![v[0]] + spec_version_vector(rest));
        assert(seq![v[0]] + v.skip(1) =~= v);
    }
}

/// When every dot-separated group of `s` parses, no component is
/// dropped: the vector lists every group's value, in order.
pub proof fn lemma_vals_of_all_valid(gs: Seq<Seq<u8>>)
    requires
        forall|j: int| 0 <= j < gs.len() ==> #[trigger] group_val(gs[j]) is Some,
    ensures
        vals_of(gs).len() == gs.len(),
        forall|j: int| 0 <= j < gs.len() ==> #[trigger] group_val(gs[j]) == Some(vals_of(gs)[j]),
    decreases gs.len(),
{
    if gs.len() > 0 {
        lemma_vals_of_all_valid(gs.skip(1));
        assert(group_val(gs[0]) is Some);
        assert forall|j: int| 0 <= j < gs.len() implies #[trigger] group_val(gs[j]) == Some(
            vals_of(gs)[j],
        ) by {
            if j > 0 {
                assert(gs[j] == gs.skip(1)[j - 1]);
                assert(group_val(gs.skip(1)[j - 1]) == Some(vals_of(gs.skip(1))[j - 1]));
            }
        }
    }
}

/// First index `k` at or after `i` where `s` holds a dot, or `s.len()`.
fn find_dot_from(s: &Vec<u8>, i: usize) -> (k: usize)
    requires
        i <= s@.len(),
    ensures
        i <= k <= s@.len(),
        k - i == find_dot(s@.skip(i as int)),
        k < s@.len() ==> s@[k as int] == dot(),
{
    let mut k = i;
    while k < s.len() && s[k] != 46
        invariant
            i <= k <= s@.len(),
            forall|j: int| i <= j < k ==> #[trigger] s@[j] != dot(),
        decreases s@.len() - k,
    {
        k = k + 1;
    }
    proof {
        let t = s@.skip(i as int);
        assert forall|j: int| 0 <= j < k - i implies #[trigger] t[j] != dot() by {
            assert(t[j] == s@[i + j]);
        }
        if k < s@.len() {
            assert(t[k - i] == s@[k as int]);
        }
        lemma_find_dot_at(t, k - i);
    }
    k
}

/// Parse the group `s[i..k]` as one version component.
fn parse_group(s: &Vec<u8>, i: usize, k: usize) -> (r: Option<u32>)
    requires
        i <= k <= s@.len(),
    ensures
        r == group_val(s@.subrange(i as int, k as int)),
{
    let ghost g = s@.subrange(i as int, k as int);
    if i == k {
        return None;
    }
    let start = if s[i] == 43 {
        i + 1
    } else {
        i
    };
    proof {
        assert(g[0] == s@[i as int]);
        if s@[i as int] == 43 {
            assert(g.skip(1) =~= s@.subrange(i + 1, k as int));
        }
        assert(group_digits(g) =~= s@.subrange(start as int, k as int));
    }
    if start == k {
        return None;
    }
    let ghost d0 = s@.subrange(start as int, k as int);
    let mut acc: u64 = 0;
    let mut over = false;
    let mut j = start;
    while j < k
        invariant
            i <= start <= j <= k <= s@.len(),
            g == s@.subrange(i as int, k as int),
            group_digits(g) == d0,
            d0 == s@.subrange(start as int, k as int),
            all_digits(s@.subrange(start as int, j as int)),
            !over ==> acc == digits_val(s@.subrange(start as int, j as int)) && acc
                <= 0xffff_ffff,
            over ==> digits_val(s@.subrange(start as int, j as int)) > 0xffff_ffff,
        decreases k - j,
    {
        let b = s[j];
        if b < 48 || b > 57 {
            proof {
                assert(d0[j - start] == s@[j as int]);
                assert(!all_digits(d0));
            }
            return None;
        }
        let d = (b - 48) as u64;
        proof {
            let p = s@.subrange(start as int, j as int);
            let q = s@.subrange(start as int, j + 1);
            assert(q.drop_last() =~= p);
            assert(q.last() == s@[j as int]);
            assert(digits_val(q) == digits_val(p) * 10 + (b - 48) as nat);
            assert forall|m: int| 0 <= m < q.len() implies is_digit(#[trigger] q[m]) by {
                if m < j - start {
                    assert(q[m] == p[m]);
                }
            }
        }
        if !over {
            let next = acc * 10 + d;
            if next > 0xffff_ffff {
                over = true;
            } else {
                acc = next;
            }
        }
        j = j + 1;
    }
    proof {
        assert(d0 =~= s@.subrange(start as int, j as int));
        assert(d0.len() > 0);
    }
    if over {
        None
    } else {
        Some(acc as u32)
    }
}

/// The version vector of the tail of `s` that starts at `i`.
fn vv_from(s: &Vec<u8>, i: usize) -> (r: Vec<u32>)
    requires
        i <= s@.len(),
    ensures
        r@ == spec_version_vector(s@.skip(i as int)),
    decreases s@.len() - i,
{
    let k = find_dot_from(s, i);
    let g = parse_group(s, i, k);
    let ghost t = s@.skip(i as int);
    proof {
        assert(t.take(k - i) =~= s@.subrange(i as int, k as int));
    }
    if k == s.len() {
        proof {
            assert(t =~= s@.subrange(i as int, k as int));
            assert(dot_groups(t) =~= seq![t]);
            assert(dot_groups(t).skip(1) =~= Seq::<Seq<u8>>::empty());
            assert(vals_of(Seq::<Seq<u8>>::empty()) =~= Seq::<u32>::empty());
        }
        let mut r: Vec<u32> = Vec::new();
        match g {
            Some(c) => {
                r.push(c);
                proof {
                    assert(vals_of(dot_groups(t)) =~= seq![c]);
                }
            },
            None => {
                proof {
                    assert(vals_of(dot_groups(t)) =~= Seq::<u32>::empty());
                }
            },
        }
        r
    } else {
        let mut rest = vv_from(s, k + 1);
        proof {
            assert(t.skip(k - i + 1) =~= s@.skip(k + 1));
            assert(0 <= find_dot(t) < t.len());
            assert(dot_groups(t) =~= seq![t.take(k - i)] + dot_groups(t.skip(k - i + 1)));
            assert(dot_groups(t)[0] == t.take(k - i));
            assert(dot_groups(t).skip(1) =~= dot_groups(t.skip(k - i + 1)));
        }
        match g {
            Some(c) => {
                let mut r: Vec<u32> = Vec::new();
                r.push(c);
                r.append(&mut rest);
                proof {
                    assert(r@ =~= seq![c] + spec_version_vector(s@.skip(k + 1)));
                }
                r
            },
            None => rest,
        }
    }
}

/// The version vector of `s`: the value of each dot-separated group
/// that parses as an unsigned integer (an optional `+`, then
/// digits), in order; other groups are dropped.
pub fn version_vector(s: &Vec<u8>) -> (r: Vec<u32>)
    ensures
        r@ == spec_version_vector(s@),
{
    proof {
        assert(s@.skip(0) =~= s@);
    }
    vv_from(s, 0)
}

/// Append the decimal rendering of `n`.
fn push_dec(out: &mut Vec<u8>, n: u32)
    ensures
        final(out)@ == old(out)@ + dec_of(n as nat),
    decreases n,
{
    if n < 10 {
        out.push((48 + n) as u8);
        proof {
            assert(out@ =~= old(out)@ + dec_of(n as nat));
        }
    } else {
        push_dec(out, n / 10);
        out.push(48 + (n % 10) as u8);
        proof {
            assert(out@ =~= old(out)@ + dec_of(n as nat));
        }
    }
}

/// The join of the tail of `v` that starts at `i`.
fn join_from(v: &Vec<u32>, i: usize) -> (r: Vec<u8>)
    requires
        i <= v@.len(),
    ensures
        r@ == spec_join(v@.skip(i as int)),
    decreases v@.len() - i,
{
    let ghost t = v@.skip(i as int);
    if i == v.len() {
        proof {
            assert(t =~= Seq::<u32>::empty());
        }
        Vec::new()
    } else {
        let mut out: Vec<u8> = Vec::new();
        push_dec(&mut out, v[i]);
        proof {
            assert(t[0] == v@[i as int]);
        }
        if i + 1 < v.len() {
            out.push(46);
            let mut rest = join_from(v, i + 1);
            out.append(&mut rest);
            proof {
                assert(t.skip(1) =~= v@.skip(i + 1));
                assert(out@ =~= dec_of(v@[i as int] as nat) + seq![dot()] + spec_join(
                    v@.skip(i + 1),
                ));
            }
        } else {
            proof {
                assert(t.len() == 1);
                assert(out@ =~= dec_of(t[0] as nat));
            }
        }
        out
    }
}

/// The dotted-decimal rendering of a version vector.
pub fn join_version(v: &Vec<u32>) -> (r: Vec<u8>)
    ensures
        r@ == spec_join(v@),
{
    proof {
        assert(v@.skip(0) =~= v@);
    }
    join_from(v, 0)
}

} // verus!
