//! The manifest update engine: load `info.json` bytes, apply one
//! version mutation, and render the manifest back.

use vstd::prelude::*;
use crate::manifest::{
    Manifest, ManifestValue, MVal, UpdateError, entries_view, spec_load, spec_format,
    version_key, parse_manifest, format_manifest,
};
use crate::version::{
    spec_version_vector, spec_join, version_vector, join_version,
};

verus! {

/// The mutation a run of `update` applies to the version.
#[derive(Debug)]
pub enum Mutation {
    /// Rewrite only: parse and reformat, normalizing the version.
    Normalize,
    /// Increment the first component.
    BumpMajor,
    /// Increment the second component.
    BumpMiddle,
    /// Increment the third component.
    BumpMinor,
    /// Replace the version with the parsed argument.
    SetVersion(Vec<u8>),
}

/// The mathematical shape of a mutation.
pub enum MutationV {
    Normalize,
    BumpMajor,
    BumpMiddle,
    BumpMinor,
    SetVersion(Seq<u8>),
}

impl View for Mutation {
    type V = MutationV;

    open spec fn view(&self) -> MutationV {
        match self {
            Mutation::Normalize => MutationV::Normalize,
            Mutation::BumpMajor => MutationV::BumpMajor,
            Mutation::BumpMiddle => MutationV::BumpMiddle,
            Mutation::BumpMinor => MutationV::BumpMinor,
            Mutation::SetVersion(a) => MutationV::SetVersion(a@),
        }
    }
}

/// Apply a mutation to a version vector.  A bump needs its component
/// to exist and not to overflow; it never extends the vector and
/// leaves every other component unchanged.
pub open spec fn spec_mutate_vector(v: Seq<u32>, mu: MutationV) -> Option<Seq<u32>> {
    match mu {
        MutationV::Normalize => Some(v),
        MutationV::BumpMajor => if v.len() >= 1 && v[0] < 0xffff_ffffu32 {
            Some(v.update(0, (v[0] + 1) as u32))
        } else {
            None
        },
        MutationV::BumpMiddle => if v.len() >= 2 && v[1] < 0xffff_ffffu32 {
            Some(v.update(1, (v[1] + 1) as u32))
        } else {
            None
        },
        MutationV::BumpMinor => if v.len() >= 3 && v[2] < 0xffff_ffffu32 {
            Some(v.update(2, (v[2] + 1) as u32))
        } else {
            None
        },
        MutationV::SetVersion(arg) => Some(spec_version_vector(arg)),
    }
}

/// At most the first three components.
pub open spec fn trunc3(v: Seq<u32>) -> Seq<u32> {
    if v.len() <= 3 {
        v
    } else {
        v.take(3)
    }
}

/// The new raw version string: decode the string content the raw
/// bytes denote, parse, mutate, truncate to three components, join.
/// A `set-version` argument comes from the command line, not from a
/// JSON document, and is parsed as given.
pub open spec fn spec_new_version(raw: Seq<u8>, mu: MutationV) -> Option<Seq<u8>> {
    match spec_mutate_vector(spec_version_vector(crate::json::sp_unescape(raw)), mu) {
        None => None,
        Some(w) => Some(spec_join(trunc3(w))),
    }
}

/// Rewrite every `version` entry; other entries pass through
/// unchanged, in order.
pub open spec fn spec_apply_entries(m: Seq<(Seq<u8>, MVal)>, mu: MutationV) -> Option<
    Seq<(Seq<u8>, MVal)>,
>
    decreases m.len(),
{
    if m.len() == 0 {
        Some(Seq::empty())
    } else {
        let head = if m[0].0 == version_key() {
            match m[0].1 {
                MVal::Str(raw) => match spec_new_version(raw, mu) {
                    Some(nr) => Some((m[0].0, MVal::Str(nr))),
                    None => None,
                },
                MVal::StrArr(_) => None,
            }
        } else {
            Some(m[0])
        };
        match head {
            None => None,
            Some(h) => match spec_apply_entries(m.skip(1), mu) {
                Some(rest) => Some(seq![h] + rest),
                None => None,
            },
        }
    }
}

/// Does the manifest hold a `version` entry at all?
pub open spec fn has_version(m: Seq<(Seq<u8>, MVal)>) -> bool {
    exists|i: int| 0 <= i < m.len() && #[trigger] m[i].0 == version_key()
}

/// Apply a mutation to a whole manifest.  A manifest without a
/// `version` entry cannot be updated.
pub open spec fn spec_apply(m: Seq<(Seq<u8>, MVal)>, mu: MutationV) -> Option<
    Seq<(Seq<u8>, MVal)>,
> {
    if !has_version(m) {
        None
    } else {
        spec_apply_entries(m, mu)
    }
}

/// The whole engine on document bytes: load, mutate, format.  An
/// error leaves no output to write.
pub open spec fn spec_update(s: Seq<u8>, mu: MutationV) -> Result<Seq<u8>, UpdateError> {
    match spec_load(s) {
        Err(e) => Err(e),
        Ok(m) => match spec_apply(m, mu) {
            None => Err(UpdateError::SchemaViolation),
            Some(m2) => Ok(spec_format(m2)),
        },
    }
}

/// Copy a byte vector.
pub(crate) fn copy_bytes(v: &Vec<u8>) -> (r: Vec<u8>)
    ensures
        r@ == v@,
{
    let mut r: Vec<u8> = Vec::new();
    let mut i: usize = 0;
    while i < v.len()
        invariant
            i <= v@.len(),
            r@ == v@.take(i as int),
        decreases v@.len() - i,
    {
        r.push(v[i]);
        proof {
            assert(v@.take(i + 1) =~= v@.take(i as int).push(v@[i as int]));
        }
        i = i + 1;
    }
    proof {
        assert(v@.take(v@.len() as int) =~= v@);
    }
    r
}

fn copy_strs(v: &Vec<Vec<u8>>) -> (r: Vec<Vec<u8>>)
    ensures
        r@.len() == v@.len(),
        forall|i: int| 0 <= i < v@.len() ==> #[trigger] r@[i]@ == v@[i]@,
{
    let mut r: Vec<Vec<u8>> = Vec::new();
    let mut i: usize = 0;
    while i < v.len()
        invariant
            i <= v@.len(),
            r@.len() == i,
            forall|j: int| 0 <= j < i ==> #[trigger] r@[j]@ == v@[j]@,
        decreases v@.len() - i,
    {
        let c = copy_bytes(&v[i]);
        r.push(c);
        i = i + 1;
    }
    r
}

/// Apply a mutation to a version vector.
pub fn mutate_vector(v: &Vec<u32>, mu: &Mutation) -> (r: Option<Vec<u32>>)
    ensures
        match spec_mutate_vector(v@, mu@) {
            Some(w) => r matches Some(rv) && rv@ == w,
            None => r is None,
        },
{
    match mu {
        Mutation::Normalize => {
            let mut w: Vec<u32> = Vec::new();
            let mut i: usize = 0;
            while i < v.len()
                invariant
                    i <= v@.len(),
                    w@ == v@.take(i as int),
                decreases v@.len() - i,
            {
                w.push(v[i]);
                proof {
                    assert(v@.take(i + 1) =~= v@.take(i as int).push(v@[i as int]));
                }
                i = i + 1;
            }
            proof {
                assert(v@.take(v@.len() as int) =~= v@);
            }
            Some(w)
        },
        Mutation::BumpMajor => bump_at(v, 0),
        Mutation::BumpMiddle => bump_at(v, 1),
        Mutation::BumpMinor => bump_at(v, 2),
        Mutation::SetVersion(arg) => Some(version_vector(arg)),
    }
}

/// Increment component `idx`, if it exists and does not overflow.
fn bump_at(v: &Vec<u32>, idx: usize) -> (r: Option<Vec<u32>>)
    requires
        idx < 3,
    ensures
        match r {
            Some(rv) => v@.len() > idx && v@[idx as int] < 0xffff_ffffu32 && rv@ == v@.update(
                idx as int,
                (v@[idx as int] + 1) as u32,
            ),
            None => v@.len() <= idx || v@[idx as int] == 0xffff_ffffu32,
        },
{
    if idx < v.len() && v[idx] < 0xffff_ffff {
        let mut w: Vec<u32> = Vec::new();
        let mut i: usize = 0;
        while i < v.len()
            invariant
                i <= v@.len(),
                idx < v@.len(),
                v@[idx as int] < 0xffff_ffffu32,
                w@ == v@.update(idx as int, (v@[idx as int] + 1) as u32).take(i as int),
            decreases v@.len() - i,
        {
            let ghost tgt = v@.update(idx as int, (v@[idx as int] + 1) as u32);
            if i == idx {
                w.push(v[i] + 1);
            } else {
                w.push(v[i]);
            }
            proof {
                assert(tgt.take(i + 1) =~= tgt.take(i as int).push(tgt[i as int]));
            }
            i = i + 1;
        }
        proof {
            let tgt = v@.update(idx as int, (v@[idx as int] + 1) as u32);
            assert(tgt.take(tgt.len() as int) =~= tgt);
        }
        Some(w)
    } else {
        None
    }
}

/// The new raw version string for `raw` under `mu`.
pub fn new_version(raw: &Vec<u8>, mu: &Mutation) -> (r: Option<Vec<u8>>)
    ensures
        match spec_new_version(raw@, mu@) {
            Some(nr) => r matches Some(rv) && rv@ == nr,
            None => r is None,
        },
{
    let decoded = crate::json::unescape_content(raw);
    let v = version_vector(&decoded);
    match mutate_vector(&v, mu) {
        None => None,
        Some(mut w) => {
            if w.len() > 3 {
                let mut t: Vec<u32> = Vec::new();
                t.push(w[0]);
                t.push(w[1]);
                t.push(w[2]);
                proof {
                    assert(t@ =~= w@.take(3));
                }
                w = t;
            }
            Some(join_version(&w))
        },
    }
}

fn is_version_key(k: &Vec<u8>) -> (r: bool)
    ensures
        r == (k@ == version_key()),
{
    if k.len() != 7 {
        proof {
            assert(version_key().len() == 7);
        }
        return false;
    }
    let r = k[0] == 118 && k[1] == 101 && k[2] == 114 && k[3] == 115 && k[4] == 105 && k[5] == 111
        && k[6] == 110;
    proof {
        if r {
            assert(k@ =~= version_key());
        } else {
            if k@ == version_key() {
                assert(k@[0] == 118 && k@[1] == 101 && k@[2] == 114 && k@[3] == 115 && k@[4] == 105
                    && k@[5] == 111 && k@[6] == 110);
            }
        }
    }
    r
}

/// Rewrite the entries from index `k` on.
fn apply_entries_from(es: &Vec<(Vec<u8>, ManifestValue)>, k: usize, mu: &Mutation) -> (r: Option<
    Vec<(Vec<u8>, ManifestValue)>,
>)
    requires
        k <= es@.len(),
    ensures
        match spec_apply_entries(entries_view(es@).skip(k as int), mu@) {
            Some(m2) => r matches Some(v) && entries_view(v@) == m2,
            None => r is None,
        },
    decreases es@.len() - k,
{
    let ghost t = entries_view(es@).skip(k as int);
    if k == es.len() {
        proof {
            assert(t =~= Seq::<(Seq<u8>, MVal)>::empty());
            assert(entries_view(Seq::<(Vec<u8>, ManifestValue)>::empty())
                =~= Seq::<(Seq<u8>, MVal)>::empty());
        }
        Some(Vec::new())
    } else {
        proof {
            assert(t[0] == (es@[k as int].0@, es@[k as int].1@));
            assert(t.skip(1) =~= entries_view(es@).skip(k + 1));
        }
        let pair = &es[k];
        let key = copy_bytes(&pair.0);
        let head: ManifestValue;
        if is_version_key(&key) {
            match &pair.1 {
                ManifestValue::Str(raw) => {
                    match new_version(raw, mu) {
                        Some(nr) => {
                            head = ManifestValue::Str(nr);
                        },
                        None => {
                            return None;
                        },
                    }
                },
                ManifestValue::StrArr(_) => {
                    return None;
                },
            }
        } else {
            match &pair.1 {
                ManifestValue::Str(c) => {
                    head = ManifestValue::Str(copy_bytes(c));
                },
                ManifestValue::StrArr(cs) => {
                    let copied = copy_strs(cs);
                    proof {
                        assert(crate::manifest::strs_view(copied@) =~= crate::manifest::strs_view(
                            cs@,
                        ));
                    }
                    head = ManifestValue::StrArr(copied);
                },
            }
        }
        match apply_entries_from(es, k + 1, mu) {
            None => None,
            Some(mut rest) => {
                let ghost kg = key@;
                let ghost hg = head@;
                let ghost restg = rest@;
                let mut out: Vec<(Vec<u8>, ManifestValue)> = Vec::new();
                out.push((key, head));
                out.append(&mut rest);
                proof {
                    assert(out@.skip(1) =~= restg);
                    assert(entries_view(out@) =~= seq![(kg, hg)] + entries_view(restg));
                }
                Some(out)
            },
        }
    }
}

/// Does the manifest hold a `version` entry?
pub fn manifest_has_version(m: &Manifest) -> (r: bool)
    ensures
        r == has_version(m@),
{
    let mut i: usize = 0;
    while i < m.entries.len()
        invariant
            i <= m.entries@.len(),
            forall|j: int| 0 <= j < i ==> #[trigger] m@[j].0 != version_key(),
        decreases m.entries@.len() - i,
    {
        if is_version_key(&m.entries[i].0) {
            proof {
                assert(m@[i as int].0 == m.entries@[i as int].0@);
            }
            return true;
        }
        proof {
            assert(m@[i as int].0 == m.entries@[i as int].0@);
        }
        i = i + 1;
    }
    false
}

/// Apply a mutation to a parsed manifest.
pub fn apply_mutation(m: &Manifest, mu: &Mutation) -> (r: Option<Manifest>)
    ensures
        match spec_apply(m@, mu@) {
            Some(m2) => r matches Some(v) && v@ == m2,
            None => r is None,
        },
{
    if !manifest_has_version(m) {
        return None;
    }
    proof {
        assert(entries_view(m.entries@).skip(0) =~= m@);
    }
    match apply_entries_from(&m.entries, 0, mu) {
        None => None,
        Some(v) => Some(Manifest { entries: v }),
    }
}

/// The update engine on document bytes: parse `input`, apply `mu` to
/// its version, and render the result.  On any error the input is
/// rejected whole: there is no output to write, so the document on
/// disk stays as it was.
pub fn update_manifest(input: &Vec<u8>, mu: &Mutation) -> (r: Result<Vec<u8>, UpdateError>)
    ensures
        match spec_update(input@, mu@) {
            Ok(out) => r matches Ok(b) && b@ == out,
            Err(e) => r matches Err(e2) && e2 == e,
        },
{
    match parse_manifest(input) {
        Err(e) => Err(e),
        Ok(m) => match apply_mutation(&m, mu) {
            None => Err(UpdateError::SchemaViolation),
            Some(m2) => Ok(format_manifest(&m2)),
        },
    }
}

/// What a mutation makes of one manifest value.
pub open spec fn new_mval(v: MVal, mu: MutationV) -> Option<MVal> {
    match v {
        MVal::Str(raw) => match spec_new_version(raw, mu) {
            Some(nr) => Some(MVal::Str(nr)),
            None => None,
        },
        MVal::StrArr(_) => None,
    }
}

/// Applying a mutation keeps every key in place and touches nothing
/// but the `version` entries, which it rewrites as `new_mval` says.
pub proof fn lemma_apply_entries_shape(m: Seq<(Seq<u8>, MVal)>, mu: MutationV)
    ensures
        spec_apply_entries(m, mu) matches Some(m2) ==> {
            &&& m2.len() == m.len()
            &&& forall|i: int| 0 <= i < m.len() ==> #[trigger] m2[i].0 == m[i].0
            &&& forall|i: int|
                0 <= i < m.len() && m[i].0 == version_key() ==> new_mval(#[trigger] m[i].1, mu)
                    == Some(m2[i].1)
            &&& forall|i: int|
                0 <= i < m.len() && m[i].0 != version_key() ==> #[trigger] m2[i].1 == m[i].1
        },
    decreases m.len(),
{
    if m.len() > 0 {
        lemma_apply_entries_shape(m.skip(1), mu);
        if let Some(m2) = spec_apply_entries(m, mu) {
            let rest = spec_apply_entries(m.skip(1), mu)->Some_0;
            assert forall|i: int| 0 <= i < m.len() implies #[trigger] m2[i].0 == m[i].0 by {
                if i > 0 {
                    assert(m2[i] == rest[i - 1]);
                    assert(m.skip(1)[i - 1] == m[i]);
                }
            }
            assert forall|i: int|
                0 <= i < m.len() && m[i].0 == version_key() implies new_mval(
                #[trigger] m[i].1,
                mu,
            ) == Some(m2[i].1) by {
                if i > 0 {
                    assert(m2[i] == rest[i - 1]);
                    assert(m.skip(1)[i - 1] == m[i]);
                }
            }
            assert forall|i: int|
                0 <= i < m.len() && m[i].0 != version_key() implies #[trigger] m2[i].1
                == m[i].1 by {
                if i > 0 {
                    assert(m2[i] == rest[i - 1]);
                    assert(m.skip(1)[i - 1] == m[i]);
                }
            }
        }
    }
}

/// A version string in normal form: at most three components, and
/// re-joining what it parses to gives it back unchanged.
pub open spec fn normalized_version(raw: Seq<u8>) -> bool {
    spec_version_vector(raw).len() <= 3 && spec_join(spec_version_vector(raw)) == raw
}

/// Whatever the engine writes into `version` is in normal form.
pub proof fn lemma_new_version_normalized(raw: Seq<u8>, mu: MutationV)
    ensures
        spec_new_version(raw, mu) matches Some(nr) ==> normalized_version(nr),
{
    if let Some(w) = spec_mutate_vector(
        spec_version_vector(crate::json::sp_unescape(raw)),
        mu,
    ) {
        crate::version::lemma_vv_join(trunc3(w));
    }
}

/// A normalizing rewrite leaves a normal-form version unchanged: a
/// joined vector holds only digits and dots, so decoding it is the
/// identity and re-parsing gives the vector back.
pub proof fn lemma_normalize_version_noop(raw: Seq<u8>)
    requires
        normalized_version(raw),
    ensures
        spec_new_version(raw, MutationV::Normalize) == Some(raw),
{
    lemma_join_bytes(spec_version_vector(raw));
    assert forall|q: int| 0 <= q < raw.len() implies #[trigger] raw[q]
        != crate::json::backslash() by {
        assert(raw[q] == spec_join(spec_version_vector(raw))[q]);
    }
    crate::json::lemma_unescape_plain(raw);
}

/// Is this entry left fixed by a normalizing rewrite?
pub open spec fn entry_normalized(e: (Seq<u8>, MVal)) -> bool {
    e.0 == version_key() ==> match e.1 {
        MVal::Str(raw) => normalized_version(raw),
        MVal::StrArr(_) => false,
    }
}

/// A normalizing rewrite fixes a manifest whose version entries are
/// already in normal form.
pub proof fn lemma_apply_normalize_noop(m: Seq<(Seq<u8>, MVal)>)
    requires
        forall|i: int| 0 <= i < m.len() ==> entry_normalized(#[trigger] m[i]),
    ensures
        spec_apply_entries(m, MutationV::Normalize) == Some(m),
    decreases m.len(),
{
    if m.len() == 0 {
        assert(Seq::<(Seq<u8>, MVal)>::empty() =~= m);
    } else {
        assert(entry_normalized(m[0]));
        if m[0].0 == version_key() {
            if let MVal::Str(raw) = m[0].1 {
                lemma_normalize_version_noop(raw);
            }
        }
        assert forall|i: int| 0 <= i < m.skip(1).len() implies entry_normalized(
            #[trigger] m.skip(1)[i],
        ) by {
            assert(m.skip(1)[i] == m[i + 1]);
        }
        lemma_apply_normalize_noop(m.skip(1));
        assert(seq![(m[0].0, m[0].1)] + m.skip(1) =~= m);
    }
}

/// Every byte that `spec_join` writes is a digit or a dot.
proof fn lemma_join_bytes(v: Seq<u32>)
    ensures
        forall|q: int|
            0 <= q < spec_join(v).len() ==> crate::version::is_digit(#[trigger] spec_join(v)[q])
                || spec_join(v)[q] == crate::version::dot(),
    decreases v.len(),
{
    let s = spec_join(v);
    if v.len() == 0 {
    } else if v.len() == 1 {
        crate::version::lemma_dec_of(v[0] as nat);
    } else {
        crate::version::lemma_dec_of(v[0] as nat);
        lemma_join_bytes(v.skip(1));
        let a = crate::version::dec_of(v[0] as nat);
        let rest = spec_join(v.skip(1));
        assert forall|q: int| 0 <= q < s.len() implies crate::version::is_digit(#[trigger] s[q])
            || s[q] == crate::version::dot() by {
            if q < a.len() {
                assert(s[q] == a[q]);
            } else if q == a.len() {
                assert(s[q] == crate::version::dot());
            } else {
                assert(s[q] == rest[q - a.len() - 1]);
            }
        }
    }
}

/// A joined version vector is well-formed string content.
proof fn lemma_wf_join(v: Seq<u32>)
    ensures
        crate::json::wf_str(spec_join(v)),
{
    lemma_join_bytes(v);
    crate::json::lemma_wf_str_plain(spec_join(v));
}

/// Updating is idempotent: running the engine again on its own
/// output, with no mutation asked for, reproduces that output byte
/// for byte.
pub proof fn lemma_update_idempotent(s: Seq<u8>, mu: MutationV, out: Seq<u8>)
    requires
        spec_update(s, mu) == Ok::<Seq<u8>, UpdateError>(out),
    ensures
        spec_update(out, MutationV::Normalize) == Ok::<Seq<u8>, UpdateError>(out),
{
    let m = spec_load(s)->Ok_0;
    crate::manifest::lemma_load_wf(s);
    let m2 = spec_apply(m, mu)->Some_0;
    lemma_apply_entries_shape(m, mu);
    assert(version_key().len() == 7 && crate::manifest::deps_key().len() == 12);
    assert forall|i: int| 0 <= i < m2.len() implies crate::json::wf_str(#[trigger] m2[i].0)
        && crate::manifest::wf_mval(m2[i].0, m2[i].1) by {
        assert(crate::json::wf_str(m[i].0) && crate::manifest::wf_mval(m[i].0, m[i].1));
        if m[i].0 == version_key() {
            if let MVal::Str(raw) = m[i].1 {
                if let Some(nr) = spec_new_version(raw, mu) {
                    if let Some(w) = spec_mutate_vector(
                        spec_version_vector(crate::json::sp_unescape(raw)),
                        mu,
                    ) {
                        lemma_wf_join(trunc3(w));
                    }
                }
            }
        }
    }
    assert(crate::manifest::wf_manifest(m2));
    crate::manifest::lemma_load_format(m2);
    assert(spec_load(out) == Ok::<Seq<(Seq<u8>, MVal)>, UpdateError>(m2));
    let wit = choose|i: int| 0 <= i < m.len() && #[trigger] m[i].0 == version_key();
    assert(m2[wit].0 == version_key());
    assert(has_version(m2));
    assert forall|i: int| 0 <= i < m2.len() implies entry_normalized(#[trigger] m2[i]) by {
        if m2[i].0 == version_key() {
            assert(m[i].0 == version_key());
            if let MVal::Str(raw) = m[i].1 {
                lemma_new_version_normalized(raw, mu);
            }
        }
    }
    lemma_apply_normalize_noop(m2);
}

/// A bump changes exactly its own component, adding one to it, and
/// neither adds nor drops components.
pub proof fn lemma_bump_components(v: Seq<u32>)
    ensures
        spec_mutate_vector(v, MutationV::BumpMajor) matches Some(w) ==> w.len() == v.len() && w[0]
            == v[0] + 1 && forall|j: int| 1 <= j < v.len() ==> #[trigger] w[j] == v[j],
        spec_mutate_vector(v, MutationV::BumpMiddle) matches Some(w) ==> w.len() == v.len() && w[1]
            == v[1] + 1 && forall|j: int|
            0 <= j < v.len() && j != 1 ==> #[trigger] w[j] == v[j],
        spec_mutate_vector(v, MutationV::BumpMinor) matches Some(w) ==> w.len() == v.len() && w[2]
            == v[2] + 1 && forall|j: int|
            0 <= j < v.len() && j != 2 ==> #[trigger] w[j] == v[j],
{
}

/// Mutating a manifest whose version has exactly three parseable
/// components leaves exactly three, for every mutation that does not
/// itself supply fewer (a `set-version` with at least three groups
/// keeps three; one with fewer is taken verbatim and is excluded
/// here).
pub proof fn lemma_update_three_components(m: Seq<(Seq<u8>, MVal)>, mu: MutationV)
    requires
        forall|i: int|
            0 <= i < m.len() && #[trigger] m[i].0 == version_key() ==> match m[i].1 {
                MVal::Str(raw) => spec_version_vector(crate::json::sp_unescape(raw)).len() == 3,
                MVal::StrArr(_) => false,
            },
        mu matches MutationV::SetVersion(a) ==> spec_version_vector(a).len() >= 3,
    ensures
        spec_apply_entries(m, mu) matches Some(m2) ==> forall|i: int|
            0 <= i < m2.len() && #[trigger] m2[i].0 == version_key() ==> match m2[i].1 {
                MVal::Str(nr) => spec_version_vector(nr).len() == 3,
                MVal::StrArr(_) => false,
            },
    decreases m.len(),
{
    lemma_apply_entries_shape(m, mu);
    if let Some(m2) = spec_apply_entries(m, mu) {
        assert forall|i: int|
            0 <= i < m2.len() && #[trigger] m2[i].0 == version_key() implies match m2[i].1 {
            MVal::Str(nr) => spec_version_vector(nr).len() == 3,
            MVal::StrArr(_) => false,
        } by {
            assert(m[i].0 == version_key());
            if let MVal::Str(raw) = m[i].1 {
                let v = spec_version_vector(crate::json::sp_unescape(raw));
                if let Some(w) = spec_mutate_vector(v, mu) {
                    crate::version::lemma_vv_join(trunc3(w));
                    assert(trunc3(w).len() == 3);
                }
            }
        }
    }
}

/// `set-version` with an argument made of parseable digit groups
/// stores exactly the first three groups: every group parses, none
/// is dropped, and reading the stored version back yields those
/// three components.
pub proof fn lemma_set_version_groups(raw: Seq<u8>, arg: Seq<u8>)
    requires
        forall|j: int|
            0 <= j < crate::version::dot_groups(arg).len() ==> crate::version::group_val(
                #[trigger] crate::version::dot_groups(arg)[j],
            ) is Some,
    ensures
        spec_version_vector(arg).len() == crate::version::dot_groups(arg).len(),
        forall|j: int|
            0 <= j < spec_version_vector(arg).len() ==> crate::version::group_val(
                #[trigger] crate::version::dot_groups(arg)[j],
            ) == Some(spec_version_vector(arg)[j]),
        spec_new_version(raw, MutationV::SetVersion(arg)) == Some(
            spec_join(trunc3(spec_version_vector(arg))),
        ),
        spec_version_vector(spec_join(trunc3(spec_version_vector(arg)))) == trunc3(
            spec_version_vector(arg),
        ),
{
    crate::version::lemma_vals_of_all_valid(crate::version::dot_groups(arg));
    crate::version::lemma_vv_join(trunc3(spec_version_vector(arg)));
}

} // verus!
