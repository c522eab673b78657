//! The mod manifest: an ordered sequence of `info.json` entries.
//!
//! A manifest keeps its keys in document order.  Every value must be
//! a string, except `dependencies`, which must be an array of
//! strings; any other shape is a schema violation.  String content is
//! raw, exactly as it stood between the quotes of the document.

use vstd::prelude::*;
use crate::json::{
    JsonV, quote, sp_json, sp_value, sp_ws, sp_members, sp_members_first, sp_str_body, top_fuel,
    scan_ws, scan_value, parse_str_body, lemma_sp_value_shape, lemma_sp_value_bounds, lemma_sp_ws,
    lemma_sp_members_bounds, lemma_sp_members_first_bounds, lemma_sp_items_first_bounds,
    lemma_sp_items_bounds, sp_items, sp_items_first, wf_str, wf_jv, lemma_sp_value_wf,
    lemma_str_body_embed, lemma_sp_ws_run, is_ws,
};

verus! {

/// Why the update engine rejected a manifest.  On either error the
/// engine yields no output, so the document it was read from stays
/// as it was.  Failures of the surrounding process — a missing
/// manifest or configuration file, a filesystem error — arise at the
/// I/O boundary, outside this library.
#[derive(Clone, Copy, Debug, PartialEq, Eq, Structural)]
pub enum UpdateError {
    /// The document is not JSON, or not a JSON object.
    ManifestCorrupt,
    /// A key holds a value of the wrong shape, or the requested
    /// mutation cannot be applied to the version vector.
    SchemaViolation,
}

/// One manifest value: a string, or (for `dependencies`) an array of
/// strings.  Content is raw string bytes.
#[derive(Debug)]
pub enum ManifestValue {
    Str(Vec<u8>),
    StrArr(Vec<Vec<u8>>),
}

/// The mathematical shape of a manifest value.
pub enum MVal {
    Str(Seq<u8>),
    StrArr(Seq<Seq<u8>>),
}

/// The contents of a sequence of byte vectors.
pub open spec fn strs_view(v: Seq<Vec<u8>>) -> Seq<Seq<u8>> {
    v.map_values(|x: Vec<u8>| x@)
}

impl View for ManifestValue {
    type V = MVal;

    open spec fn view(&self) -> MVal {
        match self {
            ManifestValue::Str(c) => MVal::Str(c@),
            ManifestValue::StrArr(cs) => MVal::StrArr(strs_view(cs@)),
        }
    }
}

/// A parsed manifest: entries in document order.
#[derive(Debug)]
pub struct Manifest {
    pub entries: Vec<(Vec<u8>, ManifestValue)>,
}

pub open spec fn entries_view(es: Seq<(Vec<u8>, ManifestValue)>) -> Seq<(Seq<u8>, MVal)> {
    es.map_values(|p: (Vec<u8>, ManifestValue)| (p.0@, p.1@))
}

impl View for Manifest {
    type V = Seq<(Seq<u8>, MVal)>;

    open spec fn view(&self) -> Seq<(Seq<u8>, MVal)> {
        entries_view(self.entries@)
    }
}

/// The bytes of the key `dependencies`.
pub open spec fn deps_key() -> Seq<u8> {
    seq![100, 101, 112, 101, 110, 100, 101, 110, 99, 105, 101, 115]
}

/// The bytes of the key `version`.
pub open spec fn version_key() -> Seq<u8> {
    seq![118, 101, 114, 115, 105, 111, 110]
}

/// The contents of a sequence of JSON values that are all strings.
pub open spec fn strs_of(vs: Seq<JsonV>) -> Option<Seq<Seq<u8>>>
    decreases vs.len(),
{
    if vs.len() == 0 {
        Some(Seq::empty())
    } else {
        match vs[0] {
            JsonV::Str(c) => match strs_of(vs.skip(1)) {
                Some(rest) => Some(seq![c] + rest),
                None => None,
            },
            _ => None,
        }
    }
}

/// The shape rule for one entry: `dependencies` must hold an array
/// of strings, every other key a string.
pub open spec fn head_val(key: Seq<u8>, v: JsonV) -> Option<MVal> {
    if key == deps_key() {
        match v {
            JsonV::Arr(items) => match strs_of(items) {
                Some(cs) => Some(MVal::StrArr(cs)),
                None => None,
            },
            _ => None,
        }
    } else {
        match v {
            JsonV::Str(c) => Some(MVal::Str(c)),
            _ => None,
        }
    }
}

/// Validate object members into manifest entries, in order.  The
/// first entry of the wrong shape rejects the document.
pub open spec fn spec_validate_entries(es: Seq<(Seq<u8>, JsonV)>) -> Option<
    Seq<(Seq<u8>, MVal)>,
>
    decreases es.len(),
{
    if es.len() == 0 {
        Some(Seq::empty())
    } else {
        match head_val(es[0].0, es[0].1) {
            None => None,
            Some(v) => match spec_validate_entries(es.skip(1)) {
                Some(rest) => Some(seq![(es[0].0, v)] + rest),
                None => None,
            },
        }
    }
}

/// Load a manifest from document bytes: parse, then validate.  A
/// document that is not a JSON object is corrupt; one whose entries
/// have the wrong shape violates the schema.
pub open spec fn spec_load(s: Seq<u8>) -> Result<Seq<(Seq<u8>, MVal)>, UpdateError> {
    match sp_json(s) {
        Some(JsonV::Obj(es)) => match spec_validate_entries(es) {
            Some(m) => Ok(m),
            None => Err(UpdateError::SchemaViolation),
        },
        Some(_) => Err(UpdateError::ManifestCorrupt),
        None => Err(UpdateError::ManifestCorrupt),
    }
}

/// A quoted string: `"` content `"`.
pub open spec fn fmt_str(c: Seq<u8>) -> Seq<u8> {
    seq![quote()] + c + seq![quote()]
}

/// Array items, quoted, separated by `, `.
pub open spec fn fmt_items(cs: Seq<Seq<u8>>) -> Seq<u8>
    decreases cs.len(),
{
    if cs.len() == 0 {
        Seq::empty()
    } else if cs.len() == 1 {
        fmt_str(cs[0])
    } else {
        fmt_str(cs[0]) + seq![44, 32] + fmt_items(cs.skip(1))
    }
}

pub open spec fn fmt_val(v: MVal) -> Seq<u8> {
    match v {
        MVal::Str(c) => fmt_str(c),
        MVal::StrArr(cs) => seq![91] + fmt_items(cs) + seq![93],
    }
}

/// One manifest line: two spaces of indent, the quoted key, `: `,
/// the value.
pub open spec fn fmt_entry(e: (Seq<u8>, MVal)) -> Seq<u8> {
    seq![32u8, 32u8] + fmt_str(e.0) + seq![58u8, 32u8] + fmt_val(e.1)
}

/// Entry lines; every line ends in a newline, all but the last with a
/// comma before it.
pub open spec fn fmt_entries(es: Seq<(Seq<u8>, MVal)>) -> Seq<u8>
    decreases es.len(),
{
    if es.len() == 0 {
        Seq::empty()
    } else if es.len() == 1 {
        fmt_entry(es[0]) + seq![10u8]
    } else {
        fmt_entry(es[0]) + seq![44u8, 10u8] + fmt_entries(es.skip(1))
    }
}

/// The formatted document: one entry per line between braces.
pub open spec fn spec_format(m: Seq<(Seq<u8>, MVal)>) -> Seq<u8> {
    if m.len() == 0 {
        seq![123u8, 125u8]
    } else {
        seq![123u8, 10u8] + fmt_entries(m) + seq![125u8]
    }
}

fn is_deps_key(k: &Vec<u8>) -> (r: bool)
    ensures
        r == (k@ == deps_key()),
{
    if k.len() != 12 {
        proof {
            assert(deps_key().len() == 12);
        }
        return false;
    }
    let r = k[0] == 100 && k[1] == 101 && k[2] == 112 && k[3] == 101 && k[4] == 110 && k[5] == 100
        && k[6] == 101 && k[7] == 110 && k[8] == 99 && k[9] == 105 && k[10] == 101 && k[11] == 115;
    proof {
        if r {
            assert(k@ =~= deps_key());
        } else {
            if k@ == deps_key() {
                assert(k@[0] == 100 && k@[1] == 101 && k@[2] == 112 && k@[3] == 101 && k@[4] == 110
                    && k@[5] == 100 && k@[6] == 101 && k@[7] == 110 && k@[8] == 99 && k@[9] == 105
                    && k@[10] == 101 && k@[11] == 115);
            }
        }
    }
    r
}

/// Parse one or more array items that must all be strings.  `Err`
/// means the document's grammar is broken; `Ok((None, e))` that it is
/// grammatical but some item is not a string.
fn parse_str_items_rest(s: &Vec<u8>, i: usize, Ghost(f): Ghost<nat>) -> (r: Result<
    (Option<Vec<Vec<u8>>>, usize),
    (),
>)
    requires
        i <= s@.len(),
        f >= 3 * (s@.len() - i) + 4,
    ensures
        match sp_items(s@, i as int, f) {
            None => r is Err,
            Some(p) => r matches Ok(q) && q.1 as int == p.1 && i < q.1 <= s@.len() && (match
                strs_of(p.0) {
                Some(cs) => q.0 matches Some(v) && strs_view(v@) == cs,
                None => q.0 is None,
            }),
        },
    decreases s@.len() - i, 1int,
{
    proof {
        lemma_sp_items_bounds(s@, i as int, f);
        lemma_sp_value_bounds(s@, i as int, (f - 1) as nat);
        lemma_sp_value_shape(s@, i as int, (f - 1) as nat);
        lemma_sp_ws(s@, i as int);
    }
    let jv = scan_ws(s, i);
    let elem: Option<Vec<u8>>;
    let m: usize;
    if jv < s.len() && s[jv] == 34 {
        match parse_str_body(s, jv + 1) {
            None => {
                return Err(());
            },
            Some(p) => {
                elem = Some(p.0);
                m = p.1;
            },
        }
    } else {
        match scan_value(s, i, Ghost((f - 1) as nat)) {
            None => {
                return Err(());
            },
            Some(k) => {
                elem = None;
                m = k;
            },
        }
    }
    let ghost sv = sp_value(s@, i as int, (f - 1) as nat);
    proof {
        assert(sv matches Some(p) && p.1 == m as int);
        if let Some((v, _)) = sv {
            match &elem {
                Some(c) => {
                    assert(v == JsonV::Str(c@));
                },
                None => {
                    assert(!(v is Str));
                },
            }
        }
        lemma_sp_ws(s@, m as int);
    }
    let k2 = scan_ws(s, m);
    if k2 < s.len() && s[k2] == 44 {
        match parse_str_items_rest(s, k2 + 1, Ghost((f - 1) as nat)) {
            Err(_) => Err(()),
            Ok((rest_opt, e)) => {
                proof {
                    if let Some((v, _)) = sv {
                        if let Some((rest_vs, _)) = sp_items(s@, k2 + 1, (f - 1) as nat) {
                            assert((seq![v] + rest_vs).skip(1) =~= rest_vs);
                            assert((seq![v] + rest_vs)[0] == v);
                        }
                    }
                }
                match (elem, rest_opt) {
                    (Some(c), Some(mut rest)) => {
                        let ghost cg = c@;
                        let ghost restg = rest@;
                        let mut out: Vec<Vec<u8>> = Vec::new();
                        out.push(c);
                        out.append(&mut rest);
                        proof {
                            assert(out@.skip(1) =~= restg);
                            assert(strs_view(out@) =~= seq![cg] + strs_view(restg));
                        }
                        Ok((Some(out), e))
                    },
                    _ => Ok((None, e)),
                }
            },
        }
    } else if k2 < s.len() && s[k2] == 93 {
        proof {
            if let Some((v, _)) = sv {
                assert(seq![v].skip(1) =~= Seq::<JsonV>::empty());
                assert(strs_of(Seq::<JsonV>::empty()) == Some(Seq::<Seq<u8>>::empty()));
            }
        }
        match elem {
            Some(c) => {
                let ghost cg = c@;
                let mut out: Vec<Vec<u8>> = Vec::new();
                out.push(c);
                proof {
                    assert(strs_view(out@) =~= seq![cg]);
                    assert(seq![cg] + Seq::<Seq<u8>>::empty() =~= seq![cg]);
                }
                Ok((Some(out), k2 + 1))
            },
            None => Ok((None, k2 + 1)),
        }
    } else {
        Err(())
    }
}

/// Parse the items of a string array from just after `[`.
fn parse_str_items(s: &Vec<u8>, i: usize, Ghost(f): Ghost<nat>) -> (r: Result<
    (Option<Vec<Vec<u8>>>, usize),
    (),
>)
    requires
        i <= s@.len(),
        f >= 3 * (s@.len() - i) + 5,
    ensures
        match sp_items_first(s@, i as int, f) {
            None => r is Err,
            Some(p) => r matches Ok(q) && q.1 as int == p.1 && i < q.1 <= s@.len() && (match
                strs_of(p.0) {
                Some(cs) => q.0 matches Some(v) && strs_view(v@) == cs,
                None => q.0 is None,
            }),
        },
    decreases s@.len() - i, 2int,
{
    proof {
        lemma_sp_items_first_bounds(s@, i as int, f);
    }
    let j = scan_ws(s, i);
    if j < s.len() && s[j] == 93 {
        proof {
            assert(strs_of(Seq::<JsonV>::empty()) == Some(Seq::<Seq<u8>>::empty()));
            assert(strs_view(Seq::<Vec<u8>>::empty()) =~= Seq::<Seq<u8>>::empty());
        }
        Ok((Some(Vec::new()), j + 1))
    } else {
        parse_str_items_rest(s, i, Ghost((f - 1) as nat))
    }
}

/// Parse one or more manifest entries.  `Err` means the document's
/// grammar is broken; `Ok((None, e))` that it is grammatical but some
/// entry has the wrong shape.
fn parse_entries(s: &Vec<u8>, i: usize, Ghost(f): Ghost<nat>) -> (r: Result<
    (Option<Vec<(Vec<u8>, ManifestValue)>>, usize),
    (),
>)
    requires
        i <= s@.len(),
        f >= 3 * (s@.len() - i) + 4,
    ensures
        match sp_members(s@, i as int, f) {
            None => r is Err,
            Some(p) => r matches Ok(q) && q.1 as int == p.1 && i < q.1 <= s@.len() && (match
                spec_validate_entries(p.0) {
                Some(mm) => q.0 matches Some(v) && entries_view(v@) == mm,
                None => q.0 is None,
            }),
        },
    decreases s@.len() - i, 1int,
{
    proof {
        lemma_sp_members_bounds(s@, i as int, f);
        lemma_sp_ws(s@, i as int);
    }
    let j = scan_ws(s, i);
    if !(j < s.len() && s[j] == 34) {
        return Err(());
    }
    match parse_str_body(s, j + 1) {
        None => Err(()),
        Some(kp) => {
            let key = kp.0;
            let k2 = scan_ws(s, kp.1);
            if !(k2 < s.len() && s[k2] == 58) {
                return Err(());
            }
            let vp = k2 + 1;
            let deps = is_deps_key(&key);
            proof {
                lemma_sp_value_bounds(s@, vp as int, (f - 1) as nat);
                lemma_sp_value_shape(s@, vp as int, (f - 1) as nat);
                lemma_sp_ws(s@, vp as int);
            }
            let jv = scan_ws(s, vp);
            let val_opt: Option<ManifestValue>;
            let m: usize;
            if jv < s.len() && s[jv] == 34 {
                match parse_str_body(s, jv + 1) {
                    None => {
                        return Err(());
                    },
                    Some(p) => {
                        if deps {
                            val_opt = None;
                        } else {
                            val_opt = Some(ManifestValue::Str(p.0));
                        }
                        m = p.1;
                    },
                }
            } else if deps && jv < s.len() && s[jv] == 91 {
                match parse_str_items(s, jv + 1, Ghost((f - 2) as nat)) {
                    Err(_) => {
                        return Err(());
                    },
                    Ok((arr_opt, e)) => {
                        match arr_opt {
                            Some(v) => {
                                val_opt = Some(ManifestValue::StrArr(v));
                            },
                            None => {
                                val_opt = None;
                            },
                        }
                        m = e;
                    },
                }
            } else {
                match scan_value(s, vp, Ghost((f - 1) as nat)) {
                    None => {
                        return Err(());
                    },
                    Some(k) => {
                        val_opt = None;
                        m = k;
                    },
                }
            }
            let ghost sv = sp_value(s@, vp as int, (f - 1) as nat);
            proof {
                assert(sv matches Some(p) && p.1 == m as int);
                if let Some((v, _)) = sv {
                    assert(head_val(key@, v) is Some <==> val_opt is Some);
                    if let Some(mval) = &val_opt {
                        assert(head_val(key@, v) == Some(mval@));
                    }
                }
                lemma_sp_ws(s@, m as int);
            }
            let m2 = scan_ws(s, m);
            if m2 < s.len() && s[m2] == 44 {
                match parse_entries(s, m2 + 1, Ghost((f - 1) as nat)) {
                    Err(_) => Err(()),
                    Ok((rest_opt, e)) => {
                        proof {
                            if let Some((v, _)) = sv {
                                if let Some((rest_es, _)) = sp_members(
                                    s@,
                                    m2 + 1,
                                    (f - 1) as nat,
                                ) {
                                    assert((seq![(key@, v)] + rest_es).skip(1) =~= rest_es);
                                    assert((seq![(key@, v)] + rest_es)[0] == (key@, v));
                                }
                            }
                        }
                        match (val_opt, rest_opt) {
                            (Some(mv), Some(mut rest)) => {
                                let ghost kg = key@;
                                let ghost mvg = mv@;
                                let ghost restg = rest@;
                                let mut out: Vec<(Vec<u8>, ManifestValue)> = Vec::new();
                                out.push((key, mv));
                                out.append(&mut rest);
                                proof {
                                    assert(out@.skip(1) =~= restg);
                                    assert(entries_view(out@) =~= seq![(kg, mvg)] + entries_view(
                                        restg,
                                    ));
                                }
                                Ok((Some(out), e))
                            },
                            _ => Ok((None, e)),
                        }
                    },
                }
            } else if m2 < s.len() && s[m2] == 125 {
                proof {
                    if let Some((v, _)) = sv {
                        assert(seq![(key@, v)].skip(1) =~= Seq::<(Seq<u8>, JsonV)>::empty());
                        assert(spec_validate_entries(Seq::<(Seq<u8>, JsonV)>::empty())
                            == Some(Seq::<(Seq<u8>, MVal)>::empty()));
                    }
                }
                match val_opt {
                    Some(mv) => {
                        let ghost kg = key@;
                        let ghost mvg = mv@;
                        let mut out: Vec<(Vec<u8>, ManifestValue)> = Vec::new();
                        out.push((key, mv));
                        proof {
                            assert(entries_view(out@) =~= seq![(kg, mvg)]);
                            assert(seq![(kg, mvg)] + Seq::<(Seq<u8>, MVal)>::empty() =~= seq![
                                (kg, mvg),
                            ]);
                        }
                        Ok((Some(out), m2 + 1))
                    },
                    None => Ok((None, m2 + 1)),
                }
            } else {
                Err(())
            }
        },
    }
}

/// Parse and validate a whole manifest document.
pub fn parse_manifest(s: &Vec<u8>) -> (r: Result<Manifest, UpdateError>)
    ensures
        match spec_load(s@) {
            Ok(m) => r matches Ok(mf) && mf@ == m,
            Err(e) => r matches Err(e2) && e2 == e,
        },
{
    let ghost fv = top_fuel(s@);
    proof {
        lemma_sp_value_bounds(s@, 0, fv);
        lemma_sp_value_shape(s@, 0, fv);
        lemma_sp_ws(s@, 0);
    }
    let j = scan_ws(s, 0);
    if !(j < s.len() && s[j] == 123) {
        return Err(UpdateError::ManifestCorrupt);
    }
    proof {
        lemma_sp_members_first_bounds(s@, j + 1, (fv - 1) as nat);
        lemma_sp_ws(s@, j + 1);
    }
    let j2 = scan_ws(s, j + 1);
    let body: (Option<Vec<(Vec<u8>, ManifestValue)>>, usize);
    if j2 < s.len() && s[j2] == 125 {
        proof {
            assert(spec_validate_entries(Seq::<(Seq<u8>, JsonV)>::empty()) == Some(
                Seq::<(Seq<u8>, MVal)>::empty(),
            ));
        }
        body = (Some(Vec::new()), j2 + 1);
    } else {
        match parse_entries(s, j + 1, Ghost((fv - 2) as nat)) {
            Err(_) => {
                return Err(UpdateError::ManifestCorrupt);
            },
            Ok(p) => {
                body = p;
            },
        }
    }
    let (opt, e) = body;
    proof {
        lemma_sp_ws(s@, e as int);
    }
    let e2 = scan_ws(s, e);
    if e2 != s.len() {
        return Err(UpdateError::ManifestCorrupt);
    }
    match opt {
        Some(v) => {
            proof {
                let mf = Manifest { entries: v };
                assert(entries_view(v@) == mf@);
            }
            Ok(Manifest { entries: v })
        },
        None => Err(UpdateError::SchemaViolation),
    }
}

/// Append all of `b`.
pub(crate) fn push_all(out: &mut Vec<u8>, b: &Vec<u8>)
    ensures
        final(out)@ == old(out)@ + b@,
{
    let ghost start = out@;
    let mut i: usize = 0;
    while i < b.len()
        invariant
            i <= b@.len(),
            out@ == start + b@.take(i as int),
        decreases b@.len() - i,
    {
        out.push(b[i]);
        proof {
            assert(b@.take(i + 1) =~= b@.take(i as int).push(b@[i as int]));
            assert(start + b@.take(i + 1) =~= (start + b@.take(i as int)).push(b@[i as int]));
        }
        i = i + 1;
    }
    proof {
        assert(b@.take(b@.len() as int) =~= b@);
    }
}

/// Append `c` as a quoted string.
fn push_quoted(out: &mut Vec<u8>, c: &Vec<u8>)
    ensures
        final(out)@ == old(out)@ + fmt_str(c@),
{
    let ghost start = out@;
    out.push(34);
    push_all(out, c);
    out.push(34);
    proof {
        assert(out@ =~= start + fmt_str(c@));
    }
}

/// Render the array items from index `k` on.
fn fmt_items_from(cs: &Vec<Vec<u8>>, k: usize) -> (r: Vec<u8>)
    requires
        k <= cs@.len(),
    ensures
        r@ == fmt_items(strs_view(cs@).skip(k as int)),
    decreases cs@.len() - k,
{
    let ghost t = strs_view(cs@).skip(k as int);
    if k == cs.len() {
        proof {
            assert(t =~= Seq::<Seq<u8>>::empty());
        }
        Vec::new()
    } else {
        let mut out: Vec<u8> = Vec::new();
        push_quoted(&mut out, &cs[k]);
        proof {
            assert(t[0] == cs@[k as int]@);
        }
        if k + 1 < cs.len() {
            out.push(44);
            out.push(32);
            let rest = fmt_items_from(cs, k + 1);
            push_all(&mut out, &rest);
            proof {
                assert(t.skip(1) =~= strs_view(cs@).skip(k + 1));
                assert(out@ =~= fmt_str(t[0]) + seq![44u8, 32u8] + fmt_items(t.skip(1)));
            }
        } else {
            proof {
                assert(t.len() == 1);
                assert(out@ =~= fmt_str(t[0]));
            }
        }
        out
    }
}

/// Render one manifest value.
fn fmt_value(v: &ManifestValue) -> (r: Vec<u8>)
    ensures
        r@ == fmt_val(v@),
{
    match v {
        ManifestValue::Str(c) => {
            let mut out: Vec<u8> = Vec::new();
            push_quoted(&mut out, c);
            proof {
                assert(out@ =~= fmt_str(c@));
            }
            out
        },
        ManifestValue::StrArr(cs) => {
            let mut out: Vec<u8> = Vec::new();
            out.push(91);
            let items = fmt_items_from(cs, 0);
            push_all(&mut out, &items);
            out.push(93);
            proof {
                assert(strs_view(cs@).skip(0) =~= strs_view(cs@));
                assert(out@ =~= seq![91u8] + fmt_items(strs_view(cs@)) + seq![93u8]);
            }
            out
        },
    }
}

/// Render the entry lines from index `k` on.
fn fmt_entries_from(es: &Vec<(Vec<u8>, ManifestValue)>, k: usize) -> (r: Vec<u8>)
    requires
        k <= es@.len(),
    ensures
        r@ == fmt_entries(entries_view(es@).skip(k as int)),
    decreases es@.len() - k,
{
    let ghost t = entries_view(es@).skip(k as int);
    if k == es.len() {
        proof {
            assert(t =~= Seq::<(Seq<u8>, MVal)>::empty());
        }
        Vec::new()
    } else {
        let pair = &es[k];
        let mut out: Vec<u8> = Vec::new();
        out.push(32);
        out.push(32);
        push_quoted(&mut out, &pair.0);
        out.push(58);
        out.push(32);
        let val = fmt_value(&pair.1);
        push_all(&mut out, &val);
        proof {
            assert(t[0] == (es@[k as int].0@, es@[k as int].1@));
            assert(out@ =~= fmt_entry(t[0]));
        }
        if k + 1 < es.len() {
            out.push(44);
            out.push(10);
            let rest = fmt_entries_from(es, k + 1);
            push_all(&mut out, &rest);
            proof {
                assert(t.skip(1) =~= entries_view(es@).skip(k + 1));
                assert(out@ =~= fmt_entry(t[0]) + seq![44u8, 10u8] + fmt_entries(t.skip(1)));
            }
        } else {
            out.push(10);
            proof {
                assert(t.len() == 1);
                assert(out@ =~= fmt_entry(t[0]) + seq![10u8]);
            }
        }
        out
    }
}

/// Render a manifest back to document bytes.
pub fn format_manifest(m: &Manifest) -> (out: Vec<u8>)
    ensures
        out@ == spec_format(m@),
{
    let mut out: Vec<u8> = Vec::new();
    if m.entries.len() == 0 {
        out.push(123);
        out.push(125);
        proof {
            assert(out@ =~= spec_format(m@));
        }
    } else {
        out.push(123);
        out.push(10);
        let lines = fmt_entries_from(&m.entries, 0);
        push_all(&mut out, &lines);
        out.push(125);
        proof {
            assert(entries_view(m.entries@).skip(0) =~= m@);
            assert(out@ =~= seq![123u8, 10u8] + fmt_entries(m@) + seq![125u8]);
        }
    }
    out
}

/// The JSON value a manifest value denotes.
pub open spec fn mval_image(v: MVal) -> JsonV {
    match v {
        MVal::Str(c) => JsonV::Str(c),
        MVal::StrArr(cs) => JsonV::Arr(cs.map_values(|c: Seq<u8>| JsonV::Str(c))),
    }
}

/// The object members a manifest denotes.
pub open spec fn manifest_image(m: Seq<(Seq<u8>, MVal)>) -> Seq<(Seq<u8>, JsonV)> {
    m.map_values(|e: (Seq<u8>, MVal)| (e.0, mval_image(e.1)))
}

/// A value of the right shape for its key, with well-formed string
/// content throughout.
pub open spec fn wf_mval(key: Seq<u8>, v: MVal) -> bool {
    match v {
        MVal::Str(c) => key != deps_key() && wf_str(c),
        MVal::StrArr(cs) => key == deps_key() && forall|j: int|
            0 <= j < cs.len() ==> wf_str(#[trigger] cs[j]),
    }
}

/// Every key is well-formed and every value fits its key.
pub open spec fn wf_manifest(m: Seq<(Seq<u8>, MVal)>) -> bool {
    forall|i: int|
        0 <= i < m.len() ==> wf_str(#[trigger] m[i].0) && wf_mval(m[i].0, m[i].1)
}

pub proof fn lemma_strs_of_map(cs: Seq<Seq<u8>>)
    ensures
        strs_of(cs.map_values(|c: Seq<u8>| JsonV::Str(c))) == Some(cs),
    decreases cs.len(),
{
    let vs = cs.map_values(|c: Seq<u8>| JsonV::Str(c));
    if cs.len() == 0 {
        assert(strs_of(vs) == Some(Seq::<Seq<u8>>::empty()));
        assert(Seq::<Seq<u8>>::empty() =~= cs);
    } else {
        lemma_strs_of_map(cs.skip(1));
        assert(vs.skip(1) =~= cs.skip(1).map_values(|c: Seq<u8>| JsonV::Str(c)));
        assert(vs[0] == JsonV::Str(cs[0]));
        assert(seq![cs[0]] + cs.skip(1) =~= cs);
    }
}

pub proof fn lemma_strs_of_wf(vs: Seq<JsonV>)
    requires
        forall|k: int| 0 <= k < vs.len() ==> wf_jv(#[trigger] vs[k]),
    ensures
        strs_of(vs) matches Some(cs) ==> forall|j: int|
            0 <= j < cs.len() ==> wf_str(#[trigger] cs[j]),
    decreases vs.len(),
{
    if vs.len() > 0 {
        if let JsonV::Str(c) = vs[0] {
            lemma_strs_of_wf(vs.skip(1));
            if let Some(rest) = strs_of(vs.skip(1)) {
                let whole = seq![c] + rest;
                assert(wf_jv(vs[0]));
                assert forall|j: int| 0 <= j < whole.len() implies wf_str(
                    #[trigger] whole[j],
                ) by {
                    if j > 0 {
                        assert(whole[j] == rest[j - 1]);
                    } else {
                        assert(whole[0] == c);
                    }
                }
            }
        }
    }
}

/// Whatever validation accepts is well-formed.
pub proof fn lemma_validate_wf(es: Seq<(Seq<u8>, JsonV)>)
    requires
        forall|k: int| 0 <= k < es.len() ==> wf_str(#[trigger] es[k].0) && wf_jv(es[k].1),
    ensures
        spec_validate_entries(es) matches Some(m) ==> wf_manifest(m),
    decreases es.len(),
{
    if es.len() > 0 {
        assert(wf_str(es[0].0) && wf_jv(es[0].1));
        match head_val(es[0].0, es[0].1) {
            None => {},
            Some(v) => {
                if es[0].0 == deps_key() {
                    if let JsonV::Arr(items) = es[0].1 {
                        lemma_strs_of_wf(items);
                    }
                }
                assert forall|k: int| 0 <= k < es.skip(1).len() implies wf_str(
                    #[trigger] es.skip(1)[k].0,
                ) && wf_jv(es.skip(1)[k].1) by {
                    assert(es.skip(1)[k] == es[k + 1]);
                }
                lemma_validate_wf(es.skip(1));
                if let Some(rest) = spec_validate_entries(es.skip(1)) {
                    let whole = seq![(es[0].0, v)] + rest;
                    assert forall|k: int| 0 <= k < whole.len() implies wf_str(
                        #[trigger] whole[k].0,
                    ) && wf_mval(whole[k].0, whole[k].1) by {
                        if k > 0 {
                            assert(whole[k] == rest[k - 1]);
                        } else {
                            assert(whole[0] == (es[0].0, v));
                        }
                    }
                }
            },
        }
    }
}

/// Whatever loading accepts is well-formed.
pub proof fn lemma_load_wf(s: Seq<u8>)
    ensures
        spec_load(s) matches Ok(m) ==> wf_manifest(m),
{
    crate::json::lemma_sp_value_wf(s, 0, top_fuel(s));
    if let Some(JsonV::Obj(es)) = sp_json(s) {
        lemma_validate_wf(es);
    }
}

/// Validation undoes the image: a well-formed manifest's denotation
/// validates back to the manifest itself.
pub proof fn lemma_validate_image(m: Seq<(Seq<u8>, MVal)>)
    requires
        wf_manifest(m),
    ensures
        spec_validate_entries(manifest_image(m)) == Some(m),
    decreases m.len(),
{
    let es = manifest_image(m);
    if m.len() == 0 {
        assert(es =~= Seq::<(Seq<u8>, JsonV)>::empty());
        assert(Seq::<(Seq<u8>, MVal)>::empty() =~= m);
    } else {
        assert(es[0] == (m[0].0, mval_image(m[0].1)));
        assert(wf_mval(m[0].0, m[0].1));
        match m[0].1 {
            MVal::Str(c) => {
                assert(head_val(es[0].0, es[0].1) == Some(MVal::Str(c)));
            },
            MVal::StrArr(cs) => {
                lemma_strs_of_map(cs);
                assert(head_val(es[0].0, es[0].1) == Some(MVal::StrArr(cs)));
            },
        }
        assert forall|i: int| 0 <= i < m.skip(1).len() implies wf_str(
            #[trigger] m.skip(1)[i].0,
        ) && wf_mval(m.skip(1)[i].0, m.skip(1)[i].1) by {
            assert(m.skip(1)[i] == m[i + 1]);
        }
        lemma_validate_image(m.skip(1));
        assert(es.skip(1) =~= manifest_image(m.skip(1)));
        assert(seq![(m[0].0, m[0].1)] + m.skip(1) =~= m);
        assert(seq![(es[0].0, m[0].1)] + m.skip(1) =~= m);
    }
}

/// Formatted array items embedded at `p` (with `]` after them) scan
/// back to the same strings.  `i` may precede `p` by whitespace only.
proof fn lemma_items_embed(s: Seq<u8>, i: int, p: int, cs: Seq<Seq<u8>>, f: nat)
    requires
        cs.len() >= 1,
        forall|j: int| 0 <= j < cs.len() ==> wf_str(#[trigger] cs[j]),
        0 <= i <= p,
        sp_ws(s, i) == p,
        p + fmt_items(cs).len() + 1 <= s.len(),
        s.subrange(p, p + fmt_items(cs).len() as int) == fmt_items(cs),
        s[p + fmt_items(cs).len()] == 93,
        f >= 3 * (s.len() - i) + 4,
    ensures
        sp_items(s, i, f) == Some::<(Seq<JsonV>, int)>(
            (cs.map_values(|c: Seq<u8>| JsonV::Str(c)), p + fmt_items(cs).len() + 1),
        ),
    decreases cs.len(),
{
    let fi = fmt_items(cs);
    let li = fi.len() as int;
    let c0 = cs[0];
    let fs = fmt_str(c0);
    let ls = fs.len() as int;
    assert forall|q: int| 0 <= q < li implies s[p + q] == #[trigger] fi[q] by {
        assert(s.subrange(p, p + li)[q] == s[p + q]);
    }
    assert(fi[0] == quote());
    assert(s[p + 0] == fi[0]);
    assert(s[p] == quote());
    // the first item is a quoted string
    assert forall|q: int| 0 <= q < c0.len() implies s.subrange(p + 1, p + 1 + c0.len() as int)[q]
        == c0[q] by {
        assert(fi[1 + q] == c0[q]);
        assert(s[p + (1 + q)] == fi[1 + q]);
    }
    assert(s.subrange(p + 1, p + 1 + c0.len() as int) =~= c0);
    assert(fi[1 + c0.len() as int] == quote());
    assert(s[p + (1 + c0.len() as int)] == fi[1 + c0.len() as int]);
    lemma_str_body_embed(s, p + 1, c0);
    let me = p + c0.len() + 2;
    assert(sp_value(s, i, (f - 1) as nat) == Some::<(JsonV, int)>((JsonV::Str(c0), me)));
    lemma_sp_ws(s, me);
    if cs.len() == 1 {
        assert(li == ls);
        assert(me == p + li);
        assert(!is_ws(s[me]));
        lemma_sp_ws_run(s, me, me);
        assert(sp_ws(s, me) == me);
        assert(sp_items(s, i, f) == Some::<(Seq<JsonV>, int)>((seq![JsonV::Str(c0)], me + 1)));
        assert(seq![JsonV::Str(c0)] =~= cs.map_values(|c: Seq<u8>| JsonV::Str(c)));
    } else {
        let rest = cs.skip(1);
        let fr = fmt_items(rest);
        assert(fi =~= fs + seq![44u8, 32u8] + fr);
        assert(me == p + ls);
        assert(fi[ls] == 44);
        assert(s[p + ls] == fi[ls]);
        assert(s[me] == 44);
        assert(fi[ls + 1] == 32);
        assert(s[p + (ls + 1)] == fi[ls + 1]);
        assert(s[me + 1] == 32);
        lemma_sp_ws_run(s, me, me);
        // the rest of the items begin after the comma and one space
        assert(fr[0] == fmt_str(rest[0])[0]);
        assert(fr[0] == quote());
        assert(fi[ls + 2] == fr[0]);
        assert(s[p + (ls + 2)] == fi[ls + 2]);
        assert(s[me + 2] == fr[0]);
        assert(is_ws(s[me + 1]) && !is_ws(s[me + 2]));
        lemma_sp_ws_run(s, me + 1, me + 2);
        assert forall|q: int| 0 <= q < fr.len() implies s.subrange(
            me + 2,
            me + 2 + fr.len() as int,
        )[q] == fr[q] by {
            assert(fi[ls + 2 + q] == fr[q]);
            assert(s[p + (ls + 2 + q)] == fi[ls + 2 + q]);
        }
        assert(s.subrange(me + 2, me + 2 + fr.len() as int) =~= fr);
        assert(me + 2 + fr.len() == p + li);
        assert forall|j: int| 0 <= j < rest.len() implies wf_str(#[trigger] rest[j]) by {
            assert(rest[j] == cs[j + 1]);
        }
        lemma_items_embed(s, me + 1, me + 2, rest, (f - 1) as nat);
        assert(sp_items(s, me + 1, (f - 1) as nat) == Some::<(Seq<JsonV>, int)>(
            (rest.map_values(|c: Seq<u8>| JsonV::Str(c)), p + li + 1),
        ));
        assert(seq![JsonV::Str(c0)] + rest.map_values(|c: Seq<u8>| JsonV::Str(c)) =~= cs.map_values(
            |c: Seq<u8>| JsonV::Str(c),
        ));
    }
}

/// A formatted value embedded at `p` parses back to its denotation.
/// `i` may precede `p` by whitespace only.
proof fn lemma_value_embed(s: Seq<u8>, i: int, p: int, v: MVal, f: nat)
    requires
        match v {
            MVal::Str(c) => wf_str(c),
            MVal::StrArr(cs) => forall|j: int| 0 <= j < cs.len() ==> wf_str(#[trigger] cs[j]),
        },
        0 <= i <= p,
        sp_ws(s, i) == p,
        p + fmt_val(v).len() <= s.len(),
        s.subrange(p, p + fmt_val(v).len() as int) == fmt_val(v),
        f >= 3 * (s.len() - i) + 3,
    ensures
        sp_value(s, i, f) == Some::<(JsonV, int)>((mval_image(v), p + fmt_val(v).len())),
{
    let fv = fmt_val(v);
    let lv = fv.len() as int;
    assert forall|q: int| 0 <= q < lv implies s[p + q] == #[trigger] fv[q] by {
        assert(s.subrange(p, p + lv)[q] == s[p + q]);
    }
    lemma_sp_ws(s, i);
    match v {
        MVal::Str(c) => {
            assert(fv[0] == quote());
            assert(s[p + 0] == fv[0]);
            assert(s[p] == quote());
            assert forall|q: int| 0 <= q < c.len() implies s.subrange(
                p + 1,
                p + 1 + c.len() as int,
            )[q] == c[q] by {
                assert(fv[1 + q] == c[q]);
                assert(s[p + (1 + q)] == fv[1 + q]);
            }
            assert(s.subrange(p + 1, p + 1 + c.len() as int) =~= c);
            assert(fv[1 + c.len() as int] == quote());
            assert(s[p + (1 + c.len() as int)] == fv[1 + c.len() as int]);
            lemma_str_body_embed(s, p + 1, c);
        },
        MVal::StrArr(cs) => {
            assert(fv[0] == 91);
            assert(s[p + 0] == fv[0]);
            assert(s[p] == 91);
            let fi = fmt_items(cs);
            assert(fv =~= seq![91u8] + fi + seq![93u8]);
            assert(fv[1 + fi.len() as int] == 93);
            assert(s[p + (1 + fi.len() as int)] == fv[1 + fi.len() as int]);
            assert(s[p + 1 + fi.len()] == 93);
            if cs.len() == 0 {
                assert(s[p + 1] == 93);
                assert(!is_ws(s[p + 1]));
                lemma_sp_ws_run(s, p + 1, p + 1);
                assert(sp_items_first(s, p + 1, (f - 1) as nat) == Some::<(Seq<JsonV>, int)>(
                    (Seq::empty(), p + 2),
                ));
                assert(Seq::<JsonV>::empty() =~= cs.map_values(|c: Seq<u8>| JsonV::Str(c)));
            } else {
                assert(fi[0] == fmt_str(cs[0])[0]);
                assert(fi[0] == quote());
                assert(fv[1] == fi[0]);
                assert(s[p + 1] == fv[1]);
                assert(s[p + 1] == quote());
                assert(!is_ws(s[p + 1]));
                lemma_sp_ws_run(s, p + 1, p + 1);
                assert forall|q: int| 0 <= q < fi.len() implies s.subrange(
                    p + 1,
                    p + 1 + fi.len() as int,
                )[q] == fi[q] by {
                    assert(fv[1 + q] == fi[q]);
                    assert(s[p + (1 + q)] == fv[1 + q]);
                }
                assert(s.subrange(p + 1, p + 1 + fi.len() as int) =~= fi);
                lemma_items_embed(s, p + 1, p + 1, cs, (f - 2) as nat);
                assert(sp_items_first(s, p + 1, (f - 1) as nat) == Some::<(Seq<JsonV>, int)>(
                    (cs.map_values(|c: Seq<u8>| JsonV::Str(c)), p + lv),
                ));
            }
        },
    }
}

/// Formatted entry lines embedded after `i` (with `}` after them)
/// parse back to the manifest's denotation.
#[verifier::rlimit(100)]
proof fn lemma_members_embed(s: Seq<u8>, i: int, m: Seq<(Seq<u8>, MVal)>, f: nat)
    requires
        m.len() >= 1,
        wf_manifest(m),
        0 <= i,
        i + 1 + fmt_entries(m).len() + 1 <= s.len(),
        s.subrange(i, i + 1 + fmt_entries(m).len() as int) == seq![10u8] + fmt_entries(m),
        s[i + 1 + fmt_entries(m).len()] == 125,
        f >= 3 * (s.len() - i) + 4,
    ensures
        sp_members(s, i, f) == Some::<(Seq<(Seq<u8>, JsonV)>, int)>(
            (manifest_image(m), i + 1 + fmt_entries(m).len() + 1),
        ),
    decreases m.len(),
{
    let fe = fmt_entries(m);
    let le = fe.len() as int;
    let t = seq![10u8] + fe;
    assert forall|q: int| 0 <= q < 1 + le implies s[i + q] == #[trigger] t[q] by {
        assert(s.subrange(i, i + 1 + le)[q] == s[i + q]);
    }
    let key = m[0].0;
    let kl = key.len() as int;
    let val = m[0].1;
    let en = fmt_entry(m[0]);
    let el = en.len() as int;
    assert(wf_str(m[0].0) && wf_mval(m[0].0, m[0].1));
    assert forall|q: int| 0 <= q < el implies #[trigger] fe[q] == en[q] by {
        if m.len() == 1 {
            assert(fe =~= en + seq![10u8]);
        } else {
            assert(fe =~= en + seq![44u8, 10u8] + fmt_entries(m.skip(1)));
        }
    }
    assert(en =~= seq![32u8, 32u8] + fmt_str(key) + seq![58u8, 32u8] + fmt_val(val));
    assert(s[i + 0] == t[0]);
    assert(s[i + 1] == t[1] && t[1] == fe[0] && en[0] == 32);
    assert(s[i + 2] == t[2] && t[2] == fe[1] && en[1] == 32);
    assert(s[i] == 10 && s[i + 1] == 32 && s[i + 2] == 32);
    assert(en[2] == quote());
    assert(s[i + 3] == t[3] && t[3] == fe[2]);
    assert(s[i + 3] == quote());
    assert(!is_ws(s[i + 3]));
    lemma_sp_ws_run(s, i, i + 3);
    // the key string
    assert forall|q: int| 0 <= q < kl implies s.subrange(i + 4, i + 4 + kl)[q] == key[q] by {
        assert(en[3 + q] == key[q]);
        assert(fe[3 + q] == en[3 + q]);
        assert(t[4 + q] == fe[3 + q]);
        assert(s[i + (4 + q)] == t[4 + q]);
    }
    assert(s.subrange(i + 4, i + 4 + kl) =~= key);
    assert(en[3 + kl] == quote());
    assert(t[4 + kl] == fe[3 + kl]);
    assert(s[i + (4 + kl)] == t[4 + kl]);
    lemma_str_body_embed(s, i + 4, key);
    let k = i + 5 + kl;
    assert(en[4 + kl] == 58);
    assert(t[5 + kl] == fe[4 + kl]);
    assert(s[i + (5 + kl)] == t[5 + kl]);
    assert(s[k] == 58);
    assert(!is_ws(s[k]));
    lemma_sp_ws_run(s, k, k);
    // the value, after one space
    let fv = fmt_val(val);
    let vl = fv.len() as int;
    assert(en[5 + kl] == 32);
    assert(t[6 + kl] == fe[5 + kl]);
    assert(s[i + (6 + kl)] == t[6 + kl]);
    assert(s[k + 1] == 32);
    assert forall|q: int| 0 <= q < vl implies s.subrange(k + 2, k + 2 + vl)[q] == fv[q] by {
        assert(en[6 + kl + q] == fv[q]);
        assert(fe[6 + kl + q] == en[6 + kl + q]);
        assert(t[7 + kl + q] == fe[6 + kl + q]);
        assert(s[i + (7 + kl + q)] == t[7 + kl + q]);
    }
    assert(s.subrange(k + 2, k + 2 + vl) =~= fv);
    assert(fv[0] == quote() || fv[0] == 91);
    assert(s.subrange(k + 2, k + 2 + vl)[0] == fv[0]);
    assert(!is_ws(s[k + 2]));
    lemma_sp_ws_run(s, k + 1, k + 2);
    lemma_value_embed(s, k + 1, k + 2, val, (f - 1) as nat);
    let me = k + 2 + vl;
    assert(me == i + 1 + el);
    assert(sp_value(s, k + 1, (f - 1) as nat) == Some::<(JsonV, int)>((mval_image(val), me)));
    if m.len() == 1 {
        assert(fe =~= en + seq![10u8]);
        assert(fe[el] == 10);
        assert(t[1 + el] == fe[el]);
        assert(s[i + (1 + el)] == t[1 + el]);
        assert(s[me] == 10);
        assert(s[me + 1] == 125);
        assert(!is_ws(s[me + 1]));
        lemma_sp_ws_run(s, me, me + 1);
        assert(sp_members(s, i, f) == Some::<(Seq<(Seq<u8>, JsonV)>, int)>(
            (seq![(key, mval_image(val))], me + 2),
        ));
        assert(seq![(key, mval_image(val))] =~= manifest_image(m));
        assert(me + 2 == i + 1 + le + 1);
    } else {
        let rest = m.skip(1);
        let fr = fmt_entries(rest);
        assert(fe =~= en + seq![44u8, 10u8] + fr);
        assert(fe[el] == 44);
        assert(t[1 + el] == fe[el]);
        assert(s[i + (1 + el)] == t[1 + el]);
        assert(s[me] == 44);
        assert(!is_ws(s[me]));
        lemma_sp_ws_run(s, me, me);
        assert forall|j: int| 0 <= j < rest.len() implies wf_str(#[trigger] rest[j].0)
            && wf_mval(rest[j].0, rest[j].1) by {
            assert(rest[j] == m[j + 1]);
        }
        let t2 = seq![10u8] + fr;
        assert forall|q: int| 0 <= q < 1 + fr.len() implies s.subrange(
            me + 1,
            me + 1 + 1 + fr.len() as int,
        )[q] == t2[q] by {
            assert(fe[el + 1 + q] == t2[q]);
            assert(t[el + 2 + q] == fe[el + 1 + q]);
            assert(s[i + (el + 2 + q)] == t[el + 2 + q]);
        }
        assert(s.subrange(me + 1, me + 1 + 1 + fr.len() as int) =~= seq![10u8] + fr);
        assert(me + 2 + fr.len() == i + 1 + le);
        lemma_members_embed(s, me + 1, rest, (f - 1) as nat);
        assert(sp_members(s, me + 1, (f - 1) as nat) == Some::<(Seq<(Seq<u8>, JsonV)>, int)>(
            (manifest_image(rest), i + 1 + le + 1),
        ));
        assert(seq![(key, mval_image(val))] + manifest_image(rest) =~= manifest_image(m));
    }
}

/// Loading undoes formatting: rendering a well-formed manifest and
/// loading the result gives the manifest back, exactly.
pub proof fn lemma_load_format(m: Seq<(Seq<u8>, MVal)>)
    requires
        wf_manifest(m),
    ensures
        spec_load(spec_format(m)) == Ok::<Seq<(Seq<u8>, MVal)>, UpdateError>(m),
{
    let s = spec_format(m);
    let fv = top_fuel(s);
    if m.len() == 0 {
        assert(s =~= seq![123u8, 125u8]);
        assert(!is_ws(s[0]));
        lemma_sp_ws_run(s, 0, 0);
        assert(!is_ws(s[1]));
        lemma_sp_ws_run(s, 1, 1);
        assert(sp_members_first(s, 1, (fv - 1) as nat) == Some::<(Seq<(Seq<u8>, JsonV)>, int)>(
            (Seq::empty(), 2),
        ));
        assert(sp_value(s, 0, fv) == Some::<(JsonV, int)>((JsonV::Obj(Seq::empty()), 2)));
        lemma_sp_ws_run(s, 2, 2);
        assert(sp_json(s) == Some(JsonV::Obj(Seq::<(Seq<u8>, JsonV)>::empty())));
        assert(spec_validate_entries(Seq::<(Seq<u8>, JsonV)>::empty()) == Some(
            Seq::<(Seq<u8>, MVal)>::empty(),
        ));
        assert(Seq::<(Seq<u8>, MVal)>::empty() =~= m);
    } else {
        let fe = fmt_entries(m);
        let le = fe.len() as int;
        assert(s =~= seq![123u8, 10u8] + fe + seq![125u8]);
        assert(s[0] == 123);
        assert(!is_ws(s[0]));
        lemma_sp_ws_run(s, 0, 0);
        assert(s.subrange(1, 1 + 1 + le) =~= seq![10u8] + fe);
        assert(s[1 + 1 + le] == 125);
        // the first non-blank byte after `{` opens the first key
        let en = fmt_entry(m[0]);
        assert(en =~= seq![32u8, 32u8] + fmt_str(m[0].0) + seq![58u8, 32u8] + fmt_val(m[0].1));
        assert(forall|q: int| 0 <= q < le ==> s[2 + q] == fe[q]);
        assert(forall|q: int| 0 <= q < en.len() ==> fe[q] == en[q]) by {
            if m.len() == 1 {
                assert(fe =~= en + seq![10u8]);
            } else {
                assert(fe =~= en + seq![44u8, 10u8] + fmt_entries(m.skip(1)));
            }
        }
        assert(s[1] == 10 && s[2] == 32 && s[3] == 32 && s[4] == quote());
        assert(!is_ws(s[4]));
        lemma_sp_ws_run(s, 1, 4);
        assert(s[4] != 125);
        lemma_members_embed(s, 1, m, (fv - 2) as nat);
        assert(sp_members(s, 1, (fv - 2) as nat) == Some::<(Seq<(Seq<u8>, JsonV)>, int)>(
            (manifest_image(m), s.len() as int),
        ));
        assert(sp_members_first(s, 1, (fv - 1) as nat) == Some::<(Seq<(Seq<u8>, JsonV)>, int)>(
            (manifest_image(m), s.len() as int),
        ));
        assert(sp_value(s, 0, fv) == Some::<(JsonV, int)>(
            (JsonV::Obj(manifest_image(m)), s.len() as int),
        ));
        lemma_sp_ws_run(s, s.len() as int, s.len() as int);
        assert(sp_json(s) == Some(JsonV::Obj(manifest_image(m))));
        lemma_validate_image(m);
    }
}

} // verus!
