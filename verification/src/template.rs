//! The manifest skeleton that `init` writes into a fresh mod
//! directory.
//!
//! The skeleton takes its `name` and `title` from the directory name
//! and its `author` from the user's configuration; both are escaped
//! so that the rendered document is always valid JSON.  `init` never
//! overwrites an existing manifest.

use vstd::prelude::*;
use crate::json::{wf_str, is_esc_code, is_hex, quote, backslash};
use crate::manifest::{
    Manifest, ManifestValue, MVal, deps_key, version_key, spec_format, format_manifest,
    wf_manifest, wf_mval, strs_view, entries_view, lemma_load_format, spec_load, UpdateError,
};

verus! {

/// One lowercase hex digit.
pub open spec fn hex_digit_of(n: nat) -> u8 {
    if n < 10 {
        (48 + n) as u8
    } else {
        (87 + n) as u8
    }
}

/// The escaped form of one byte of string content.
pub open spec fn esc1(b: u8) -> Seq<u8> {
    if b == 34 {
        seq![92u8, 34u8]
    } else if b == 92 {
        seq![92u8, 92u8]
    } else if b == 8 {
        seq![92u8, 98u8]
    } else if b == 12 {
        seq![92u8, 102u8]
    } else if b == 10 {
        seq![92u8, 110u8]
    } else if b == 13 {
        seq![92u8, 114u8]
    } else if b == 9 {
        seq![92u8, 116u8]
    } else if b < 32 {
        seq![92u8, 117u8, 48u8, 48u8, hex_digit_of((b / 16) as nat), hex_digit_of((b % 16) as nat)]
    } else {
        seq![b]
    }
}

/// Escape arbitrary bytes into well-formed string content.
pub open spec fn spec_escape(s: Seq<u8>) -> Seq<u8>
    decreases s.len(),
{
    if s.len() == 0 {
        Seq::empty()
    } else {
        esc1(s[0]) + spec_escape(s.skip(1))
    }
}

/// Escaping always yields well-formed string content.
pub proof fn lemma_escape_wf(s: Seq<u8>)
    ensures
        wf_str(spec_escape(s)),
    decreases s.len(),
{
    if s.len() > 0 {
        lemma_escape_wf(s.skip(1));
        let b = s[0];
        let w = esc1(b) + spec_escape(s.skip(1));
        if b == 34 || b == 92 || b == 8 || b == 12 || b == 10 || b == 13 || b == 9 {
            assert(w[0] == backslash() && is_esc_code(w[1]));
            assert(w.skip(2) =~= spec_escape(s.skip(1)));
        } else if b < 32 {
            assert(w[0] == backslash() && w[1] == 117);
            assert(is_hex(w[2]) && is_hex(w[3]) && is_hex(w[4]) && is_hex(w[5]));
            assert(w.skip(6) =~= spec_escape(s.skip(1)));
        } else {
            assert(w[0] == b && b >= 32 && b != quote() && b != backslash());
            assert(w.skip(1) =~= spec_escape(s.skip(1)));
        }
    }
}

/// Escape the bytes of `s` for use as JSON string content.
pub fn escape_bytes(s: &Vec<u8>) -> (r: Vec<u8>)
    ensures
        r@ == spec_escape(s@),
{
    proof {
        assert(s@.skip(0) =~= s@);
    }
    escape_from(s, 0)
}

fn escape_from(s: &Vec<u8>, i: usize) -> (r: Vec<u8>)
    requires
        i <= s@.len(),
    ensures
        r@ == spec_escape(s@.skip(i as int)),
    decreases s@.len() - i,
{
    let ghost t = s@.skip(i as int);
    if i == s.len() {
        proof {
            assert(t =~= Seq::<u8>::empty());
        }
        Vec::new()
    } else {
        let b = s[i];
        proof {
            assert(t[0] == b);
            assert(t.skip(1) =~= s@.skip(i + 1));
        }
        let mut out: Vec<u8> = Vec::new();
        if b == 34 || b == 92 {
            out.push(92);
            out.push(b);
        } else if b == 8 {
            out.push(92);
            out.push(98);
        } else if b == 12 {
            out.push(92);
            out.push(102);
        } else if b == 10 {
            out.push(92);
            out.push(110);
        } else if b == 13 {
            out.push(92);
            out.push(114);
        } else if b == 9 {
            out.push(92);
            out.push(116);
        } else if b < 32 {
            out.push(92);
            out.push(117);
            out.push(48);
            out.push(48);
            let hi = b / 16;
            let lo = b % 16;
            if hi < 10 {
                out.push(48 + hi);
            } else {
                out.push(87 + hi);
            }
            if lo < 10 {
                out.push(48 + lo);
            } else {
                out.push(87 + lo);
            }
        } else {
            out.push(b);
        }
        proof {
            assert(out@ =~= esc1(b));
        }
        let mut rest = escape_from(s, i + 1);
        let ghost restg = rest@;
        out.append(&mut rest);
        proof {
            assert(out@ =~= esc1(t[0]) + restg);
        }
        out
    }
}

pub open spec fn name_key() -> Seq<u8> {
    seq![110u8, 97u8, 109u8, 101u8]
}

pub open spec fn title_key() -> Seq<u8> {
    seq![116u8, 105u8, 116u8, 108u8, 101u8]
}

pub open spec fn author_key() -> Seq<u8> {
    seq![97u8, 117u8, 116u8, 104u8, 111u8, 114u8]
}

pub open spec fn factorio_version_key() -> Seq<u8> {
    seq![
        102u8, 97u8, 99u8, 116u8, 111u8, 114u8, 105u8, 111u8, 95u8, 118u8, 101u8, 114u8, 115u8,
        105u8, 111u8, 110u8,
    ]
}

/// The bytes of `0.0.1`.
pub open spec fn initial_version() -> Seq<u8> {
    seq![48u8, 46u8, 48u8, 46u8, 49u8]
}

/// The bytes of `1.1`.
pub open spec fn initial_factorio_version() -> Seq<u8> {
    seq![49u8, 46u8, 49u8]
}

/// The bytes of `base`.
pub open spec fn base_dep() -> Seq<u8> {
    seq![98u8, 97u8, 115u8, 101u8]
}

/// The manifest that `init` writes: `name` and `title` from the
/// directory name, `author` from configuration, version `0.0.1`,
/// `factorio_version` `1.1`, and `base` as the one dependency.
pub open spec fn spec_init_manifest(name: Seq<u8>, author: Seq<u8>) -> Seq<(Seq<u8>, MVal)> {
    seq![
        (name_key(), MVal::Str(spec_escape(name))),
        (version_key(), MVal::Str(initial_version())),
        (title_key(), MVal::Str(spec_escape(name))),
        (author_key(), MVal::Str(spec_escape(author))),
        (factorio_version_key(), MVal::Str(initial_factorio_version())),
        (deps_key(), MVal::StrArr(seq![base_dep()])),
    ]
}

/// The fresh manifest always loads back to exactly what was written.
pub proof fn lemma_init_manifest_loads(name: Seq<u8>, author: Seq<u8>)
    ensures
        wf_manifest(spec_init_manifest(name, author)),
        spec_load(spec_format(spec_init_manifest(name, author))) == Ok::<
            Seq<(Seq<u8>, MVal)>,
            UpdateError,
        >(spec_init_manifest(name, author)),
{
    let m = spec_init_manifest(name, author);
    lemma_escape_wf(name);
    lemma_escape_wf(author);
    assert(name_key().len() == 4 && title_key().len() == 5 && author_key().len() == 6
        && factorio_version_key().len() == 16 && version_key().len() == 7 && deps_key().len()
        == 12);
    assert forall|i: int| 0 <= i < m.len() implies wf_str(#[trigger] m[i].0) && wf_mval(
        m[i].0,
        m[i].1,
    ) by {
        crate::json::lemma_wf_str_plain(name_key());
        crate::json::lemma_wf_str_plain(title_key());
        crate::json::lemma_wf_str_plain(author_key());
        crate::json::lemma_wf_str_plain(factorio_version_key());
        crate::json::lemma_wf_str_plain(version_key());
        crate::json::lemma_wf_str_plain(deps_key());
        crate::json::lemma_wf_str_plain(initial_version());
        crate::json::lemma_wf_str_plain(initial_factorio_version());
        crate::json::lemma_wf_str_plain(base_dep());
    }
    lemma_load_format(m);
}

/// Render the manifest that `init` writes, for the given directory
/// name and configured author.
pub fn render_init_manifest(name: &Vec<u8>, author: &Vec<u8>) -> (r: Vec<u8>)
    ensures
        r@ == spec_format(spec_init_manifest(name@, author@)),
{
    let ghost mspec = spec_init_manifest(name@, author@);
    let mut entries: Vec<(Vec<u8>, ManifestValue)> = Vec::new();

    let mut k_name: Vec<u8> = Vec::new();
    k_name.push(110);
    k_name.push(97);
    k_name.push(109);
    k_name.push(101);
    proof {
        assert(k_name@ =~= name_key());
    }
    entries.push((k_name, ManifestValue::Str(escape_bytes(name))));

    let mut k_version: Vec<u8> = Vec::new();
    k_version.push(118);
    k_version.push(101);
    k_version.push(114);
    k_version.push(115);
    k_version.push(105);
    k_version.push(111);
    k_version.push(110);
    proof {
        assert(k_version@ =~= version_key());
    }
    let mut v_version: Vec<u8> = Vec::new();
    v_version.push(48);
    v_version.push(46);
    v_version.push(48);
    v_version.push(46);
    v_version.push(49);
    proof {
        assert(v_version@ =~= initial_version());
    }
    entries.push((k_version, ManifestValue::Str(v_version)));

    let mut k_title: Vec<u8> = Vec::new();
    k_title.push(116);
    k_title.push(105);
    k_title.push(116);
    k_title.push(108);
    k_title.push(101);
    proof {
        assert(k_title@ =~= title_key());
    }
    entries.push((k_title, ManifestValue::Str(escape_bytes(name))));

    let mut k_author: Vec<u8> = Vec::new();
    k_author.push(97);
    k_author.push(117);
    k_author.push(116);
    k_author.push(104);
    k_author.push(111);
    k_author.push(114);
    proof {
        assert(k_author@ =~= author_key());
    }
    entries.push((k_author, ManifestValue::Str(escape_bytes(author))));

    let mut k_fv: Vec<u8> = Vec::new();
    k_fv.push(102);
    k_fv.push(97);
    k_fv.push(99);
    k_fv.push(116);
    k_fv.push(111);
    k_fv.push(114);
    k_fv.push(105);
    k_fv.push(111);
    k_fv.push(95);
    k_fv.push(118);
    k_fv.push(101);
    k_fv.push(114);
    k_fv.push(115);
    k_fv.push(105);
    k_fv.push(111);
    k_fv.push(110);
    proof {
        assert(k_fv@ =~= factorio_version_key());
    }
    let mut v_fv: Vec<u8> = Vec::new();
    v_fv.push(49);
    v_fv.push(46);
    v_fv.push(49);
    proof {
        assert(v_fv@ =~= initial_factorio_version());
    }
    entries.push((k_fv, ManifestValue::Str(v_fv)));

    let mut k_deps: Vec<u8> = Vec::new();
    k_deps.push(100);
    k_deps.push(101);
    k_deps.push(112);
    k_deps.push(101);
    k_deps.push(110);
    k_deps.push(100);
    k_deps.push(101);
    k_deps.push(110);
    k_deps.push(99);
    k_deps.push(105);
    k_deps.push(101);
    k_deps.push(115);
    proof {
        assert(k_deps@ =~= deps_key());
    }
    let mut v_base: Vec<u8> = Vec::new();
    v_base.push(98);
    v_base.push(97);
    v_base.push(115);
    v_base.push(101);
    proof {
        assert(v_base@ =~= base_dep());
    }
    let mut deps: Vec<Vec<u8>> = Vec::new();
    deps.push(v_base);
    proof {
        assert(strs_view(deps@) =~= seq![base_dep()]);
    }
    entries.push((k_deps, ManifestValue::StrArr(deps)));

    let m = Manifest { entries };
    proof {
        assert(m@ =~= mspec);
    }
    format_manifest(&m)
}

/// What `init` does, given whether `info.json` already exists: a
/// directory that has a manifest keeps it untouched, with nothing to
/// write; an empty one receives the fresh skeleton.
pub fn init_action(manifest_exists: bool, name: &Vec<u8>, author: &Vec<u8>) -> (r: Option<
    Vec<u8>,
>)
    ensures
        manifest_exists ==> r is None,
        !manifest_exists ==> (r matches Some(b) && b@ == spec_format(
            spec_init_manifest(name@, author@),
        )),
{
    if manifest_exists {
        None
    } else {
        Some(render_init_manifest(name, author))
    }
}

} // verus!
