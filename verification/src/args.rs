//! The argument demultiplexer: picks the verb from the positional
//! arguments and the version mutation from the `update` subcommand.

use vstd::prelude::*;
use crate::manifest::strs_view;
use crate::update::{Mutation, MutationV, copy_bytes};

verus! {

/// What one invocation should do.
#[derive(Debug)]
pub enum Action {
    /// Write the manifest skeleton into the working directory.
    Init,
    /// Create the named directory, then initialize it.
    New(Vec<u8>),
    /// Run the update engine with the given mutation.
    Update(Mutation),
    /// The arguments are unusable: a missing verb, `new` without its
    /// name, or `set-version` without its argument.
    Usage,
    /// An unknown verb: do nothing.
    Nop,
}

/// The mathematical shape of an action.
pub enum ActionV {
    Init,
    New(Seq<u8>),
    Update(MutationV),
    Usage,
    Nop,
}

impl View for Action {
    type V = ActionV;

    open spec fn view(&self) -> ActionV {
        match self {
            Action::Init => ActionV::Init,
            Action::New(n) => ActionV::New(n@),
            Action::Update(mu) => ActionV::Update(mu@),
            Action::Usage => ActionV::Usage,
            Action::Nop => ActionV::Nop,
        }
    }
}

pub open spec fn init_word() -> Seq<u8> {
    seq![105u8, 110u8, 105u8, 116u8]
}

pub open spec fn new_word() -> Seq<u8> {
    seq![110u8, 101u8, 119u8]
}

pub open spec fn update_word() -> Seq<u8> {
    seq![117u8, 112u8, 100u8, 97u8, 116u8, 101u8]
}

pub open spec fn minor_word() -> Seq<u8> {
    seq![109u8, 105u8, 110u8, 111u8, 114u8]
}

pub open spec fn middle_word() -> Seq<u8> {
    seq![109u8, 105u8, 100u8, 100u8, 108u8, 101u8]
}

pub open spec fn major_word() -> Seq<u8> {
    seq![109u8, 97u8, 106u8, 111u8, 114u8]
}

pub open spec fn set_version_word() -> Seq<u8> {
    seq![115u8, 101u8, 116u8, 45u8, 118u8, 101u8, 114u8, 115u8, 105u8, 111u8, 110u8]
}

/// Route the positional arguments (program name excluded).  A
/// missing required positional — no verb at all, `new` without its
/// name, `set-version` without its argument — is a usage error; an
/// unknown verb does nothing; an unknown `update` subcommand falls
/// back to the normalizing rewrite.
pub open spec fn spec_route(args: Seq<Seq<u8>>) -> ActionV {
    if args.len() == 0 {
        ActionV::Usage
    } else if args[0] == init_word() {
        ActionV::Init
    } else if args[0] == new_word() {
        if args.len() >= 2 {
            ActionV::New(args[1])
        } else {
            ActionV::Usage
        }
    } else if args[0] == update_word() {
        if args.len() < 2 {
            ActionV::Update(MutationV::Normalize)
        } else if args[1] == minor_word() {
            ActionV::Update(MutationV::BumpMinor)
        } else if args[1] == middle_word() {
            ActionV::Update(MutationV::BumpMiddle)
        } else if args[1] == major_word() {
            ActionV::Update(MutationV::BumpMajor)
        } else if args[1] == set_version_word() {
            if args.len() >= 3 {
                ActionV::Update(MutationV::SetVersion(args[2]))
            } else {
                ActionV::Usage
            }
        } else {
            ActionV::Update(MutationV::Normalize)
        }
    } else {
        ActionV::Nop
    }
}

/// Are two byte vectors equal?
pub fn bytes_eq(a: &Vec<u8>, b: &Vec<u8>) -> (r: bool)
    ensures
        r == (a@ == b@),
{
    if a.len() != b.len() {
        proof {
            if a@ == b@ {
                assert(a@.len() == b@.len());
            }
        }
        return false;
    }
    let mut i: usize = 0;
    while i < a.len()
        invariant
            i <= a@.len(),
            a@.len() == b@.len(),
            forall|j: int| 0 <= j < i ==> #[trigger] a@[j] == b@[j],
        decreases a@.len() - i,
    {
        if a[i] != b[i] {
            return false;
        }
        i = i + 1;
    }
    proof {
        assert(a@ =~= b@);
    }
    true
}

fn w_init() -> (v: Vec<u8>)
    ensures
        v@ == init_word(),
{
    let mut v: Vec<u8> = Vec::new();
    v.push(105);
    v.push(110);
    v.push(105);
    v.push(116);
    proof {
        assert(v@ =~= init_word());
    }
    v
}

fn w_new() -> (v: Vec<u8>)
    ensures
        v@ == new_word(),
{
    let mut v: Vec<u8> = Vec::new();
    v.push(110);
    v.push(101);
    v.push(119);
    proof {
        assert(v@ =~= new_word());
    }
    v
}

fn w_update() -> (v: Vec<u8>)
    ensures
        v@ == update_word(),
{
    let mut v: Vec<u8> = Vec::new();
    v.push(117);
    v.push(112);
    v.push(100);
    v.push(97);
    v.push(116);
    v.push(101);
    proof {
        assert(v@ =~= update_word());
    }
    v
}

fn w_minor() -> (v: Vec<u8>)
    ensures
        v@ == minor_word(),
{
    let mut v: Vec<u8> = Vec::new();
    v.push(109);
    v.push(105);
    v.push(110);
    v.push(111);
    v.push(114);
    proof {
        assert(v@ =~= minor_word());
    }
    v
}

fn w_middle() -> (v: Vec<u8>)
    ensures
        v@ == middle_word(),
{
    let mut v: Vec<u8> = Vec::new();
    v.push(109);
    v.push(105);
    v.push(100);
    v.push(100);
    v.push(108);
    v.push(101);
    proof {
        assert(v@ =~= middle_word());
    }
    v
}

fn w_major() -> (v: Vec<u8>)
    ensures
        v@ == major_word(),
{
    let mut v: Vec<u8> = Vec::new();
    v.push(109);
    v.push(97);
    v.push(106);
    v.push(111);
    v.push(114);
    proof {
        assert(v@ =~= major_word());
    }
    v
}

fn w_set_version() -> (v: Vec<u8>)
    ensures
        v@ == set_version_word(),
{
    let mut v: Vec<u8> = Vec::new();
    v.push(115);
    v.push(101);
    v.push(116);
    v.push(45);
    v.push(118);
    v.push(101);
    v.push(114);
    v.push(115);
    v.push(105);
    v.push(111);
    v.push(110);
    proof {
        assert(v@ =~= set_version_word());
    }
    v
}

/// Route the positional arguments to an action.
pub fn route(args: &Vec<Vec<u8>>) -> (a: Action)
    ensures
        a@ == spec_route(strs_view(args@)),
{
    let ghost av = strs_view(args@);
    if args.len() == 0 {
        return Action::Usage;
    }
    proof {
        assert(av[0] == args@[0]@);
    }
    if bytes_eq(&args[0], &w_init()) {
        Action::Init
    } else if bytes_eq(&args[0], &w_new()) {
        if args.len() >= 2 {
            proof {
                assert(av[1] == args@[1]@);
            }
            Action::New(copy_bytes(&args[1]))
        } else {
            Action::Usage
        }
    } else if bytes_eq(&args[0], &w_update()) {
        if args.len() < 2 {
            Action::Update(Mutation::Normalize)
        } else {
            proof {
                assert(av[1] == args@[1]@);
            }
            if bytes_eq(&args[1], &w_minor()) {
                Action::Update(Mutation::BumpMinor)
            } else if bytes_eq(&args[1], &w_middle()) {
                Action::Update(Mutation::BumpMiddle)
            } else if bytes_eq(&args[1], &w_major()) {
                Action::Update(Mutation::BumpMajor)
            } else if bytes_eq(&args[1], &w_set_version()) {
                if args.len() >= 3 {
                    proof {
                        assert(av[2] == args@[2]@);
                    }
                    Action::Update(Mutation::SetVersion(copy_bytes(&args[2])))
                } else {
                    Action::Usage
                }
            } else {
                Action::Update(Mutation::Normalize)
            }
        }
    } else {
        Action::Nop
    }
}

} // verus!
