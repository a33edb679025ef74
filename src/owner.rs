//! Permission strings for long listings.

use vstd::prelude::*;
use vstd::string::*;

verus! {

/// The three classes of a file's permission bits.
#[derive(Debug, Clone, Copy, PartialEq, Eq, Structural)]
pub enum Owner {
    User,
    Group,
    Other,
}

pub open spec fn masks_of(owner: Owner) -> Seq<u32> {
    match owner {
        Owner::User => seq![0o400u32, 0o200u32, 0o100u32],
        Owner::Group => seq![0o040u32, 0o020u32, 0o010u32],
        Owner::Other => seq![0o004u32, 0o002u32, 0o001u32],
    }
}

impl Owner {
    /// The read, write and execute bits of this class.
    pub fn masks(&self) -> (r: [u32; 3])
        ensures
            r@ == masks_of(*self),
    {
        let r = match self {
            Owner::User => [0o400, 0o200, 0o100],
            Owner::Group => [0o040, 0o020, 0o010],
            Owner::Other => [0o004, 0o002, 0o001],
        };
        assert(r@ =~= masks_of(*self));
        r
    }
}

pub open spec fn flag(set: bool, c: char) -> char {
    if set {
        c
    } else {
        '-'
    }
}

/// `rwx`, with `-` for each bit of the class that `mode` lacks.
pub open spec fn triple_of(mode: u32, owner: Owner) -> Seq<char> {
    let m = masks_of(owner);
    seq![flag(mode & m[0] != 0, 'r'), flag(mode & m[1] != 0, 'w'), flag(mode & m[2] != 0, 'x')]
}

fn flag_str(set: bool, c: &'static str) -> (r: &'static str)
    requires
        c@.len() == 1,
    ensures
        r@ == seq![flag(set, c@[0])],
{
    proof {
        reveal_strlit("-");
    }
    if set {
        assert(c@ =~= seq![c@[0]]);
        c
    } else {
        "-"
    }
}

/// The permission triple of one class of owners.
pub fn mk_triple(mode: u32, owner: Owner) -> (r: String)
    ensures
        r@ == triple_of(mode, owner),
{
    let m = owner.masks();
    proof {
        reveal_strlit("r");
        reveal_strlit("w");
        reveal_strlit("x");
    }
    let mut r = String::from_str(flag_str(mode & m[0] != 0, "r"));
    r.append(flag_str(mode & m[1] != 0, "w"));
    r.append(flag_str(mode & m[2] != 0, "x"));
    assert(r@ =~= triple_of(mode, owner));
    r
}

/// A file mode such as `0o751` as `rwxr-x--x`.
pub fn format_mode(mode: u32) -> (r: String)
    ensures
        r@ == triple_of(mode, Owner::User) + triple_of(mode, Owner::Group) + triple_of(
            mode,
            Owner::Other,
        ),
{
    let mut r = mk_triple(mode, Owner::User);
    let g = mk_triple(mode, Owner::Group);
    let o = mk_triple(mode, Owner::Other);
    r.append(g.as_str());
    r.append(o.as_str());
    r
}

} // verus!
