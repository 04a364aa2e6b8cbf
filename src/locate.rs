use vstd::prelude::*;
use vstd::string::StringSliceAdditionalSpecFns;

use crate::text::{copy_bytes, views};

verus! {

/// One entry of a package directory: its file name and its full path.
pub struct DirEntry {
    pub name: Vec<u8>,
    pub path: Vec<u8>,
}

/// Whether `name` begins with one of the license file prefixes, "LICENSE" or "UNLICENSE".
pub open spec fn is_license_name(name: Seq<u8>) -> bool {
    is_prefix("LICENSE".spec_bytes(), name) || is_prefix("UNLICENSE".spec_bytes(), name)
}

pub open spec fn is_prefix(p: Seq<u8>, s: Seq<u8>) -> bool {
    p.len() <= s.len() && s.subrange(0, p.len() as int) == p
}

/// The paths of the entries whose names mark them as license files, in entry order.
pub open spec fn license_paths(es: Seq<DirEntry>) -> Seq<Seq<u8>>
    decreases es.len(),
{
    if es.len() == 0 {
        seq![]
    } else if is_license_name(es.last().name@) {
        license_paths(es.drop_last()).push(es.last().path@)
    } else {
        license_paths(es.drop_last())
    }
}

fn starts_with(s: &[u8], p: &str) -> (r: bool)
    ensures
        r == is_prefix(p.spec_bytes(), s@),
{
    let pb = p.as_bytes();
    if pb.len() > s.len() {
        return false;
    }
    let mut i: usize = 0;
    while i < pb.len()
        invariant
            pb@ == p.spec_bytes(),
            pb@.len() <= s@.len(),
            i <= pb@.len(),
            s@.subrange(0, i as int) == pb@.subrange(0, i as int),
        decreases pb@.len() - i,
    {
        if s[i] != pb[i] {
            assert(s@.subrange(0, pb@.len() as int)[i as int] != pb@[i as int]);
            return false;
        }
        assert(s@.subrange(0, i + 1) =~= s@.subrange(0, i as int).push(s@[i as int]));
        assert(pb@.subrange(0, i + 1) =~= pb@.subrange(0, i as int).push(pb@[i as int]));
        i = i + 1;
    }
    assert(pb@.subrange(0, i as int) =~= pb@);
    true
}

/// Whether a file of this name holds a license: its name begins with "LICENSE" or
/// "UNLICENSE", case-sensitively.
pub fn is_license_file_name(name: &[u8]) -> (r: bool)
    ensures
        r == is_license_name(name@),
{
    starts_with(name, "LICENSE") || starts_with(name, "UNLICENSE")
}

/// The paths of the license files among the entries of a package directory, in the
/// order in which the directory listed them.
pub fn package_license_files(entries: &Vec<DirEntry>) -> (r: Vec<Vec<u8>>)
    ensures
        views(r@) == license_paths(entries@),
{
    let mut r: Vec<Vec<u8>> = Vec::new();
    let mut i: usize = 0;
    while i < entries.len()
        invariant
            i <= entries@.len(),
            views(r@) == license_paths(entries@.subrange(0, i as int)),
        decreases entries@.len() - i,
    {
        let ghost before = r@;
        assert(entries@.subrange(0, i + 1).drop_last() =~= entries@.subrange(0, i as int));
        if is_license_file_name(entries[i].name.as_slice()) {
            let p = copy_bytes(entries[i].path.as_slice());
            r.push(p);
            assert(views(r@) =~= views(before).push(entries@[i as int].path@));
        }
        i = i + 1;
    }
    assert(entries@.subrange(0, i as int) =~= entries@);
    r
}

} // verus!
