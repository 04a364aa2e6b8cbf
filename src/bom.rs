use vstd::prelude::*;
use vstd::string::StringSliceAdditionalSpecFns;

use crate::collect::Package;
use crate::license::{join_names, license_names, package_licenses, Licenses};
use crate::order::{
    bytes_lt, compare_bytes, keys_lt, lemma_keys_lt_irreflexive, lemma_keys_lt_transitive,
    lemma_sorted_bytes_unique, lemma_sorted_keys_unique, sorted_bytes, sorted_keys,
};
use crate::text::{copy_bytes, views};

verus! {

/// One row of the bill of materials.
pub struct BomEntry {
    pub name: Vec<u8>,
    pub version: Vec<u8>,
    /// The license text shown in the table.
    pub licenses: Vec<u8>,
    /// Paths of the package's license files, in the order in which they were found.
    pub license_files: Vec<Vec<u8>>,
}

/// The four fields of an entry as one sequence, in the order that sorts entries.
pub open spec fn entry_key(e: BomEntry) -> Seq<Seq<u8>> {
    seq![e.name@, e.version@, e.licenses@] + views(e.license_files@)
}

pub open spec fn entry_keys(es: Seq<BomEntry>) -> Seq<Seq<Seq<u8>>> {
    Seq::new(es.len(), |i: int| entry_key(es[i]))
}

/// The license names of an expression in ascending order.
pub open spec fn sorted_license_names(expr: Seq<u8>) -> Seq<Seq<u8>> {
    choose|ns: Seq<Seq<u8>>| sorted_bytes(ns) && ns.to_set() == license_names(expr)
}

/// The license text of the table for a package with these declarations.
pub open spec fn license_text(license: Option<Seq<u8>>, license_file: Option<Seq<u8>>) -> Seq<u8> {
    match license {
        Some(expr) => join_names(sorted_license_names(expr)),
        None => match license_file {
            Some(_) => "Specified in license file".spec_bytes(),
            None => "Missing".spec_bytes(),
        },
    }
}

pub open spec fn opt_view(o: Option<Vec<u8>>) -> Option<Seq<u8>> {
    match o {
        Some(v) => Some(v@),
        None => None,
    }
}

proof fn lemma_keys_cons(x: Seq<u8>, s: Seq<Seq<u8>>, y: Seq<u8>, t: Seq<Seq<u8>>)
    ensures
        keys_lt(seq![x] + s, seq![y] + t) == if x != y {
            bytes_lt(x, y)
        } else {
            keys_lt(s, t)
        },
{
    assert((seq![x] + s).drop_first() =~= s);
    assert((seq![y] + t).drop_first() =~= t);
}

/// Compares two lists of byte strings lexicographically.
fn compare_lists(a: &Vec<Vec<u8>>, b: &Vec<Vec<u8>>) -> (r: i8)
    ensures
        r < 0 <==> keys_lt(views(a@), views(b@)),
        r == 0 <==> views(a@) == views(b@),
        r > 0 <==> keys_lt(views(b@), views(a@)),
{
    let ghost va = views(a@);
    let ghost vb = views(b@);
    let mut i: usize = 0;
    assert(va.skip(0) =~= va);
    assert(vb.skip(0) =~= vb);
    proof {
        lemma_keys_lt_irreflexive(va);
    }
    while i < a.len() && i < b.len()
        invariant
            va == views(a@),
            vb == views(b@),
            i <= va.len(),
            i <= vb.len(),
            va.subrange(0, i as int) == vb.subrange(0, i as int),
            keys_lt(va, vb) == keys_lt(va.skip(i as int), vb.skip(i as int)),
            keys_lt(vb, va) == keys_lt(vb.skip(i as int), va.skip(i as int)),
        decreases va.len() - i,
    {
        let c = compare_bytes(a[i].as_slice(), b[i].as_slice());
        assert(va[i as int] == a@[i as int]@);
        assert(vb[i as int] == b@[i as int]@);
        if c != 0 {
            assert(va.skip(i as int)[0] == va[i as int]);
            assert(vb.skip(i as int)[0] == vb[i as int]);
            if c < 0 {
                return -1;
            } else {
                return 1;
            }
        }
        assert(va.skip(i as int).drop_first() =~= va.skip(i + 1));
        assert(vb.skip(i as int).drop_first() =~= vb.skip(i + 1));
        assert(va.subrange(0, i + 1) =~= va.subrange(0, i as int).push(va[i as int]));
        assert(vb.subrange(0, i + 1) =~= vb.subrange(0, i as int).push(vb[i as int]));
        i = i + 1;
    }
    if a.len() < b.len() {
        assert(va.skip(i as int).len() == 0);
        -1
    } else if b.len() < a.len() {
        assert(vb.skip(i as int).len() == 0);
        1
    } else {
        assert(va =~= va.subrange(0, i as int));
        assert(vb =~= vb.subrange(0, i as int));
        0
    }
}

/// Compares two entries by name, version, license text and license files, in turn.
pub fn compare_entries(x: &BomEntry, y: &BomEntry) -> (r: i8)
    ensures
        r < 0 <==> keys_lt(entry_key(*x), entry_key(*y)),
        r == 0 <==> entry_key(*x) == entry_key(*y),
        r > 0 <==> keys_lt(entry_key(*y), entry_key(*x)),
{
    let ghost fx = views(x.license_files@);
    let ghost fy = views(y.license_files@);
    proof {
        assert(entry_key(*x) =~= seq![x.name@] + (seq![x.version@] + (seq![x.licenses@] + fx)));
        assert(entry_key(*y) =~= seq![y.name@] + (seq![y.version@] + (seq![y.licenses@] + fy)));
        lemma_keys_cons(x.name@, seq![x.version@] + (seq![x.licenses@] + fx), y.name@, seq![y.version@] + (seq![y.licenses@] + fy));
        lemma_keys_cons(y.name@, seq![y.version@] + (seq![y.licenses@] + fy), x.name@, seq![x.version@] + (seq![x.licenses@] + fx));
        lemma_keys_cons(x.version@, seq![x.licenses@] + fx, y.version@, seq![y.licenses@] + fy);
        lemma_keys_cons(y.version@, seq![y.licenses@] + fy, x.version@, seq![x.licenses@] + fx);
        lemma_keys_cons(x.licenses@, fx, y.licenses@, fy);
        lemma_keys_cons(y.licenses@, fy, x.licenses@, fx);
        lemma_keys_lt_irreflexive(entry_key(*x));
    }
    let c = compare_bytes(x.name.as_slice(), y.name.as_slice());
    if c != 0 {
        return c;
    }
    let c = compare_bytes(x.version.as_slice(), y.version.as_slice());
    if c != 0 {
        return c;
    }
    let c = compare_bytes(x.licenses.as_slice(), y.licenses.as_slice());
    if c != 0 {
        return c;
    }
    let c = compare_lists(&x.license_files, &y.license_files);
    if c == 0 {
        assert(entry_key(*x) =~= entry_key(*y));
    }
    c
}

/// Inserts `e` into the ascending list `es` unless an equal entry is there already.
fn insert_entry(es: &mut Vec<BomEntry>, e: BomEntry)
    requires
        sorted_keys(entry_keys(old(es)@)),
    ensures
        sorted_keys(entry_keys(final(es)@)),
        entry_keys(final(es)@).to_set() == entry_keys(old(es)@).to_set().insert(entry_key(e)),
{
    let ghost v = entry_keys(es@);
    let ghost t = entry_key(e);
    let mut i: usize = 0;
    let mut stop = false;
    while !stop && i < es.len()
        invariant
            entry_keys(es@) == v,
            sorted_keys(v),
            i <= v.len(),
            t == entry_key(e),
            forall|k: int| 0 <= k < i ==> keys_lt(#[trigger] v[k], t),
            stop ==> i < v.len() && keys_lt(t, v[i as int]),
        decreases v.len() - i, if stop { 0int } else { 1int },
    {
        let c = compare_entries(&es[i], &e);
        assert(v[i as int] == entry_key(es@[i as int]));
        if c == 0 {
            assert(v.to_set().insert(t) =~= v.to_set()) by {
                assert(v.contains(t));
            }
            return;
        }
        if c > 0 {
            stop = true;
        } else {
            i = i + 1;
        }
    }
    proof {
        assert forall|k: int| i <= k < v.len() implies keys_lt(t, #[trigger] v[k]) by {
            if k > i {
                lemma_keys_lt_transitive(t, v[i as int], v[k]);
            }
        }
    }
    es.insert(i, e);
    let ghost w = entry_keys(es@);
    assert(w =~= v.insert(i as int, t));
    assert(sorted_keys(w)) by {
        assert forall|a: int, b: int| 0 <= a < b < w.len() implies keys_lt(
            #[trigger] w[a],
            #[trigger] w[b],
        ) by {
            if b < i {
            } else if a < i && b == i {
            } else if a < i {
                lemma_keys_lt_transitive(v[a], t, v[b - 1]);
            } else if a == i {
            } else {
            }
        }
    }
    assert(w.to_set() =~= v.to_set().insert(t)) by {
        assert forall|x: Seq<Seq<u8>>| w.to_set().contains(x) implies v.to_set().insert(t).contains(x) by {
            let j = choose|j: int| 0 <= j < w.len() && w[j] == x;
            if j < i {
                assert(v[j] == x);
            } else if j > i {
                assert(v[j - 1] == x);
            }
        }
        assert forall|x: Seq<Seq<u8>>| v.to_set().insert(t).contains(x) implies w.to_set().contains(x) by {
            if x == t {
                assert(w[i as int] == x);
            } else {
                let j = choose|j: int| 0 <= j < v.len() && v[j] == x;
                if j < i {
                    assert(w[j] == x);
                } else {
                    assert(w[j + 1] == x);
                }
            }
        }
    }
}

/// The bill of materials: the entries with equal ones collapsed, in ascending order of
/// name, version, license text and license files.
pub fn build_bom(entries: Vec<BomEntry>) -> (r: Vec<BomEntry>)
    ensures
        sorted_keys(entry_keys(r@)),
        entry_keys(r@).to_set() == entry_keys(entries@).to_set(),
{
    let ghost all = entry_keys(entries@).to_set();
    let mut rest = entries;
    let mut out: Vec<BomEntry> = Vec::new();
    assert(entry_keys(out@).to_set() =~= Set::empty());
    assert(entry_keys(rest@).to_set().union(Set::empty()) =~= all);
    while rest.len() > 0
        invariant
            sorted_keys(entry_keys(out@)),
            entry_keys(rest@).to_set().union(entry_keys(out@).to_set()) == all,
        decreases rest@.len(),
    {
        let ghost before_rest = rest@;
        let ghost before_out = entry_keys(out@).to_set();
        let e = rest.pop().unwrap();
        assert(entry_keys(before_rest) =~= entry_keys(rest@).push(entry_key(e)));
        proof {
            entry_keys(rest@).lemma_push_to_set_commute(entry_key(e));
        }
        insert_entry(&mut out, e);
        assert(entry_keys(rest@).to_set().union(entry_keys(out@).to_set()) =~= all);
    }
    assert(entry_keys(rest@).to_set() =~= Set::empty());
    assert(entry_keys(out@).to_set() =~= all);
    out
}

/// The entry of a package: its name and version, its license text, and the license
/// files found in its directory.
pub fn bom_entry(package: &Package, license_files: Vec<Vec<u8>>) -> (e: BomEntry)
    ensures
        e.name@ == package.id.name@,
        e.version@ == package.id.version@,
        e.licenses@ == license_text(opt_view(package.license), opt_view(package.license_file)),
        views(e.license_files@) == views(license_files@),
{
    let license = match &package.license {
        Some(l) => Some(l.as_slice()),
        None => None,
    };
    let license_file = match &package.license_file {
        Some(f) => Some(f.as_slice()),
        None => None,
    };
    let lic = package_licenses(license, license_file);
    let text = lic.display();
    proof {
        if let Licenses::Names(ns) = lic {
            let expr = package.license->0@;
            assert(sorted_bytes(views(ns@)) && views(ns@).to_set() == license_names(expr));
            let q = sorted_license_names(expr);
            assert(sorted_bytes(q) && q.to_set() == license_names(expr));
            lemma_sorted_bytes_unique(views(ns@), q);
        }
    }
    BomEntry {
        name: copy_bytes(package.id.name.as_slice()),
        version: copy_bytes(package.id.version.as_slice()),
        licenses: text,
        license_files,
    }
}

/// Any two lists that `build_bom` may return for the same set of entries are equal,
/// entry by entry and in the same order: the report depends on the set alone.
pub proof fn lemma_bom_order_determined(a: Seq<BomEntry>, b: Seq<BomEntry>)
    requires
        sorted_keys(entry_keys(a)),
        sorted_keys(entry_keys(b)),
        entry_keys(a).to_set() == entry_keys(b).to_set(),
    ensures
        entry_keys(a) == entry_keys(b),
{
    lemma_sorted_keys_unique(entry_keys(a), entry_keys(b));
}

} // verus!
