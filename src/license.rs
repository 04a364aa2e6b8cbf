use vstd::prelude::*;
use vstd::string::StringSliceAdditionalSpecFns;

use crate::order::{bytes_lt, compare_bytes, lemma_bytes_lt_transitive, sorted_bytes};
use crate::text::{append_range, append_text, copy_bytes, views};

verus! {

/// How a package declares its license.
pub enum Licenses {
    /// The distinct license names of a license expression, in ascending byte order.
    Names(Vec<Vec<u8>>),
    /// No expression, but the name of a file that holds the license.
    File(Vec<u8>),
    /// Neither an expression nor a file.
    Missing,
}

/// Length of the separator ("OR", "AND" or "/") that starts at `i`, or 0.
pub open spec fn separator_len(s: Seq<u8>, i: int) -> int {
    if i + 2 <= s.len() && s[i] == 79u8 && s[i + 1] == 82u8 {
        2
    } else if s.len() - i >= 3 && s[i] == 65u8 && s[i + 1] == 78u8 && s[i + 2] == 68u8 {
        3
    } else if 0 <= i < s.len() && s[i] == 47u8 {
        1
    } else {
        0
    }
}

/// The pieces of `s` from `start` on, scanning from `i`, split at every separator.
pub open spec fn pieces_from(s: Seq<u8>, start: int, i: int) -> Seq<Seq<u8>>
    decreases s.len() - i,
{
    if i >= s.len() {
        seq![s.subrange(start, s.len() as int)]
    } else if separator_len(s, i) > 0 {
        seq![s.subrange(start, i)] + pieces_from(s, i + separator_len(s, i), i + separator_len(s, i))
    } else {
        pieces_from(s, start, i + 1)
    }
}

/// The pieces of a license expression between its separators, untrimmed.
pub open spec fn pieces(s: Seq<u8>) -> Seq<Seq<u8>> {
    pieces_from(s, 0, 0)
}

/// A one-byte white space character: tab, line feed, vertical tab, form feed, carriage
/// return or space.
pub open spec fn is_space1(a: u8) -> bool {
    a == 32u8 || (9u8 <= a && a <= 13u8)
}

/// The UTF-8 form of U+0085 or U+00A0.
pub open spec fn is_space2(a: u8, b: u8) -> bool {
    a == 0xC2u8 && (b == 0x85u8 || b == 0xA0u8)
}

/// The UTF-8 form of U+1680, U+2000 to U+200A, U+2028, U+2029, U+202F, U+205F or U+3000.
pub open spec fn is_space3(a: u8, b: u8, c: u8) -> bool {
    ||| a == 0xE1u8 && b == 0x9Au8 && c == 0x80u8
    ||| a == 0xE2u8 && b == 0x80u8 && ((0x80u8 <= c && c <= 0x8Au8) || c == 0xA8u8 || c == 0xA9u8
        || c == 0xAFu8)
    ||| a == 0xE2u8 && b == 0x81u8 && c == 0x9Fu8
    ||| a == 0xE3u8 && b == 0x80u8 && c == 0x80u8
}

/// Length in bytes of the white space character (Unicode White_Space, as
/// `char::is_whitespace` reads it) that `s` starts with, or 0.
pub open spec fn lead_space(s: Seq<u8>) -> int {
    if s.len() >= 1 && is_space1(s[0]) {
        1
    } else if s.len() >= 2 && is_space2(s[0], s[1]) {
        2
    } else if s.len() >= 3 && is_space3(s[0], s[1], s[2]) {
        3
    } else {
        0
    }
}

/// Length in bytes of the white space character that `s` ends with, or 0.
pub open spec fn trail_space(s: Seq<u8>) -> int {
    let n = s.len() as int;
    if n >= 1 && is_space1(s[n - 1]) {
        1
    } else if n >= 2 && is_space2(s[n - 2], s[n - 1]) {
        2
    } else if n >= 3 && is_space3(s[n - 3], s[n - 2], s[n - 1]) {
        3
    } else {
        0
    }
}

pub open spec fn trim_start(s: Seq<u8>) -> Seq<u8>
    decreases s.len(),
{
    if lead_space(s) > 0 {
        trim_start(s.skip(lead_space(s)))
    } else {
        s
    }
}

pub open spec fn trim_end(s: Seq<u8>) -> Seq<u8>
    decreases s.len(),
{
    if trail_space(s) > 0 {
        trim_end(s.take(s.len() - trail_space(s)))
    } else {
        s
    }
}

/// `s` without leading and trailing white space.
pub open spec fn trim(s: Seq<u8>) -> Seq<u8> {
    trim_end(trim_start(s))
}

/// The non-empty trimmed pieces of `ps`.
pub open spec fn name_set(ps: Seq<Seq<u8>>) -> Set<Seq<u8>> {
    Set::new(|t: Seq<u8>| t.len() > 0 && exists|j: int| 0 <= j < ps.len() && trim(ps[j]) == t)
}

/// The license names of an expression: its pieces, trimmed, without empty ones.
pub open spec fn license_names(s: Seq<u8>) -> Set<Seq<u8>> {
    name_set(pieces(s))
}

/// `ns` joined with ", ".
pub open spec fn join_names(ns: Seq<Seq<u8>>) -> Seq<u8>
    decreases ns.len(),
{
    if ns.len() == 0 {
        seq![]
    } else if ns.len() == 1 {
        ns[0]
    } else {
        join_names(ns.drop_last()) + ", ".spec_bytes() + ns.last()
    }
}

impl Licenses {
    pub open spec fn well_formed(&self) -> bool {
        match self {
            Licenses::Names(ns) => sorted_bytes(views(ns@)),
            _ => true,
        }
    }

    /// The text that stands for this declaration in the report's table.
    pub open spec fn display_spec(&self) -> Seq<u8> {
        match self {
            Licenses::Names(ns) => join_names(views(ns@)),
            Licenses::File(_) => "Specified in license file".spec_bytes(),
            Licenses::Missing => "Missing".spec_bytes(),
        }
    }

    /// The text that stands for this declaration in the report's table: the names
    /// joined with ", ", or a fixed text for a license file or for none.
    pub fn display(&self) -> (r: Vec<u8>)
        ensures
            r@ == self.display_spec(),
    {
        let mut out: Vec<u8> = Vec::new();
        match self {
            Licenses::Names(ns) => {
                let mut i: usize = 0;
                while i < ns.len()
                    invariant
                        i <= ns@.len(),
                        out@ == join_names(views(ns@).subrange(0, i as int)),
                    decreases ns@.len() - i,
                {
                    let ghost prev = views(ns@).subrange(0, i as int);
                    assert(views(ns@).subrange(0, i + 1).drop_last() =~= prev);
                    if i > 0 {
                        append_text(&mut out, ", ");
                    }
                    append_range(&mut out, ns[i].as_slice(), 0, ns[i].len());
                    assert(ns@[i as int]@.subrange(0, ns@[i as int]@.len() as int) =~= ns@[i as int]@);
                    if i == 0 {
                        assert(out@ =~= views(ns@).subrange(0, 1)[0]);
                    }
                    i = i + 1;
                }
                assert(views(ns@).subrange(0, i as int) =~= views(ns@));
            },
            Licenses::File(_) => {
                append_text(&mut out, "Specified in license file");
            },
            Licenses::Missing => {
                append_text(&mut out, "Missing");
            },
        }
        out
    }
}

/// Inserts `t` into the ascending list `names` unless it is there already.
fn insert_name(names: &mut Vec<Vec<u8>>, t: Vec<u8>)
    requires
        sorted_bytes(views(old(names)@)),
    ensures
        sorted_bytes(views(final(names)@)),
        views(final(names)@).to_set() == views(old(names)@).to_set().insert(t@),
{
    let ghost v = views(names@);
    let mut i: usize = 0;
    let mut stop = false;
    while !stop && i < names.len()
        invariant
            views(names@) == v,
            sorted_bytes(v),
            i <= v.len(),
            forall|k: int| 0 <= k < i ==> bytes_lt(#[trigger] v[k], t@),
            stop ==> i < v.len() && bytes_lt(t@, v[i as int]),
        decreases v.len() - i, if stop { 0int } else { 1int },
    {
        let c = compare_bytes(names[i].as_slice(), t.as_slice());
        assert(v[i as int] == names@[i as int]@);
        if c == 0 {
            assert(v.to_set().insert(t@) =~= v.to_set()) by {
                assert(v.contains(t@));
            }
            return;
        }
        if c > 0 {
            stop = true;
        } else {
            i = i + 1;
        }
    }
    proof {
        assert forall|k: int| i <= k < v.len() implies bytes_lt(t@, #[trigger] v[k]) by {
            if k > i {
                lemma_bytes_lt_transitive(t@, v[i as int], v[k]);
            }
        }
    }
    let ghost tv = t@;
    names.insert(i, t);
    let ghost w = views(names@);
    assert(w =~= v.insert(i as int, tv));
    assert(sorted_bytes(w)) by {
        assert forall|a: int, b: int| 0 <= a < b < w.len() implies bytes_lt(
            #[trigger] w[a],
            #[trigger] w[b],
        ) by {
            if b < i {
            } else if a < i && b == i {
            } else if a < i {
                lemma_bytes_lt_transitive(v[a], tv, v[b - 1]);
            } else if a == i {
            } else {
            }
        }
    }
    assert(w.to_set() =~= v.to_set().insert(tv)) by {
        assert forall|x: Seq<u8>| w.to_set().contains(x) implies v.to_set().insert(tv).contains(x) by {
            let j = choose|j: int| 0 <= j < w.len() && w[j] == x;
            if j < i {
                assert(v[j] == x);
            } else if j > i {
                assert(v[j - 1] == x);
            }
        }
        assert forall|x: Seq<u8>| v.to_set().insert(tv).contains(x) implies w.to_set().contains(x) by {
            if x == tv {
                assert(w[i as int] == x);
            } else {
                let j = choose|j: int| 0 <= j < v.len() && v[j] == x;
                if j < i {
                    assert(w[j] == x);
                } else {
                    assert(w[j + 1] == x);
                }
            }
        }
    }
}

/// The names of license expression `expr`: split at each "OR", "AND" and "/", each
/// piece trimmed, empty pieces dropped, the rest distinct and in ascending byte order.
pub fn parse_license_expression(expr: &[u8]) -> (r: Vec<Vec<u8>>)
    ensures
        sorted_bytes(views(r@)),
        views(r@).to_set() == license_names(expr@),
{
    let s = expr;
    let ghost sv = s@;
    let mut names: Vec<Vec<u8>> = Vec::new();
    let ghost mut done: Seq<Seq<u8>> = seq![];
    let mut start: usize = 0;
    let mut i: usize = 0;
    assert(views(names@).to_set() =~= name_set(done));
    loop
        invariant
            s@ == sv,
            expr@ == sv,
            start <= i <= sv.len(),
            pieces(sv) == done + pieces_from(sv, start as int, i as int),
            sorted_bytes(views(names@)),
            views(names@).to_set() == name_set(done),
        decreases sv.len() - i,
    {
        let at_end = i >= s.len();
        let k: usize = if at_end {
            0
        } else if s.len() - i >= 2 && s[i] == 79u8 && s[i + 1] == 82u8 {
            2
        } else if s.len() - i >= 3 && s[i] == 65u8 && s[i + 1] == 78u8 && s[i + 2] == 68u8 {
            3
        } else if s[i] == 47u8 {
            1
        } else {
            0
        };
        assert(!at_end ==> k == separator_len(sv, i as int));
        if at_end || k > 0 {
            let ghost piece = sv.subrange(start as int, i as int);
            let (lo, hi) = trim_bounds(s, start, i);
            if lo < hi {
                let mut t: Vec<u8> = Vec::new();
                append_range(&mut t, s, lo, hi);
                insert_name(&mut names, t);
            }
            proof {
                let nd = done.push(piece);
                assert(name_set(nd) =~= if trim(piece).len() > 0 {
                    name_set(done).insert(trim(piece))
                } else {
                    name_set(done)
                }) by {
                    assert forall|x: Seq<u8>| name_set(nd).contains(x) implies (if trim(
                        piece,
                    ).len() > 0 {
                        name_set(done).insert(trim(piece))
                    } else {
                        name_set(done)
                    }).contains(x) by {
                        let j = choose|j: int| 0 <= j < nd.len() && trim(nd[j]) == x;
                        if j < done.len() {
                            assert(trim(done[j]) == x);
                        }
                    }
                    if trim(piece).len() > 0 {
                        assert(trim(nd[done.len() as int]) == trim(piece));
                    }
                    assert forall|x: Seq<u8>| name_set(done).contains(x) implies name_set(
                        nd,
                    ).contains(x) by {
                        let j = choose|j: int| 0 <= j < done.len() && trim(done[j]) == x;
                        assert(nd[j] == done[j]);
                    }
                }
                if at_end {
                    assert(pieces_from(sv, start as int, i as int) == seq![piece]);
                    assert(pieces(sv) =~= nd);
                } else {
                    assert(pieces_from(sv, start as int, i as int) == seq![piece]
                        + pieces_from(sv, i + k, i + k));
                    assert(done + pieces_from(sv, start as int, i as int) =~= nd
                        + pieces_from(sv, i + k, i + k));
                }
                done = nd;
            }
            if at_end {
                assert(sv == expr@);
                assert(views(names@).to_set() == license_names(expr@));
                return names;
            }
            i = i + k;
            start = i;
        } else {
            i = i + 1;
        }
    }
}

/// Length of the white space character that `s[lo..hi]` starts with, or 0.
fn space_at_start(s: &[u8], lo: usize, hi: usize) -> (r: usize)
    requires
        lo <= hi <= s@.len(),
    ensures
        r as int == lead_space(s@.subrange(lo as int, hi as int)),
{
    let n = hi - lo;
    if n >= 1 && (s[lo] == 32u8 || (9u8 <= s[lo] && s[lo] <= 13u8)) {
        1
    } else if n >= 2 && s[lo] == 0xC2u8 && (s[lo + 1] == 0x85u8 || s[lo + 1] == 0xA0u8) {
        2
    } else if n >= 3 && is_space3_bytes(s[lo], s[lo + 1], s[lo + 2]) {
        3
    } else {
        0
    }
}

/// Length of the white space character that `s[lo..hi]` ends with, or 0.
fn space_at_end(s: &[u8], lo: usize, hi: usize) -> (r: usize)
    requires
        lo <= hi <= s@.len(),
    ensures
        r as int == trail_space(s@.subrange(lo as int, hi as int)),
{
    let n = hi - lo;
    if n >= 1 && (s[hi - 1] == 32u8 || (9u8 <= s[hi - 1] && s[hi - 1] <= 13u8)) {
        1
    } else if n >= 2 && s[hi - 2] == 0xC2u8 && (s[hi - 1] == 0x85u8 || s[hi - 1] == 0xA0u8) {
        2
    } else if n >= 3 && is_space3_bytes(s[hi - 3], s[hi - 2], s[hi - 1]) {
        3
    } else {
        0
    }
}

fn is_space3_bytes(a: u8, b: u8, c: u8) -> (r: bool)
    ensures
        r == is_space3(a, b, c),
{
    (a == 0xE1u8 && b == 0x9Au8 && c == 0x80u8) || (a == 0xE2u8 && b == 0x80u8 && ((0x80u8 <= c
        && c <= 0x8Au8) || c == 0xA8u8 || c == 0xA9u8 || c == 0xAFu8)) || (a == 0xE2u8 && b
        == 0x81u8 && c == 0x9Fu8) || (a == 0xE3u8 && b == 0x80u8 && c == 0x80u8)
}

/// Bounds of `s[start..end]` with white space cut from both ends.
fn trim_bounds(s: &[u8], start: usize, end: usize) -> (r: (usize, usize))
    requires
        start <= end <= s@.len(),
    ensures
        start <= r.0 <= r.1 <= end,
        s@.subrange(r.0 as int, r.1 as int) == trim(s@.subrange(start as int, end as int)),
{
    let mut lo: usize = start;
    loop
        invariant
            start <= lo <= end <= s@.len(),
            trim_start(s@.subrange(start as int, end as int)) == trim_start(
                s@.subrange(lo as int, end as int),
            ),
        ensures
            start <= lo <= end,
            lead_space(s@.subrange(lo as int, end as int)) == 0,
            trim_start(s@.subrange(start as int, end as int)) == trim_start(
                s@.subrange(lo as int, end as int),
            ),
        decreases end - lo,
    {
        let k = space_at_start(s, lo, end);
        if k == 0 {
            break;
        }
        assert(s@.subrange(lo as int, end as int).skip(k as int) =~= s@.subrange(
            lo + k,
            end as int,
        ));
        lo = lo + k;
    }
    let mut hi: usize = end;
    loop
        invariant
            start <= lo <= hi <= end <= s@.len(),
            trim_start(s@.subrange(start as int, end as int)) == s@.subrange(lo as int, end as int),
            trim_end(s@.subrange(lo as int, end as int)) == trim_end(
                s@.subrange(lo as int, hi as int),
            ),
        ensures
            lo <= hi <= end,
            trail_space(s@.subrange(lo as int, hi as int)) == 0,
            trim_end(s@.subrange(lo as int, end as int)) == trim_end(
                s@.subrange(lo as int, hi as int),
            ),
        decreases hi - lo,
    {
        let k = space_at_end(s, lo, hi);
        if k == 0 {
            break;
        }
        assert(s@.subrange(lo as int, hi as int).take(hi - lo - k) =~= s@.subrange(
            lo as int,
            hi - k,
        ));
        hi = hi - k;
    }
    (lo, hi)
}

/// The license declaration of a package: its expression if it has one, else its
/// license file if it names one, else none.
pub fn package_licenses(license: Option<&[u8]>, license_file: Option<&[u8]>) -> (r: Licenses)
    ensures
        r.well_formed(),
        match license {
            Some(expr) => r matches Licenses::Names(ns) && views(ns@).to_set() == license_names(
                expr@,
            ),
            None => match license_file {
                Some(f) => r matches Licenses::File(g) && g@ == f@,
                None => r matches Licenses::Missing,
            },
        },
{
    match license {
        Some(expr) => Licenses::Names(parse_license_expression(expr)),
        None => match license_file {
            Some(f) => Licenses::File(copy_bytes(f)),
            None => Licenses::Missing,
        },
    }
}

/// "OR", "AND" or "/".
pub open spec fn is_separator(x: Seq<u8>) -> bool {
    x == seq![79u8, 82u8] || x == seq![65u8, 78u8, 68u8] || x == seq![47u8]
}

/// No separator starts in `s` before position `n`.
pub open spec fn no_separator_before(s: Seq<u8>, n: int) -> bool {
    forall|j: int| 0 <= j < n ==> #[trigger] separator_len(s, j) == 0
}

proof fn lemma_pieces_shift(p: Seq<u8>, t: Seq<u8>, st: int, i: int)
    requires
        0 <= st <= i <= t.len(),
    ensures
        pieces_from(p + t, p.len() + st, p.len() + i) == pieces_from(t, st, i),
    decreases t.len() - i,
{
    let s = p + t;
    let n = p.len() as int;
    assert(s.subrange(n + st, n + i) =~= t.subrange(st, i));
    assert(s.subrange(n + st, s.len() as int) =~= t.subrange(st, t.len() as int));
    if i < t.len() {
        assert(s[n + i] == t[i]);
        if i + 1 < t.len() {
            assert(s[n + i + 1] == t[i + 1]);
        }
        if i + 2 < t.len() {
            assert(s[n + i + 2] == t[i + 2]);
        }
        assert(separator_len(s, n + i) == separator_len(t, i));
        let k = separator_len(t, i);
        if k > 0 {
            lemma_pieces_shift(p, t, i + k, i + k);
        } else {
            lemma_pieces_shift(p, t, st, i + 1);
        }
    }
}

proof fn lemma_pieces_skip_plain(s: Seq<u8>, i: int, n: int)
    requires
        0 <= i <= n < s.len(),
        no_separator_before(s, n),
    ensures
        pieces_from(s, 0, i) == pieces_from(s, 0, n),
    decreases n - i,
{
    if i < n {
        assert(separator_len(s, i) == 0);
        lemma_pieces_skip_plain(s, i + 1, n);
    }
}

proof fn lemma_pieces_first_separator(a: Seq<u8>, x: Seq<u8>, b: Seq<u8>)
    requires
        is_separator(x),
        no_separator_before(a + x + b, a.len() as int),
    ensures
        pieces(a + x + b) == seq![a] + pieces(b),
{
    let s = a + x + b;
    let n = a.len() as int;
    lemma_pieces_skip_plain(s, 0, n);
    assert(s[n] == x[0]);
    if x.len() > 1 {
        assert(s[n + 1] == x[1]);
    }
    if x.len() > 2 {
        assert(s[n + 2] == x[2]);
    }
    assert(separator_len(s, n) == x.len());
    assert(s.subrange(0, n) =~= a);
    assert(s =~= (a + x) + b);
    lemma_pieces_shift(a + x, b, 0, 0);
}

/// The three separators are alike: exchanging the first separator of an expression
/// for another one leaves its pieces, and so its license names, unchanged.
pub proof fn lemma_separators_interchangeable(a: Seq<u8>, x: Seq<u8>, y: Seq<u8>, b: Seq<u8>)
    requires
        is_separator(x),
        is_separator(y),
        no_separator_before(a + x + b, a.len() as int),
        no_separator_before(a + y + b, a.len() as int),
    ensures
        pieces(a + x + b) == pieces(a + y + b),
        license_names(a + x + b) == license_names(a + y + b),
{
    lemma_pieces_first_separator(a, x, b);
    lemma_pieces_first_separator(a, y, b);
}

} // verus!
