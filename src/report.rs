use vstd::prelude::*;
use vstd::string::StringSliceAdditionalSpecFns;

use crate::bom::BomEntry;
use crate::text::{append_range, append_text, copy_bytes, views};

verus! {

/// The text that tabwriter's `TabWriter`, with its default settings, makes of `text`.
pub uninterp spec fn tab_aligned(text: Seq<u8>) -> Seq<u8>;

/// Relies on `tabwriter::TabWriter` (minimum width 2, padding 2, left aligned) writing
/// into a `Vec<u8>`: the aligned text is a function of the input bytes alone, and since
/// writing into memory cannot fail, neither can `write_all` nor `into_inner` here.
#[verifier::external_body]
fn align_columns(text: &[u8]) -> (r: Vec<u8>)
    ensures
        r@ == tab_aligned(text@),
{
    let mut tw = tabwriter::TabWriter::new(Vec::new());
    let _ = std::io::Write::write_all(&mut tw, text);
    match tw.into_inner() {
        Ok(v) => v,
        Err(_) => Vec::new(),
    }
}

/// The two header lines of the table, cells separated by tabs.
pub open spec fn table_header() -> Seq<u8> {
    "Name\t| Version\t| Licenses\n----\t| -------\t| --------\n".spec_bytes()
}

/// The line of the table for one entry: name, version and license text.
pub open spec fn table_row(e: BomEntry) -> Seq<u8> {
    e.name@ + "\t| ".spec_bytes() + e.version@ + "\t| ".spec_bytes() + e.licenses@
        + "\n".spec_bytes()
}

/// The table before alignment: the header, then one line per entry in order.
pub open spec fn table_spec(es: Seq<BomEntry>) -> Seq<u8>
    decreases es.len(),
{
    if es.len() == 0 {
        table_header()
    } else {
        table_spec(es.drop_last()) + table_row(es.last())
    }
}

/// The table of the report before its columns are aligned: a header, then a line per
/// entry with its name, version and license text, cells separated by a tab and "| ".
pub fn table_text(entries: &Vec<BomEntry>) -> (r: Vec<u8>)
    ensures
        r@ == table_spec(entries@),
{
    let mut out: Vec<u8> = Vec::new();
    append_text(&mut out, "Name\t| Version\t| Licenses\n----\t| -------\t| --------\n");
    let mut i: usize = 0;
    while i < entries.len()
        invariant
            i <= entries@.len(),
            out@ == table_spec(entries@.subrange(0, i as int)),
        decreases entries@.len() - i,
    {
        assert(entries@.subrange(0, i + 1).drop_last() =~= entries@.subrange(0, i as int));
        let e = &entries[i];
        append_range(&mut out, e.name.as_slice(), 0, e.name.len());
        append_text(&mut out, "\t| ");
        append_range(&mut out, e.version.as_slice(), 0, e.version.len());
        append_text(&mut out, "\t| ");
        append_range(&mut out, e.licenses.as_slice(), 0, e.licenses.len());
        append_text(&mut out, "\n");
        assert(e.name@.subrange(0, e.name@.len() as int) =~= e.name@);
        assert(e.version@.subrange(0, e.version@.len() as int) =~= e.version@);
        assert(e.licenses@.subrange(0, e.licenses@.len() as int) =~= e.licenses@);
        assert(out@ =~= table_spec(entries@.subrange(0, i as int)) + table_row(*e));
        i = i + 1;
    }
    assert(entries@.subrange(0, i as int) =~= entries@);
    out
}

/// The table of the report with its columns aligned, followed by an empty line.
pub fn render_table(entries: &Vec<BomEntry>) -> (r: Vec<u8>)
    ensures
        r@ == tab_aligned(table_spec(entries@)) + "\n".spec_bytes(),
{
    let text = table_text(entries);
    let mut v = align_columns(text.as_slice());
    append_text(&mut v, "\n");
    v
}

/// One step of the license dump: bytes to write, or a license file whose contents to write.
pub enum DumpStep {
    Text(Vec<u8>),
    File(Vec<u8>),
}

/// A step as a pair: whether it names a file, and its bytes or path.
pub open spec fn step_view(s: DumpStep) -> (bool, Seq<u8>) {
    match s {
        DumpStep::Text(t) => (false, t@),
        DumpStep::File(p) => (true, p@),
    }
}

pub open spec fn step_views(ss: Seq<DumpStep>) -> Seq<(bool, Seq<u8>)> {
    Seq::new(ss.len(), |i: int| step_view(ss[i]))
}

pub open spec fn begin_marker(e: BomEntry) -> Seq<u8> {
    "-----BEGIN ".spec_bytes() + e.name@ + " ".spec_bytes() + e.version@
        + " LICENSES-----\n".spec_bytes()
}

pub open spec fn end_marker(e: BomEntry) -> Seq<u8> {
    "-----END ".spec_bytes() + e.name@ + " ".spec_bytes() + e.version@
        + " LICENSES-----\n".spec_bytes()
}

/// The files of one entry, with a separator line between each two.
pub open spec fn file_steps(fs: Seq<Seq<u8>>) -> Seq<(bool, Seq<u8>)>
    decreases fs.len(),
{
    if fs.len() == 0 {
        seq![]
    } else if fs.len() == 1 {
        seq![(true, fs[0])]
    } else {
        file_steps(fs.drop_last()) + seq![
            (false, "\n-----NEXT LICENSE-----\n".spec_bytes()),
            (true, fs.last()),
        ]
    }
}

/// The block of one entry: nothing if it has no license file, else its files between
/// a begin and an end line, then an empty line.
pub open spec fn entry_steps(e: BomEntry) -> Seq<(bool, Seq<u8>)> {
    if e.license_files@.len() == 0 {
        seq![]
    } else {
        seq![(false, begin_marker(e))] + file_steps(views(e.license_files@)) + seq![
            (false, end_marker(e)),
            (false, "\n".spec_bytes()),
        ]
    }
}

/// The blocks of all entries, in order.
pub open spec fn dump_spec(es: Seq<BomEntry>) -> Seq<(bool, Seq<u8>)>
    decreases es.len(),
{
    if es.len() == 0 {
        seq![]
    } else {
        dump_spec(es.drop_last()) + entry_steps(es.last())
    }
}

fn marker(head: &str, e: &BomEntry) -> (r: Vec<u8>)
    ensures
        r@ == head.spec_bytes() + e.name@ + " ".spec_bytes() + e.version@
            + " LICENSES-----\n".spec_bytes(),
{
    let mut out: Vec<u8> = Vec::new();
    append_text(&mut out, head);
    append_range(&mut out, e.name.as_slice(), 0, e.name.len());
    append_text(&mut out, " ");
    append_range(&mut out, e.version.as_slice(), 0, e.version.len());
    append_text(&mut out, " LICENSES-----\n");
    assert(e.name@.subrange(0, e.name@.len() as int) =~= e.name@);
    assert(e.version@.subrange(0, e.version@.len() as int) =~= e.version@);
    assert(out@ =~= head.spec_bytes() + e.name@ + " ".spec_bytes() + e.version@
        + " LICENSES-----\n".spec_bytes());
    out
}

fn push_step(out: &mut Vec<DumpStep>, s: DumpStep)
    ensures
        step_views(final(out)@) == step_views(old(out)@).push(step_view(s)),
{
    out.push(s);
    assert(step_views(final(out)@) =~= step_views(old(out)@).push(step_view(s)));
}

/// The license dump as steps: for each entry with license files, in order, a begin
/// line, its files with a separator line between each two, an end line and an empty
/// line. The caller writes the texts and the contents of the files as they come.
pub fn dump_plan(entries: &Vec<BomEntry>) -> (r: Vec<DumpStep>)
    ensures
        step_views(r@) == dump_spec(entries@),
{
    let mut out: Vec<DumpStep> = Vec::new();
    let mut i: usize = 0;
    assert(step_views(out@) =~= seq![]);
    while i < entries.len()
        invariant
            i <= entries@.len(),
            step_views(out@) == dump_spec(entries@.subrange(0, i as int)),
        decreases entries@.len() - i,
    {
        assert(entries@.subrange(0, i + 1).drop_last() =~= entries@.subrange(0, i as int));
        let e = &entries[i];
        let ghost start = step_views(out@);
        let n = e.license_files.len();
        if n > 0 {
            let ghost fs = views(e.license_files@);
            push_step(&mut out, DumpStep::Text(marker("-----BEGIN ", e)));
            let mut k: usize = 0;
            while k < n
                invariant
                    n == e.license_files@.len(),
                    fs == views(e.license_files@),
                    k <= n,
                    step_views(out@) == start + seq![(false, begin_marker(*e))] + file_steps(
                        fs.subrange(0, k as int),
                    ),
                decreases n - k,
            {
                assert(fs.subrange(0, k + 1).drop_last() =~= fs.subrange(0, k as int));
                let ghost mid = step_views(out@);
                if k > 0 {
                    let mut sep: Vec<u8> = Vec::new();
                    append_text(&mut sep, "\n-----NEXT LICENSE-----\n");
                    push_step(&mut out, DumpStep::Text(sep));
                }
                let p = copy_bytes(e.license_files[k].as_slice());
                assert(p@ == fs[k as int]);
                push_step(&mut out, DumpStep::File(p));
                if k == 0 {
                    assert(fs.subrange(0, 1) =~= seq![fs[0]]);
                }
                assert(step_views(out@) =~= start + seq![(false, begin_marker(*e))] + file_steps(
                    fs.subrange(0, k + 1),
                ));
                k = k + 1;
            }
            assert(fs.subrange(0, n as int) =~= fs);
            push_step(&mut out, DumpStep::Text(marker("-----END ", e)));
            let mut blank: Vec<u8> = Vec::new();
            append_text(&mut blank, "\n");
            push_step(&mut out, DumpStep::Text(blank));
            assert(step_views(out@) =~= start + entry_steps(*e));
        } else {
            assert(step_views(out@) =~= start + entry_steps(*e));
        }
        i = i + 1;
    }
    assert(entries@.subrange(0, i as int) =~= entries@);
    out
}

} // verus!
