use vstd::prelude::*;

use crate::sorting::{lemma_insert_by_key_at, sort_by_key};
use crate::text::{
    byte_prefix,
    chars_of,
    i64_to_decimal,
    int_decimal,
    is_byte_boundary,
    push_chars,
    push_char,
    push_str,
    string_from_str,
    take_bytes,
    utf8_len,
    utf8_len_of,
};

verus! {

/// How a symbol changed between the two files.
#[derive(Debug, Clone, Copy, PartialEq, Eq, Hash, Structural)]
pub enum ChangeType {
    Added,
    Removed,
    Changed,
}

/// The display name of each change type.
pub open spec fn change_label(c: ChangeType) -> Seq<char> {
    match c {
        ChangeType::Added => "ADDED"@,
        ChangeType::Removed => "REMOVED"@,
        ChangeType::Changed => "CHANGED"@,
    }
}

impl ChangeType {
    /// The name under which the change is displayed.
    pub fn label(&self) -> (s: String)
        ensures
            s@ == change_label(*self),
    {
        match self {
            ChangeType::Added => string_from_str("ADDED"),
            ChangeType::Removed => string_from_str("REMOVED"),
            ChangeType::Changed => string_from_str("CHANGED"),
        }
    }
}

/// The format of a report.
#[derive(Debug, Clone, Copy, PartialEq, Eq, Structural)]
pub enum OutputType {
    Table,
    Csv,
}

/// One line of a size report.
#[derive(Debug, Clone, PartialEq, Eq, Hash)]
pub struct SymbolDiff {
    pub name: String,
    pub change_type: ChangeType,
    pub size_diff: i64,
}

pub struct SymbolDiffView {
    pub name: Seq<char>,
    pub change_type: ChangeType,
    pub size_diff: i64,
}

impl View for SymbolDiff {
    type V = SymbolDiffView;

    open spec fn view(&self) -> SymbolDiffView {
        SymbolDiffView { name: self.name@, change_type: self.change_type, size_diff: self.size_diff }
    }
}

pub open spec fn diffs_view(s: Seq<SymbolDiff>) -> Seq<SymbolDiffView> {
    s.map_values(|d: SymbolDiff| d@)
}

/// Smaller (more negative) size differences first.
pub open spec fn size_diff_key() -> spec_fn(SymbolDiffView) -> int {
    |d: SymbolDiffView| d.size_diff as int
}

/// Sorts report lines by size difference, smallest first; lines with equal
/// differences keep their order (a stable sort, as `sort_by_key` is).
pub fn sort_by_size_diff(v: Vec<SymbolDiff>) -> (r: Vec<SymbolDiff>)
    ensures
        diffs_view(r@) == sort_by_key(diffs_view(v@), size_diff_key()),
        r@.len() == v@.len(),
        forall|i: int, j: int| 0 <= i < j < r@.len() ==> r@[i].size_diff <= r@[j].size_diff,
        diffs_view(r@).to_multiset() == diffs_view(v@).to_multiset(),
{
    let ghost orig = diffs_view(v@);
    let mut rest = v;
    let mut r: Vec<SymbolDiff> = Vec::new();
    let n = rest.len();
    let mut i: usize = 0;
    assert(orig.take(0) =~= Seq::<SymbolDiffView>::empty());
    assert(orig.skip(0) =~= orig);
    while i < n
        invariant
            n == orig.len(),
            i <= n,
            diffs_view(rest@) == orig.skip(i as int),
            diffs_view(r@) == sort_by_key(orig.take(i as int), size_diff_key()),
        decreases n - i,
    {
        assert(diffs_view(rest@).len() == rest@.len());
        assert(diffs_view(rest@)[0] == rest@[0]@);
        let ghost old_rest = rest@;
        let x = rest.remove(0);
        assert forall|k: int| 0 <= k < rest@.len() implies diffs_view(rest@)[k] == orig.skip(i + 1)[k] by {
            assert(rest@[k] == old_rest[k + 1]);
            assert(diffs_view(old_rest)[k + 1] == old_rest[k + 1]@);
        }
        assert(diffs_view(rest@) =~= orig.skip(i + 1));
        let mut j = r.len();
        while j > 0 && r[j - 1].size_diff > x.size_diff
            invariant
                j <= r.len(),
                forall|t: int| j <= t < r.len() ==> (#[trigger] r@[t]).size_diff > x.size_diff,
            decreases j,
        {
            j -= 1;
        }
        let ghost before = diffs_view(r@);
        proof {
            assert forall|t: int| j <= t < before.len() implies (size_diff_key())(#[trigger] before[t])
                > (size_diff_key())(x@) by {
                assert(before[t] == r@[t]@);
            }
            if j > 0 {
                assert(before[j - 1] == r@[j - 1]@);
            }
            lemma_insert_by_key_at(before, x@, size_diff_key(), j as int);
            assert(orig.take(i + 1).drop_last() =~= orig.take(i as int));
            assert(orig.take(i + 1).last() == x@);
        }
        r.insert(j, x);
        assert(diffs_view(r@) =~= before.insert(j as int, x@));
        i += 1;
    }
    assert(orig.take(n as int) =~= orig);
    proof {
        lemma_report_order(orig);
        assert(diffs_view(r@).len() == r@.len());
        assert forall|i: int, j: int| 0 <= i < j < r@.len() implies r@[i].size_diff <= r@[j].size_diff by {
            assert(diffs_view(r@)[i] == r@[i]@);
            assert(diffs_view(r@)[j] == r@[j]@);
        }
    }
    r
}

/// Whether the table can show `name` under the width limit: a name that is
/// cut must be cut at a character boundary (slicing elsewhere panics).
pub open spec fn can_show_name(name: Seq<char>, max_width: Option<usize>) -> bool {
    match max_width {
        Some(w) => utf8_len(name) > w && w > 3 ==> is_byte_boundary(name, w - 3),
        None => true,
    }
}

/// The name as the table shows it: a name longer than `max_width` bytes,
/// when `max_width` exceeds 3, is cut to its first `max_width - 3` bytes
/// followed by "...".
pub open spec fn shown_name(name: Seq<char>, max_width: Option<usize>) -> Seq<char> {
    match max_width {
        Some(w) => if utf8_len(name) > w && w > 3 {
            byte_prefix(name, w - 3) + "..."@
        } else {
            name
        },
        None => name,
    }
}

/// The name that the table shows for `name`.
pub fn shorten_name(name: &String, max_width: Option<usize>) -> (s: String)
    requires
        can_show_name(name@, max_width),
    ensures
        s@ == shown_name(name@, max_width),
{
    match max_width {
        Some(w) => {
            let c = chars_of(name.as_str());
            if utf8_len_of(&c) > w as u128 && w > 3 {
                let k = take_bytes(&c, (w - 3) as u128);
                let mut s = String::new();
                push_chars(&mut s, &c, 0, k);
                assert(c@.subrange(0, k as int) == c@.take(k as int));
                push_str(&mut s, "...");
                s
            } else {
                name.clone()
            }
        },
        None => name.clone(),
    }
}

/// The text of a size difference in the table: with an explicit '+' when
/// positive ("+128", "-64", "0").
pub open spec fn signed_decimal(n: int) -> Seq<char> {
    if n > 0 {
        seq!['+'] + int_decimal(n)
    } else {
        int_decimal(n)
    }
}

/// The text of `n` for the table, '+' included when positive.
pub fn i64_to_signed_decimal(n: i64) -> (s: String)
    ensures
        s@ == signed_decimal(n as int),
{
    if n > 0 {
        let mut s = String::new();
        push_char(&mut s, '+');
        let digits = i64_to_decimal(n);
        push_str(&mut s, digits.as_str());
        s
    } else {
        i64_to_decimal(n)
    }
}

/// One row of the table: symbol name, change, size difference.
pub struct ReportRow {
    pub symbol: String,
    pub change: String,
    pub size: String,
}

/// The row that the table shows for a line.
pub open spec fn row_for(d: SymbolDiffView, max_width: Option<usize>) -> (Seq<char>, Seq<char>, Seq<char>) {
    (shown_name(d.name, max_width), change_label(d.change_type), signed_decimal(d.size_diff as int))
}

pub open spec fn row_view(r: ReportRow) -> (Seq<char>, Seq<char>, Seq<char>) {
    (r.symbol@, r.change@, r.size@)
}

/// The table rows for the lines `diffs`, in order.
pub fn report_rows(diffs: &Vec<SymbolDiff>, max_width: Option<usize>) -> (rows: Vec<ReportRow>)
    requires
        forall|k: int| 0 <= k < diffs@.len() ==> can_show_name(#[trigger] diffs@[k].name@, max_width),
    ensures
        rows@.len() == diffs@.len(),
        forall|k: int|
            0 <= k < diffs@.len() ==> row_view(#[trigger] rows@[k]) == row_for(diffs@[k]@, max_width),
{
    let mut rows: Vec<ReportRow> = Vec::new();
    let mut i: usize = 0;
    while i < diffs.len()
        invariant
            i <= diffs.len(),
            rows@.len() == i,
            forall|k: int| 0 <= k < diffs@.len() ==> can_show_name(#[trigger] diffs@[k].name@, max_width),
            forall|k: int| 0 <= k < i ==> row_view(#[trigger] rows@[k]) == row_for(diffs@[k]@, max_width),
        decreases diffs.len() - i,
    {
        let d = &diffs[i];
        let row = ReportRow {
            symbol: shorten_name(&d.name, max_width),
            change: d.change_type.label(),
            size: i64_to_signed_decimal(d.size_diff),
        };
        rows.push(row);
        i += 1;
    }
    rows
}

/// The header row of the table.
pub open spec fn table_header() -> (Seq<char>, Seq<char>, Seq<char>) {
    ("Symbol Name"@, "Change"@, "Size Difference"@)
}

/// A table report: a header row and one row per line. Laying it out is left
/// to the caller, since the layout depends on the terminal it is shown on.
pub struct ReportTable {
    pub header: ReportRow,
    pub rows: Vec<ReportRow>,
}

/// A finished report.
pub enum ReportOutput {
    Table(ReportTable),
    /// The bytes of the CSV document.
    Csv(Vec<u8>),
}

/// The bytes that `csv::Writer` (default settings) writes for these records.
pub uninterp spec fn csv_document(records: Seq<Seq<Seq<char>>>) -> Seq<u8>;

pub open spec fn records_view(records: Seq<Vec<String>>) -> Seq<Seq<Seq<char>>> {
    records.map_values(|r: Vec<String>| r@.map_values(|f: String| f@))
}

/// Writes the records with `csv::Writer::from_writer` into memory and takes
/// the bytes back with `into_inner`. Claimed: the bytes are a function of the
/// records alone, and the call succeeds when all records have the same number
/// of fields (the writer, not flexible by default, fails otherwise only on an
/// I/O error, which writing into a `Vec` cannot give). The error's text is
/// left unsaid.
#[verifier::external_body]
fn write_csv(records: &Vec<Vec<String>>) -> (r: Result<Vec<u8>, String>)
    ensures
        r matches Ok(b) ==> b@ == csv_document(records_view(records@)),
        (forall|i: int, j: int|
            0 <= i < records@.len() && 0 <= j < records@.len() ==> (#[trigger] records@[i])@.len()
                == (#[trigger] records@[j])@.len()) ==> r is Ok,
{
    let mut w = csv::Writer::from_writer(Vec::new());
    for record in records {
        w.write_record(record).map_err(|e| e.to_string())?;
    }
    w.into_inner().map_err(|e| e.to_string())
}

/// The CSV records of a report: the header `name,change_type,size_diff`,
/// then one record per line.
pub open spec fn csv_records(d: Seq<SymbolDiffView>) -> Seq<Seq<Seq<char>>> {
    seq![seq!["name"@, "change_type"@, "size_diff"@]] + d.map_values(
        |x: SymbolDiffView| seq![x.name, change_label(x.change_type), int_decimal(x.size_diff as int)],
    )
}

/// Why a report could not be produced.
#[derive(Debug, Clone)]
pub enum ReportError {
    /// The CSV writer failed, with its message.
    Csv(String),
}

/// The lines of a report, in the order shown: sorted by size difference,
/// smallest first, ties in input order.
pub open spec fn report_order(diffs: Seq<SymbolDiffView>) -> Seq<SymbolDiffView> {
    sort_by_key(diffs, size_diff_key())
}

/// Law: the report shows every line it is given, once each, ordered by
/// the full size difference: no line's difference exceeds that of a line
/// shown after it.
pub proof fn lemma_report_order(diffs: Seq<SymbolDiffView>)
    ensures
        report_order(diffs).len() == diffs.len(),
        forall|i: int, j: int|
            0 <= i < j < diffs.len() ==> (#[trigger] report_order(diffs)[i]).size_diff <= (
            #[trigger] report_order(diffs)[j]).size_diff,
        report_order(diffs).to_multiset() == diffs.to_multiset(),
{
    let r = report_order(diffs);
    crate::sorting::lemma_sort_by_key_sorted_permutation(diffs, size_diff_key());
    assert forall|i: int, j: int| 0 <= i < j < diffs.len() implies (#[trigger] r[i]).size_diff <= (
    #[trigger] r[j]).size_diff by {
        assert((size_diff_key())(r[i]) <= (size_diff_key())(r[j]));
    }
}

/// Produces the report of `diffs`, sorted by size difference (smallest
/// first, ties in input order): a table of symbol name, change and size
/// difference (names cut to `max_symbol_width`), or a CSV document with the
/// header `name,change_type,size_diff`.
pub fn generate_report(
    diffs: Vec<SymbolDiff>,
    output_type: OutputType,
    max_symbol_width: Option<usize>,
) -> (r: Result<ReportOutput, ReportError>)
    requires
        output_type == OutputType::Table ==> forall|k: int|
            0 <= k < diffs@.len() ==> can_show_name(#[trigger] diffs@[k].name@, max_symbol_width),
    ensures
        output_type == OutputType::Table ==> (r matches Ok(ReportOutput::Table(t)) && row_view(
            t.header,
        ) == table_header() && t.rows@.len() == diffs@.len() && forall|k: int|
            0 <= k < t.rows@.len() ==> row_view(#[trigger] t.rows@[k]) == row_for(
                report_order(diffs_view(diffs@))[k],
                max_symbol_width,
            )),
        output_type == OutputType::Csv ==> (r matches Ok(ReportOutput::Csv(b)) && b@ == csv_document(
            csv_records(report_order(diffs_view(diffs@))),
        )),
{
    let ghost dv = diffs_view(diffs@);
    let sorted = sort_by_size_diff(diffs);
    let ghost sv = diffs_view(sorted@);
    assert(sv.len() == sorted@.len());
    proof {
        crate::sorting::lemma_sort_by_key_sorted_permutation(dv, size_diff_key());
        assert(dv.len() == diffs@.len());
    }
    match output_type {
        OutputType::Table => {
            proof {
                assert forall|k: int| 0 <= k < sorted@.len() implies can_show_name(
                    #[trigger] sorted@[k].name@,
                    max_symbol_width,
                ) by {
                    broadcast use vstd::seq_lib::group_to_multiset_ensures;

                    assert(sv[k] == sorted@[k]@);
                    assert(sv.contains(sv[k]));
                    assert(sv.to_multiset().count(sv[k]) > 0);
                    assert(dv.contains(sv[k]));
                    let t = choose|t: int| 0 <= t < dv.len() && dv[t] == sv[k];
                    assert(dv[t] == diffs@[t]@);
                }
            }
            let header = ReportRow {
                symbol: string_from_str("Symbol Name"),
                change: string_from_str("Change"),
                size: string_from_str("Size Difference"),
            };
            let rows = report_rows(&sorted, max_symbol_width);
            assert forall|k: int| 0 <= k < rows@.len() implies row_view(#[trigger] rows@[k])
                == row_for(sv[k], max_symbol_width) by {
                assert(sv[k] == sorted@[k]@);
            }
            Ok(ReportOutput::Table(ReportTable { header, rows }))
        },
        OutputType::Csv => {
            let mut records: Vec<Vec<String>> = Vec::new();
            let mut head: Vec<String> = Vec::new();
            head.push(string_from_str("name"));
            head.push(string_from_str("change_type"));
            head.push(string_from_str("size_diff"));
            assert(head@.map_values(|f: String| f@) =~= seq!["name"@, "change_type"@, "size_diff"@]);
            records.push(head);
            assert(records_view(records@) =~= seq![seq!["name"@, "change_type"@, "size_diff"@]]);
            assert(sv.take(0) =~= Seq::<SymbolDiffView>::empty());
            assert(records_view(records@) =~= csv_records(sv.take(0)));
            let mut i: usize = 0;
            while i < sorted.len()
                invariant
                    i <= sorted.len(),
                    sv == diffs_view(sorted@),
                    sv.len() == sorted@.len(),
                    records_view(records@) == csv_records(sv.take(i as int)),
                    records@.len() == i + 1,
                    forall|k: int| 0 <= k < records@.len() ==> (#[trigger] records@[k])@.len() == 3,
                decreases sorted.len() - i,
            {
                let d = &sorted[i];
                let mut rec: Vec<String> = Vec::new();
                rec.push(d.name.clone());
                rec.push(d.change_type.label());
                rec.push(i64_to_decimal(d.size_diff));
                let ghost before = records@;
                records.push(rec);
                proof {
                    assert(sv[i as int] == d@);
                    assert(sv.take(i + 1) == sv.take(i as int).push(d@));
                    assert(rec@.map_values(|f: String| f@) =~= seq![
                        d.name@,
                        change_label(d.change_type),
                        int_decimal(d.size_diff as int),
                    ]);
                    assert(records_view(records@) =~= records_view(before).push(
                        rec@.map_values(|f: String| f@),
                    ));
                    assert(csv_records(sv.take(i + 1)) =~= csv_records(sv.take(i as int)).push(
                        rec@.map_values(|f: String| f@),
                    ));
                    assert forall|k: int| 0 <= k < records@.len() implies (#[trigger] records@[k])@.len()
                        == 3 by {
                        if k < before.len() {
                            assert(records@[k] == before[k]);
                        }
                    }
                }
                i += 1;
            }
            assert(sv.take(sorted.len() as int) == sv);
            match write_csv(&records) {
                Ok(b) => Ok(ReportOutput::Csv(b)),
                Err(e) => Err(ReportError::Csv(e)),
            }
        },
    }
}

/// Law: a name that the table cuts is shown in exactly `max_width` bytes,
/// and a name that it does not cut is shown unchanged.
pub proof fn lemma_shown_name_width(name: Seq<char>, w: usize)
    requires
        can_show_name(name, Some(w)),
    ensures
        utf8_len(name) > w && w > 3 ==> utf8_len(shown_name(name, Some(w))) == w,
        !(utf8_len(name) > w && w > 3) ==> shown_name(name, Some(w)) == name,
{
    if utf8_len(name) > w && w > 3 {
        crate::text::lemma_utf8_len_concat(byte_prefix(name, w - 3), "..."@);
        assert(utf8_len(byte_prefix(name, w - 3)) == w - 3);
        reveal_strlit("...");
        let d = "..."@;
        assert(d =~= seq!['.', '.', '.']);
        assert(crate::text::utf8_width('.') == 1);
        assert(d.drop_last() =~= seq!['.', '.']);
        let e = d.drop_last().drop_last();
        assert(e =~= seq!['.']);
        assert(e.drop_last() =~= Seq::<char>::empty());
        assert(utf8_len(e.drop_last()) == 0);
        assert(e.last() == '.');
        assert(utf8_len(e) == 1);
        assert(utf8_len(d.drop_last()) == 2);
        assert(utf8_len(d) == 3);
    }
}

} // verus!
