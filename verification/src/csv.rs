//! The flat-text form of labelled data: one record on each line, its fields
//! set apart by a delimiter, one of them the label and the others numerals.

use vstd::prelude::*;
use vstd::slice::slice_subrange;
use vstd::string::StringExecFns;
use crate::classifier::KnnClassifier;
use crate::numeral::{is_numeral, is_numeral_text};
use crate::text::{
    chars_of, find_sep, first_sep, join, split, string_of, string_views, trim, trimmed,
};

verus! {

/// A record: a label and the numerals of its numeric fields, as written.
#[derive(Debug, PartialEq, Eq)]
pub struct CsvRecord {
    pub label: String,
    pub numerals: Vec<String>,
}

/// What a record holds.
pub ghost struct RecordView {
    pub label: Seq<char>,
    pub numerals: Seq<Seq<char>>,
}

impl View for CsvRecord {
    type V = RecordView;

    open spec fn view(&self) -> RecordView {
        RecordView { label: self.label@, numerals: string_views(self.numerals@) }
    }
}

impl Clone for CsvRecord {
    fn clone(&self) -> (copy: CsvRecord)
        ensures
            copy@ == self@,
    {
        let mut numerals: Vec<String> = Vec::new();
        let mut i: usize = 0;
        while i < self.numerals.len()
            invariant
                i <= self.numerals.len(),
                numerals.len() == i,
                forall|j: int| 0 <= j < i ==> (#[trigger] numerals[j])@ == self.numerals[j]@,
            decreases self.numerals.len() - i,
        {
            numerals.push(self.numerals[i].clone());
            i += 1;
        }
        assert(string_views(numerals@) =~= string_views(self.numerals@));
        CsvRecord { label: self.label.clone(), numerals }
    }
}

/// What each of the records holds, in their order.
pub open spec fn record_views(records: Seq<CsvRecord>) -> Seq<RecordView> {
    Seq::new(records.len(), |i: int| records[i]@)
}

/// Why a text is refused. Lines are counted from zero, and every line of the
/// text counts, a skipped one too.
#[derive(Debug, PartialEq, Eq)]
pub enum CsvError {
    /// The line has too few fields to hold the label column.
    MissingLabel { line: usize },
    /// A numeric field of the line holds no numeral; `field` is what it holds
    /// between the white space at its ends.
    Parse { line: usize, field: String },
}

/// What an error holds.
pub ghost enum CsvFault {
    MissingLabel { line: int },
    Parse { line: int, field: Seq<char> },
}

impl View for CsvError {
    type V = CsvFault;

    open spec fn view(&self) -> CsvFault {
        match self {
            CsvError::MissingLabel { line } => CsvFault::MissingLabel { line: *line as int },
            CsvError::Parse { line, field } => CsvFault::Parse { line: *line as int, field: field@ },
        }
    }
}

impl Clone for CsvError {
    fn clone(&self) -> (copy: CsvError)
        ensures
            copy@ == self@,
    {
        match self {
            CsvError::MissingLabel { line } => CsvError::MissingLabel { line: *line },
            CsvError::Parse { line, field } => CsvError::Parse { line: *line, field: field.clone() },
        }
    }
}

/// The line of a record: its label and its numerals in their order, with
/// the delimiter between neighbours.
pub open spec fn csv_line(record: RecordView, delimiter: char) -> Seq<char> {
    join(seq![record.label] + record.numerals, delimiter)
}

/// The text of the records: the line of each in their order, each followed
/// by a line feed.
pub open spec fn csv_text(records: Seq<RecordView>, delimiter: char) -> Seq<char>
    decreases records.len(),
{
    if records.len() == 0 {
        Seq::empty()
    } else {
        csv_text(records.drop_last(), delimiter) + csv_line(records.last(), delimiter).push('\n')
    }
}

/// The column that holds the numeric field `i` of a row.
pub open spec fn column_of(i: int, label_col: int) -> int {
    if i < label_col {
        i
    } else {
        i + 1
    }
}

/// The numeric fields of a row: its columns but the label column, each
/// without the white space at its ends.
pub open spec fn number_fields(columns: Seq<Seq<char>>, label_col: int) -> Seq<Seq<char>> {
    Seq::new(
        if label_col < columns.len() {
            (columns.len() - 1) as nat
        } else {
            columns.len()
        },
        |i: int| trim(columns[column_of(i, label_col)]),
    )
}

/// The place of the first field that is no numeral, or the number of fields
/// where all are numerals.
pub open spec fn first_bad(fields: Seq<Seq<char>>) -> nat
    decreases fields.len(),
{
    if fields.len() == 0 || !is_numeral(fields[0]) {
        0
    } else {
        1 + first_bad(fields.drop_first())
    }
}

/// What a row holds. The row is split at the delimiter. Its first numeric
/// field that is no numeral is a fault; a row without such a field that is too
/// short for the label column is one, too.
pub open spec fn record_of(row: Seq<char>, line: int, delimiter: char, label_col: int) -> Result<
    RecordView,
    CsvFault,
> {
    let columns = split(row, delimiter);
    let fields = number_fields(columns, label_col);
    let bad = first_bad(fields) as int;
    if bad < fields.len() {
        Err(CsvFault::Parse { line, field: fields[bad] })
    } else if label_col >= columns.len() {
        Err(CsvFault::MissingLabel { line })
    } else {
        Ok(RecordView { label: trim(columns[label_col]), numerals: fields })
    }
}

/// The line is passed over: it is the header, or it holds white space only.
pub open spec fn is_skipped(lines: Seq<Seq<char>>, line: int, skip_header: bool) -> bool {
    (skip_header && line == 0) || trim(lines[line]).len() == 0
}

/// What the first `count` lines hold: the records of the lines not passed
/// over, in their order, or the fault of the first line that has one.
pub open spec fn csv_rows(
    lines: Seq<Seq<char>>,
    count: int,
    delimiter: char,
    label_col: int,
    skip_header: bool,
) -> Result<Seq<RecordView>, CsvFault>
    decreases count,
{
    if count <= 0 {
        Ok(Seq::empty())
    } else {
        match csv_rows(lines, count - 1, delimiter, label_col, skip_header) {
            Err(fault) => Err(fault),
            Ok(records) => if is_skipped(lines, count - 1, skip_header) {
                Ok(records)
            } else {
                match record_of(trim(lines[count - 1]), count - 1, delimiter, label_col) {
                    Err(fault) => Err(fault),
                    Ok(record) => Ok(records.push(record)),
                }
            },
        }
    }
}

/// What a text holds. Its lines are the pieces between line feeds. With
/// `skip_header` the first line is passed over whatever it holds, and lines of
/// white space are passed over everywhere. Every other line, without the white
/// space at its ends, is a row.
pub open spec fn csv_records(text: Seq<char>, delimiter: char, label_col: int, skip_header: bool) -> Result<
    Seq<RecordView>,
    CsvFault,
> {
    let lines = split(text, '\n');
    csv_rows(lines, lines.len() as int, delimiter, label_col, skip_header)
}

/// A field that is no numeral, with numerals only before it, is the first
/// bad one; where every field is a numeral there is none.
pub proof fn lemma_first_bad_is(fields: Seq<Seq<char>>, at: int)
    requires
        0 <= at <= fields.len(),
        forall|j: int| 0 <= j < at ==> is_numeral(#[trigger] fields[j]),
        at < fields.len() ==> !is_numeral(fields[at]),
    ensures
        first_bad(fields) == at,
    decreases fields.len(),
{
    if at > 0 {
        assert(is_numeral(fields[0]));
        let rest = fields.drop_first();
        assert forall|j: int| 0 <= j < at - 1 implies is_numeral(#[trigger] rest[j]) by {
            assert(rest[j] == fields[j + 1]);
        }
        lemma_first_bad_is(rest, at - 1);
    }
}

/// A fault found in the first lines is the fault of every longer stretch.
pub proof fn lemma_fault_stays(
    lines: Seq<Seq<char>>,
    count: int,
    more: int,
    delimiter: char,
    label_col: int,
    skip_header: bool,
)
    requires
        count <= more,
        csv_rows(lines, count, delimiter, label_col, skip_header) is Err,
    ensures
        csv_rows(lines, more, delimiter, label_col, skip_header) == csv_rows(
            lines,
            count,
            delimiter,
            label_col,
            skip_header,
        ),
    decreases more - count,
{
    if count < more {
        lemma_fault_stays(lines, count, more - 1, delimiter, label_col, skip_header);
    }
}

/// The first piece of a text, and what splitting leaves behind it.
proof fn lemma_split_step(s: Seq<char>, sep: char)
    ensures
        split(s, sep).len() >= 1,
        split(s, sep)[0] == s.take(first_sep(s, sep) as int),
        first_sep(s, sep) >= s.len() ==> split(s, sep).len() == 1,
        first_sep(s, sep) < s.len() ==> split(s, sep).skip(1) == split(
            s.skip(first_sep(s, sep) as int + 1),
            sep,
        ),
{
    crate::text::lemma_first_sep(s, sep);
    let i = first_sep(s, sep) as int;
    if i >= s.len() {
        assert(s.take(i) =~= s);
    } else {
        assert(split(s, sep).skip(1) =~= split(s.skip(i + 1), sep));
    }
}

/// Reads one row.
fn read_record(row: &[char], line: usize, delimiter: char, label_col: usize) -> (outcome: Result<
    CsvRecord,
    CsvError,
>)
    ensures
        match outcome {
            Ok(record) => record_of(row@, line as int, delimiter, label_col as int) == Ok::<
                RecordView,
                CsvFault,
            >(record@),
            Err(e) => record_of(row@, line as int, delimiter, label_col as int) == Err::<
                RecordView,
                CsvFault,
            >(e@),
        },
{
    let ghost columns = split(row@, delimiter);
    let ghost fields = number_fields(columns, label_col as int);
    let mut label: Option<String> = None;
    let mut numerals: Vec<String> = Vec::new();
    let mut rest: &[char] = row;
    let mut column: usize = 0;
    loop
        invariant_except_break
            column + rest.len() <= row.len(),
            columns.skip(column as int) == split(rest@, delimiter),
            numerals.len() == if column <= label_col {
                column as int
            } else {
                column - 1
            },
            column <= label_col ==> label is None,
            column > label_col ==> label is Some && label->0@ == trim(columns[label_col as int]),
        invariant
            columns == split(row@, delimiter),
            fields == number_fields(columns, label_col as int),
            column < columns.len(),
            numerals.len() <= fields.len(),
            forall|j: int| 0 <= j < numerals.len() ==> (#[trigger] numerals[j])@ == fields[j],
            forall|j: int| 0 <= j < numerals.len() ==> is_numeral(#[trigger] fields[j]),
        ensures
            column + 1 == columns.len(),
            numerals.len() == fields.len(),
            column < label_col ==> label is None,
            column >= label_col ==> label is Some && label->0@ == trim(columns[label_col as int]),
        decreases rest.len(),
    {
        proof {
            lemma_split_step(rest@, delimiter);
            assert(columns[column as int] == columns.skip(column as int)[0]);
        }
        let end = find_sep(rest, delimiter);
        let field = trimmed(slice_subrange(rest, 0, end));
        assert(field@ == trim(columns[column as int]));
        if column == label_col {
            label = Some(string_of(field));
        } else {
            assert(fields[numerals.len() as int] == field@);
            if !is_numeral_text(field) {
                proof {
                    lemma_first_bad_is(fields, numerals.len() as int);
                }
                return Err(CsvError::Parse { line, field: string_of(field) });
            }
            numerals.push(string_of(field));
        }
        if end == rest.len() {
            break ;
        }
        proof {
            assert(columns.skip(column as int).skip(1) =~= columns.skip(column + 1));
        }
        rest = slice_subrange(rest, end + 1, rest.len());
        column += 1;
    }
    proof {
        lemma_first_bad_is(fields, fields.len() as int);
    }
    match label {
        Some(label) => {
            let record = CsvRecord { label, numerals };
            assert(record@.numerals =~= fields);
            Ok(record)
        },
        None => Err(CsvError::MissingLabel { line }),
    }
}

impl KnnClassifier {
    /// Writes the records as text: a line for each, its label first, then
    /// its numerals, with the delimiter between neighbours and a line feed at
    /// the end of the line. No header is written.
    pub fn to_csv(records: &[CsvRecord], delimiter: char) -> (text: String)
        ensures
            text@ == csv_text(record_views(records@), delimiter),
    {
        let ghost all = record_views(records@);
        let mut text = String::new();
        let mut i: usize = 0;
        while i < records.len()
            invariant
                i <= records.len(),
                all == record_views(records@),
                text@ == csv_text(all.take(i as int), delimiter),
            decreases records.len() - i,
        {
            let record = &records[i];
            let ghost before = text@;
            let ghost pieces = seq![record@.label] + record@.numerals;
            text.append(record.label.as_str());
            let mut j: usize = 0;
            while j < record.numerals.len()
                invariant
                    j <= record.numerals.len(),
                    pieces == seq![record@.label] + record@.numerals,
                    text@ == before + join(pieces.take(j + 1), delimiter),
                decreases record.numerals.len() - j,
            {
                text.push(delimiter);
                text.append(record.numerals[j].as_str());
                proof {
                    assert(pieces.take(j + 2).drop_last() =~= pieces.take(j + 1));
                    assert(pieces.take(j + 2).last() == record.numerals[j as int]@);
                }
                j += 1;
            }
            text.push('\n');
            proof {
                assert(pieces.take(j + 1) =~= pieces);
                assert(all.take(i + 1).drop_last() =~= all.take(i as int));
                assert(all.take(i + 1).last() == record@);
                assert(text@ =~= csv_text(all.take(i + 1), delimiter));
            }
            i += 1;
        }
        assert(all.take(i as int) =~= all);
        text
    }

    /// Reads the records of a text. Lines end at line feeds. With
    /// `skip_header` the first line is passed over, and lines of white space
    /// are passed over everywhere. Of every other line the field in column
    /// `label_col`, counted from zero, is the label and each other field must
    /// be a numeral; white space around a field is dropped. Reading stops at
    /// the first line that has a fault, and nothing is returned but the fault.
    pub fn from_csv(text: &str, delimiter: char, label_col: usize, skip_header: bool) -> (outcome:
        Result<Vec<CsvRecord>, CsvError>)
        ensures
            match outcome {
                Ok(records) => csv_records(text@, delimiter, label_col as int, skip_header) == Ok::<
                    Seq<RecordView>,
                    CsvFault,
                >(record_views(records@)),
                Err(e) => csv_records(text@, delimiter, label_col as int, skip_header) == Err::<
                    Seq<RecordView>,
                    CsvFault,
                >(e@),
            },
    {
        let chars = chars_of(text);
        let ghost lines = split(text@, '\n');
        let mut records: Vec<CsvRecord> = Vec::new();
        let mut rest: &[char] = chars.as_slice();
        let mut line: usize = 0;
        assert(record_views(records@) =~= Seq::<RecordView>::empty());
        loop
            invariant_except_break
                line + rest.len() <= chars.len(),
                lines.skip(line as int) == split(rest@, '\n'),
                csv_rows(lines, line as int, delimiter, label_col as int, skip_header) == Ok::<
                    Seq<RecordView>,
                    CsvFault,
                >(record_views(records@)),
            invariant
                lines == split(text@, '\n'),
                line < lines.len(),
            ensures
                line + 1 == lines.len(),
                csv_rows(lines, line + 1, delimiter, label_col as int, skip_header) == Ok::<
                    Seq<RecordView>,
                    CsvFault,
                >(record_views(records@)),
            decreases rest.len(),
        {
            proof {
                lemma_split_step(rest@, '\n');
                assert(lines[line as int] == lines.skip(line as int)[0]);
            }
            let end = find_sep(rest, '\n');
            let row = trimmed(slice_subrange(rest, 0, end));
            assert(row@ == trim(lines[line as int]));
            if !(skip_header && line == 0) && row.len() > 0 {
                let ghost before = record_views(records@);
                match read_record(row, line, delimiter, label_col) {
                    Ok(record) => {
                        records.push(record);
                        assert(record_views(records@) =~= before.push(record@));
                    },
                    Err(e) => {
                        proof {
                            lemma_fault_stays(
                                lines,
                                line + 1,
                                lines.len() as int,
                                delimiter,
                                label_col as int,
                                skip_header,
                            );
                        }
                        return Err(e);
                    },
                }
            }
            if end == rest.len() {
                break ;
            }
            proof {
                assert(lines.skip(line as int).skip(1) =~= lines.skip(line + 1));
            }
            rest = slice_subrange(rest, end + 1, rest.len());
            line += 1;
        }
        Ok(records)
    }
}

} // verus!
