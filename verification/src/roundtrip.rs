//! Writing records and reading them back.

use vstd::prelude::*;
use crate::csv::{
    column_of, csv_line, csv_records, csv_rows, csv_text, is_skipped, lemma_first_bad_is, number_fields,
    record_of, CsvFault, RecordView,
};
use crate::numeral::{is_numeral, is_numeral_char, lemma_numeral_chars};
use crate::text::{
    free_of, is_trimmed, is_whitespace, join, lemma_split_join, lemma_trim_trimmed, split, trim,
};

verus! {

/// The record can be written with the delimiter so that reading finds it
/// again: the label holds neither line feed nor delimiter and has no white
/// space at its ends; every numeral is one and does not hold the delimiter;
/// the line is not blank and does not begin with a delimiter that is white
/// space; and the delimiter is no line feed, unless there is no numeral.
pub open spec fn is_portable(record: RecordView, delimiter: char) -> bool {
    &&& free_of(record.label, '\n')
    &&& free_of(record.label, delimiter)
    &&& is_trimmed(record.label)
    &&& forall|i: int|
        0 <= i < record.numerals.len() ==> is_numeral(#[trigger] record.numerals[i]) && free_of(
            record.numerals[i],
            delimiter,
        )
    &&& record.label.len() > 0 || (record.numerals.len() > 0 && !is_whitespace(delimiter))
    &&& record.numerals.len() > 0 ==> delimiter != '\n'
}

/// The lines of the records, one for one.
pub open spec fn csv_lines(records: Seq<RecordView>, delimiter: char) -> Seq<Seq<char>> {
    Seq::new(records.len(), |i: int| csv_line(records[i], delimiter))
}

/// A joined text is as long as its pieces and the separators between them,
/// begins as its first piece does and ends as its last; and a character
/// that is neither in a piece nor put between two is not in it.
proof fn lemma_join_shape(pieces: Seq<Seq<char>>, sep: char, absent: char)
    requires
        pieces.len() >= 1,
    ensures
        join(pieces, sep).len() >= pieces[0].len() + pieces.len() - 1,
        join(pieces, sep).len() >= pieces.last().len(),
        pieces[0].len() > 0 ==> join(pieces, sep)[0] == pieces[0][0],
        pieces[0].len() == 0 && pieces.len() > 1 ==> join(pieces, sep)[0] == sep,
        pieces.last().len() > 0 ==> join(pieces, sep).last() == pieces.last().last(),
        (forall|p: int| 0 <= p < pieces.len() ==> free_of(#[trigger] pieces[p], absent)) && (sep
            != absent || pieces.len() == 1) ==> free_of(join(pieces, sep), absent),
    decreases pieces.len(),
{
    if pieces.len() > 1 {
        let front = pieces.drop_last();
        lemma_join_shape(front, sep, absent);
        assert(front[0] == pieces[0]);
        let joined = join(pieces, sep);
        let before = join(front, sep);
        assert(joined == before.push(sep) + pieces.last());
        assert(joined[0] == before.push(sep)[0]);
        if (forall|p: int| 0 <= p < pieces.len() ==> free_of(#[trigger] pieces[p], absent)) && sep
            != absent {
            assert forall|p: int| 0 <= p < front.len() implies free_of(#[trigger] front[p], absent) by {
                assert(front[p] == pieces[p]);
            }
            assert(free_of(pieces.last(), absent));
            assert forall|i: int| 0 <= i < joined.len() implies joined[i] != absent by {
                if i < before.len() {
                    assert(joined[i] == before[i]);
                } else if i > before.len() {
                    assert(joined[i] == pieces.last()[i - before.len() - 1]);
                }
            }
        }
    }
}

/// A numeral has no white space and no line feed in it.
proof fn lemma_numeral_is_solid(numeral: Seq<char>)
    requires
        is_numeral(numeral),
    ensures
        numeral.len() > 0,
        is_trimmed(numeral),
        free_of(numeral, '\n'),
        trim(numeral) == numeral,
{
    lemma_numeral_chars(numeral);
    assert(is_numeral_char(numeral[0]));
    assert(is_numeral_char(numeral.last()));
    assert forall|i: int| 0 <= i < numeral.len() implies numeral[i] != '\n' by {
        assert(is_numeral_char(numeral[i]));
    }
    lemma_trim_trimmed(numeral);
}

/// The line of a portable record holds no line feed, is left as it is by
/// trimming, is not empty, and is read as the record.
proof fn lemma_line_round_trip(record: RecordView, line: int, delimiter: char)
    requires
        is_portable(record, delimiter),
    ensures
        free_of(csv_line(record, delimiter), '\n'),
        trim(csv_line(record, delimiter)) == csv_line(record, delimiter),
        csv_line(record, delimiter).len() > 0,
        record_of(csv_line(record, delimiter), line, delimiter, 0) == Ok::<RecordView, CsvFault>(record),
{
    let pieces = seq![record.label] + record.numerals;
    let text = csv_line(record, delimiter);
    assert(pieces[0] == record.label);
    assert forall|p: int| 0 <= p < pieces.len() implies free_of(#[trigger] pieces[p], '\n') && free_of(
        pieces[p],
        delimiter,
    ) by {
        if p > 0 {
            assert(pieces[p] == record.numerals[p - 1]);
            lemma_numeral_is_solid(record.numerals[p - 1]);
        }
    }
    lemma_join_shape(pieces, delimiter, '\n');
    if record.numerals.len() > 0 {
        assert(pieces.last() == record.numerals.last());
        lemma_numeral_is_solid(record.numerals.last());
    } else {
        assert(pieces.last() == record.label);
    }
    assert(is_trimmed(text));
    lemma_trim_trimmed(text);
    lemma_split_join(pieces, delimiter);
    let columns = split(text, delimiter);
    assert(columns == pieces);
    let fields = number_fields(columns, 0);
    assert forall|i: int| 0 <= i < fields.len() implies #[trigger] fields[i] == record.numerals[i] by {
        assert(column_of(i, 0) == i + 1);
        assert(columns[i + 1] == record.numerals[i]);
        lemma_numeral_is_solid(record.numerals[i]);
    }
    assert(fields =~= record.numerals);
    lemma_first_bad_is(fields, fields.len() as int);
    lemma_trim_trimmed(record.label);
}

/// The text of the records is their lines and an empty line behind them,
/// joined by line feeds.
proof fn lemma_text_is_joined_lines(records: Seq<RecordView>, delimiter: char)
    ensures
        csv_text(records, delimiter) == join(
            csv_lines(records, delimiter).push(Seq::empty()),
            '\n',
        ),
    decreases records.len(),
{
    let lines = csv_lines(records, delimiter);
    let all = lines.push(Seq::empty());
    if records.len() == 0 {
        assert(all =~= seq![Seq::<char>::empty()]);
    } else {
        let front = records.drop_last();
        let front_lines = csv_lines(front, delimiter);
        let front_all = front_lines.push(Seq::empty());
        lemma_text_is_joined_lines(front, delimiter);
        let last = csv_line(records.last(), delimiter);
        assert(all.drop_last() =~= lines);
        assert(lines.drop_last() =~= front_lines);
        assert(lines.last() == last);
        assert(front_all.drop_last() =~= front_lines);
        assert(join(all, '\n') == join(lines, '\n').push('\n') + all.last());
        if front.len() == 0 {
            assert(join(front_all, '\n') == front_all[0]);
            assert(join(lines, '\n') == lines[0]);
        } else {
            assert(join(front_all, '\n') == join(front_lines, '\n').push('\n') + front_all.last());
            assert(join(lines, '\n') == join(front_lines, '\n').push('\n') + last);
        }
        assert(csv_text(records, delimiter) =~= join(all, '\n'));
    }
}

/// What the first lines hold depends on those lines only.
proof fn lemma_rows_of_prefix(
    lines: Seq<Seq<char>>,
    others: Seq<Seq<char>>,
    count: int,
    delimiter: char,
    label_col: int,
    skip_header: bool,
)
    requires
        count <= lines.len(),
        count <= others.len(),
        forall|i: int| 0 <= i < count ==> lines[i] == others[i],
    ensures
        csv_rows(lines, count, delimiter, label_col, skip_header) == csv_rows(
            others,
            count,
            delimiter,
            label_col,
            skip_header,
        ),
    decreases count,
{
    if count > 0 {
        lemma_rows_of_prefix(lines, others, count - 1, delimiter, label_col, skip_header);
        assert(is_skipped(lines, count - 1, skip_header) == is_skipped(others, count - 1, skip_header));
    }
}

/// The first lines of the text of portable records hold the first records.
proof fn lemma_rows_round_trip(records: Seq<RecordView>, delimiter: char, count: int)
    requires
        forall|i: int| 0 <= i < records.len() ==> is_portable(#[trigger] records[i], delimiter),
        0 <= count <= records.len(),
    ensures
        csv_rows(csv_lines(records, delimiter).push(Seq::empty()), count, delimiter, 0, false) == Ok::<
            Seq<RecordView>,
            CsvFault,
        >(records.take(count)),
    decreases count,
{
    let lines = csv_lines(records, delimiter).push(Seq::empty());
    if count == 0 {
        assert(records.take(0) =~= Seq::<RecordView>::empty());
    } else {
        lemma_rows_round_trip(records, delimiter, count - 1);
        let record = records[count - 1];
        assert(lines[count - 1] == csv_line(record, delimiter));
        lemma_line_round_trip(record, count - 1, delimiter);
        assert(records.take(count - 1).push(record) =~= records.take(count));
    }
}

/// Reading what was written gives the records back, in their order: for
/// records that are portable with the delimiter, the text written for them
/// reads, with the label in the first column and no header, as those records.
pub proof fn law_round_trip(records: Seq<RecordView>, delimiter: char)
    requires
        forall|i: int| 0 <= i < records.len() ==> is_portable(#[trigger] records[i], delimiter),
    ensures
        csv_records(csv_text(records, delimiter), delimiter, 0, false) == Ok::<Seq<RecordView>, CsvFault>(
            records,
        ),
{
    let lines = csv_lines(records, delimiter).push(Seq::empty());
    lemma_text_is_joined_lines(records, delimiter);
    assert forall|p: int| 0 <= p < lines.len() implies free_of(#[trigger] lines[p], '\n') by {
        if p < records.len() {
            lemma_line_round_trip(records[p], p, delimiter);
        }
    }
    lemma_split_join(lines, '\n');
    lemma_rows_round_trip(records, delimiter, records.len() as int);
    assert(records.take(records.len() as int) =~= records);
    assert(trim(lines[records.len() as int]) =~= Seq::<char>::empty());
}

} // verus!
