//! The per-track statistics as CSV text: a header row, then one row per
//! track with its name, artist and counts.

use vstd::prelude::*;
use crate::stats::SongStats;
use crate::text::push_char;
use crate::download::{all_digits, digits_value, is_digit};
use vstd::utf8::encode_utf8;

verus! {

/// The error a CSV writer reports.
#[verifier::external_type_specification]
#[verifier::external_body]
pub struct ExCsvError(csv::Error);

/// The error flushing a writer reports.
#[verifier::external_type_specification]
#[verifier::external_body]
pub struct ExIoError(std::io::Error);

/// A `csv::Writer` with the default settings (comma, `\n` after each
/// record, quoting where needed) that writes into memory.
#[verifier::external_body]
pub struct CsvBuffer {
    inner: csv::Writer<Vec<u8>>,
}

/// The records written into a buffer so far, each a list of fields given
/// as bytes.
pub uninterp spec fn csv_records_written(w: CsvBuffer) -> Seq<Seq<Seq<u8>>>;

/// A field must be quoted when it holds a comma, a quote, a carriage
/// return or a line feed.
pub open spec fn csv_needs_quotes(f: Seq<u8>) -> bool {
    exists|i: int| 0 <= i < f.len() && (f[i] == 44u8 || f[i] == 34u8 || f[i] == 13u8 || f[i] == 10u8)
}

/// A field's bytes with every quote doubled.
pub open spec fn csv_escaped(f: Seq<u8>) -> Seq<u8>
    decreases f.len(),
{
    if f.len() == 0 {
        Seq::empty()
    } else {
        (if f[0] == 34u8 {
            seq![34u8, 34u8]
        } else {
            seq![f[0]]
        }) + csv_escaped(f.drop_first())
    }
}

/// A field as written: in quotes, with quotes doubled, when it needs them;
/// as it is otherwise.
pub open spec fn csv_field(f: Seq<u8>) -> Seq<u8> {
    if csv_needs_quotes(f) {
        seq![34u8] + csv_escaped(f) + seq![34u8]
    } else {
        f
    }
}

/// The fields of a record as written, separated by commas.
pub open spec fn csv_joined(fields: Seq<Seq<u8>>) -> Seq<u8>
    decreases fields.len(),
{
    if fields.len() == 0 {
        Seq::empty()
    } else if fields.len() == 1 {
        csv_field(fields[0])
    } else {
        csv_joined(fields.drop_last()) + seq![44u8] + csv_field(fields.last())
    }
}

/// A record as written: its fields, or `""` when they come to nothing,
/// then a line feed.
pub open spec fn csv_line(fields: Seq<Seq<u8>>) -> Seq<u8> {
    (if csv_joined(fields).len() == 0 {
        seq![34u8, 34u8]
    } else {
        csv_joined(fields)
    }) + seq![10u8]
}

/// The bytes a `csv::Writer` with the default settings produces for the
/// given records: their lines, one after another.
pub open spec fn csv_text(records: Seq<Seq<Seq<u8>>>) -> Seq<u8>
    decreases records.len(),
{
    if records.len() == 0 {
        Seq::empty()
    } else {
        csv_text(records.drop_last()) + csv_line(records.last())
    }
}

/// The UTF-8 bytes of each field of each record.
pub open spec fn records_bytes(records: Seq<Seq<Seq<char>>>) -> Seq<Seq<Seq<u8>>> {
    records.map_values(|r: Seq<Seq<char>>| r.map_values(|f: Seq<char>| encode_utf8(f)))
}

/// Calls `csv::Writer::from_writer` on an empty `Vec<u8>`. Claims that
/// nothing has been written yet.
#[verifier::external_body]
fn csv_buffer_new() -> (res: CsvBuffer)
    ensures
        csv_records_written(res) == Seq::<Seq<Seq<u8>>>::empty(),
{
    CsvBuffer { inner: csv::Writer::from_writer(Vec::new()) }
}

/// Calls `csv::Writer::write_record`, and gives the buffer back only when
/// the write succeeded. Claims that a success adds the fields' UTF-8 bytes
/// as one more record, and that the write succeeds when the record has as
/// many fields as the first one written (the writer checks nothing else,
/// and writing into a `Vec<u8>` cannot fail).
#[verifier::external_body]
fn csv_write_record(w: CsvBuffer, fields: &Vec<String>) -> (res: Result<CsvBuffer, csv::Error>)
    ensures
        res matches Ok(w2) ==> csv_records_written(w2) == csv_records_written(w).push(
            fields@.map_values(|f: String| encode_utf8(f@)),
        ),
        (csv_records_written(w).len() == 0 || csv_records_written(w)[0].len() == fields@.len())
            ==> res is Ok,
{
    let mut w = w;
    match w.inner.write_record(fields) {
        Ok(()) => Ok(w),
        Err(e) => Err(e),
    }
}

/// Calls `csv::Writer::into_inner`, which flushes the writer into its
/// `Vec<u8>` and hands the vector back. Claims that this succeeds (writing
/// into a `Vec<u8>` cannot fail) and that the bytes are `csv_text` of the
/// records written; a failure would be reported as its `std::io::Error`.
#[verifier::external_body]
fn csv_buffer_finish(w: CsvBuffer) -> (res: Result<Vec<u8>, std::io::Error>)
    ensures
        res is Ok,
        res matches Ok(bytes) ==> bytes@ == csv_text(csv_records_written(w)),
{
    match w.inner.into_inner() {
        Ok(bytes) => Ok(bytes),
        Err(e) => Err(e.into_error()),
    }
}

/// Why the CSV text could not be produced.
#[derive(Debug)]
pub enum CsvExportError {
    /// The writer refused a record.
    Write(csv::Error),
    /// Flushing the writer failed.
    Flush(std::io::Error),
}

/// The character of a decimal digit.
pub open spec fn digit_char(d: int) -> char {
    if d == 0 {
        '0'
    } else if d == 1 {
        '1'
    } else if d == 2 {
        '2'
    } else if d == 3 {
        '3'
    } else if d == 4 {
        '4'
    } else if d == 5 {
        '5'
    } else if d == 6 {
        '6'
    } else if d == 7 {
        '7'
    } else if d == 8 {
        '8'
    } else {
        '9'
    }
}

/// The decimal numeral of `n`, without leading zeros.
pub open spec fn decimal_text(n: nat) -> Seq<char>
    decreases n,
{
    if n < 10 {
        seq![digit_char(n as int)]
    } else {
        decimal_text(n / 10).push(digit_char((n % 10) as int))
    }
}

fn digit(d: u32) -> (res: char)
    requires
        d < 10,
    ensures
        res == digit_char(d as int),
{
    match d {
        0 => '0',
        1 => '1',
        2 => '2',
        3 => '3',
        4 => '4',
        5 => '5',
        6 => '6',
        7 => '7',
        8 => '8',
        _ => '9',
    }
}

/// The decimal numeral of `n`.
pub fn decimal(n: u32) -> (res: String)
    ensures
        res@ == decimal_text(n as nat),
    decreases n,
{
    if n < 10 {
        let mut res = String::new();
        push_char(&mut res, digit(n));
        proof {
            assert(res@ =~= seq![digit_char(n as int)]);
        }
        res
    } else {
        let mut res = decimal(n / 10);
        push_char(&mut res, digit(n % 10));
        res
    }
}

/// The header row: the names of the exported columns.
pub open spec fn csv_header() -> Seq<Seq<char>> {
    seq!["track_name"@, "artist_name"@, "play_count"@, "shuffled_count"@, "full_play_count"@]
}

/// The row of one track.
pub open spec fn csv_row(row: (String, SongStats)) -> Seq<Seq<char>> {
    seq![
        row.0@,
        row.1.artist_name@,
        decimal_text(row.1.play_count as nat),
        decimal_text(row.1.shuffled_count as nat),
        decimal_text(row.1.full_play_count as nat),
    ]
}

/// The records of the export: nothing for no tracks, otherwise the header
/// followed by one row per track, in the given order.
pub open spec fn csv_table(rows: Seq<(String, SongStats)>) -> Seq<Seq<Seq<char>>> {
    if rows.len() == 0 {
        Seq::empty()
    } else {
        seq![csv_header()] + rows.map_values(|r: (String, SongStats)| csv_row(r))
    }
}

/// The character of a digit is a digit and stands for it.
proof fn lemma_digit_char_value(d: int)
    requires
        0 <= d < 10,
    ensures
        is_digit(digit_char(d)),
        digit_char(d) as u32 - '0' as u32 == d,
        digit_char(d) == '0' ==> d == 0,
{
}

/// The decimal numeral of a number is a run of digits, without a leading
/// zero unless it is the numeral of zero, whose value is the number.
pub proof fn law_decimal_reads_back(n: nat)
    ensures
        decimal_text(n).len() > 0,
        all_digits(decimal_text(n)),
        digits_value(decimal_text(n)) == n,
        decimal_text(n)[0] == '0' ==> n == 0,
    decreases n,
{
    lemma_digit_char_value((n % 10) as int);
    if n < 10 {
        assert(decimal_text(n).drop_last() =~= Seq::<char>::empty());
        assert(n % 10 == n);
        assert(digits_value(Seq::<char>::empty()) == 0);
        assert(decimal_text(n).last() == digit_char(n as int));
    } else {
        law_decimal_reads_back(n / 10);
        let t = decimal_text(n);
        let p = decimal_text(n / 10);
        assert(t.drop_last() =~= p);
        assert(digits_value(t) == digits_value(p) * 10 + (n % 10));
        assert(n == (n / 10) * 10 + n % 10) by (nonlinear_arith);
        assert(t[0] == p[0]);
        assert forall|i: int| 0 <= i < t.len() implies is_digit(#[trigger] t[i]) by {
            if i < p.len() {
                assert(t[i] == p[i]);
            }
        }
    }
}

/// The export of no rows is empty; the export of some rows is the header
/// and then one record per row, in the rows' order, holding the track
/// name, the artist and the play, shuffled and full-play counts in decimal.
pub proof fn law_csv_one_record_per_row(rows: Seq<(String, SongStats)>)
    ensures
        rows.len() == 0 ==> csv_table(rows).len() == 0,
        rows.len() > 0 ==> csv_table(rows).len() == rows.len() + 1,
        rows.len() > 0 ==> csv_table(rows)[0] == seq![
            "track_name"@,
            "artist_name"@,
            "play_count"@,
            "shuffled_count"@,
            "full_play_count"@,
        ],
        forall|k: int| 0 <= k < rows.len() ==> #[trigger] csv_table(rows)[k + 1] == seq![
            rows[k].0@,
            rows[k].1.artist_name@,
            decimal_text(rows[k].1.play_count as nat),
            decimal_text(rows[k].1.shuffled_count as nat),
            decimal_text(rows[k].1.full_play_count as nat),
        ],
{
}

/// The fields of every record of a list of records.
pub open spec fn fields_of(records: Seq<Vec<String>>) -> Seq<Seq<Seq<char>>> {
    records.map_values(|r: Vec<String>| r@.map_values(|f: String| f@))
}

fn header_record() -> (res: Vec<String>)
    ensures
        res@.map_values(|f: String| f@) == csv_header(),
{
    let mut res: Vec<String> = Vec::new();
    res.push("track_name".to_owned());
    res.push("artist_name".to_owned());
    res.push("play_count".to_owned());
    res.push("shuffled_count".to_owned());
    res.push("full_play_count".to_owned());
    proof {
        assert(res@.map_values(|f: String| f@) =~= csv_header());
    }
    res
}

fn row_record(row: &(String, SongStats)) -> (res: Vec<String>)
    ensures
        res@.map_values(|f: String| f@) == csv_row(*row),
{
    let mut res: Vec<String> = Vec::new();
    res.push(row.0.clone());
    res.push(row.1.artist_name.clone());
    res.push(decimal(row.1.play_count));
    res.push(decimal(row.1.shuffled_count));
    res.push(decimal(row.1.full_play_count));
    proof {
        assert(res@.map_values(|f: String| f@) =~= csv_row(*row));
    }
    res
}

/// The records of the export of `rows`.
pub fn csv_records(rows: &[(String, SongStats)]) -> (res: Vec<Vec<String>>)
    ensures
        fields_of(res@) == csv_table(rows@),
        rows@.len() == 0 ==> res@.len() == 0,
        rows@.len() > 0 ==> res@.len() == rows@.len() + 1,
        forall|k: int| 0 <= k < rows@.len() ==> (#[trigger] res@[k + 1])@.map_values(|f: String| f@) == seq![
            rows@[k].0@,
            rows@[k].1.artist_name@,
            decimal_text(rows@[k].1.play_count as nat),
            decimal_text(rows@[k].1.shuffled_count as nat),
            decimal_text(rows@[k].1.full_play_count as nat),
        ],
{
    let mut res: Vec<Vec<String>> = Vec::new();
    if rows.len() == 0 {
        proof {
            assert(fields_of(res@) =~= csv_table(rows@));
        }
        return res;
    }
    res.push(header_record());
    let mut i: usize = 0;
    while i < rows.len()
        invariant
            i <= rows@.len(),
            rows@.len() > 0,
            fields_of(res@) == seq![csv_header()] + rows@.take(i as int).map_values(
                |r: (String, SongStats)| csv_row(r),
            ),
        decreases rows@.len() - i,
    {
        let ghost before = res@;
        res.push(row_record(&rows[i]));
        proof {
            assert(rows@.take(i + 1).map_values(|r: (String, SongStats)| csv_row(r)) =~= rows@.take(
                i as int,
            ).map_values(|r: (String, SongStats)| csv_row(r)).push(csv_row(rows@[i as int])));
            assert(fields_of(res@) =~= fields_of(before).push(csv_row(rows@[i as int])));
        }
        i = i + 1;
    }
    proof {
        assert(rows@.take(rows@.len() as int) =~= rows@);
        law_csv_one_record_per_row(rows@);
        assert forall|k: int| 0 <= k < rows@.len() implies (#[trigger] res@[k + 1])@.map_values(|f: String| f@)
            == csv_table(rows@)[k + 1] by {
            assert(fields_of(res@)[k + 1] == res@[k + 1]@.map_values(|f: String| f@));
        }
    }
    res
}

/// The CSV text of the export of `rows`: the header and one row per track,
/// written by the `csv` crate with its default settings.
pub fn song_stats_csv(rows: &[(String, SongStats)]) -> (res: Result<Vec<u8>, CsvExportError>)
    ensures
        res is Ok,
        res matches Ok(bytes) ==> bytes@ == csv_text(records_bytes(csv_table(rows@))),
{
    let records = csv_records(rows);
    let mut w = csv_buffer_new();
    let mut i: usize = 0;
    proof {
        assert(fields_of(records@).len() == records@.len());
        assert forall|k: int| 0 <= k < records@.len() implies (#[trigger] records@[k])@.len() == 5 by {
            assert(fields_of(records@)[k] == records@[k]@.map_values(|f: String| f@));
            assert(rows@.len() > 0);
            let rest = rows@.map_values(|r: (String, SongStats)| csv_row(r));
            assert(csv_table(rows@) == seq![csv_header()] + rest);
            if k > 0 {
                assert(csv_table(rows@)[k] == rest[k - 1]);
                assert(rest[k - 1] == csv_row(rows@[k - 1]));
            } else {
                assert(csv_table(rows@)[k] == csv_header());
            }
        }
    }
    while i < records.len()
        invariant
            i <= records@.len(),
            fields_of(records@) == csv_table(rows@),
            forall|k: int| 0 <= k < records@.len() ==> (#[trigger] records@[k])@.len() == 5,
            csv_records_written(w) == records_bytes(fields_of(records@.take(i as int))),
        decreases records@.len() - i,
    {
        proof {
            if i > 0 {
                assert(records_bytes(fields_of(records@.take(i as int)))[0].len() == records@[0]@.len());
            }
        }
        match csv_write_record(w, &records[i]) {
            Ok(w2) => {
                w = w2;
            },
            Err(e) => {
                return Err(CsvExportError::Write(e));
            },
        }
        proof {
            let r = records@[i as int];
            assert(r@.map_values(|f: String| f@).map_values(|f: Seq<char>| encode_utf8(f)) =~= r@.map_values(
                |f: String| encode_utf8(f@),
            ));
            assert(fields_of(records@.take(i + 1)) =~= fields_of(records@.take(i as int)).push(
                r@.map_values(|f: String| f@),
            ));
            assert(records_bytes(fields_of(records@.take(i + 1))) =~= records_bytes(
                fields_of(records@.take(i as int)),
            ).push(records@[i as int]@.map_values(|f: String| encode_utf8(f@))));
        }
        i = i + 1;
    }
    proof {
        assert(records@.take(records@.len() as int) =~= records@);
    }
    match csv_buffer_finish(w) {
        Ok(bytes) => Ok(bytes),
        Err(e) => Err(CsvExportError::Flush(e)),
    }
}

} // verus!
