//! The CSV report of one block's histogram: a header row `account,changes`,
//! then one row per account with the address in lowercase hexadecimal and the
//! count in decimal, each row ended by a line feed.

use vstd::prelude::*;
use crate::account::{Address, hex_encode};
use crate::encoding::{
    all_hex_chars, decimal, decimal_value, hex_ascii, hex_decode, lemma_decimal_digits,
    lemma_decimal_round_trip, lemma_hex_ascii_len, lemma_hex_round_trip, push_decimal,
};
use crate::histogram::rows_map;
use crate::histogram::Histogram;

verus! {

/// A CSV writer over an in-memory byte buffer. Verus refuses a declaration
/// of `csv::Writer` itself, whose parameter is bound by `std::io::Write`, so
/// the writer is held here, opaque.
#[verifier::external_body]
pub struct CsvBuffer {
    writer: csv::Writer<Vec<u8>>,
}

#[verifier::external_type_specification]
#[verifier::external_body]
pub struct ExCsvError(csv::Error);

/// The bytes handed so far to a CSV writer over an in-memory buffer, whether
/// still held in its internal buffer or already passed on.
pub uninterp spec fn csv_written(w: CsvBuffer) -> Seq<u8>;

/// Whether a CSV writer stands between records, no field of a record begun,
/// and every record it has written so far had two fields.
pub uninterp spec fn csv_between_records(w: CsvBuffer) -> bool;

/// A field that the CSV writer copies verbatim: no delimiter, quote, carriage
/// return or line feed in it.
pub open spec fn csv_plain(f: Seq<u8>) -> bool {
    forall|i: int| 0 <= i < f.len() ==> {
        let b = #[trigger] f[i];
        b != 44 && b != 34 && b != 13 && b != 10
    }
}

/// Relies on csv::Writer::from_writer: a writer with the default settings
/// (comma delimiter, `"` quote, line-feed terminator, quoting only where
/// needed) that has written nothing yet.
#[verifier::external_body]
fn new_csv_writer() -> (w: CsvBuffer)
    ensures
        csv_written(w) == Seq::<u8>::empty(),
        csv_between_records(w),
{
    CsvBuffer { writer: csv::Writer::from_writer(Vec::new()) }
}

/// Relies on csv::Writer::write_record: a record of two plain fields is
/// written as the first field, a comma, the second field and a line feed.
/// It fails only where the in-memory buffer fails to take bytes, which a
/// `Vec<u8>` never does, or where the record's field count differs from the
/// first record's.
#[verifier::external_body]
fn write_csv_record(w: &mut CsvBuffer, a: &Vec<u8>, b: &Vec<u8>) -> (r: Result<
    (),
    csv::Error,
>)
    ensures
        csv_between_records(*old(w)) ==> r is Ok,
        r is Ok ==> csv_between_records(*final(w)),
        r is Ok && csv_between_records(*old(w)) && csv_plain(a@) && csv_plain(b@) ==> csv_written(
            *final(w),
        ) == csv_written(*old(w)) + a@ + seq![44u8] + b@ + seq![10u8],
{
    w.writer.write_record([a, b])
}

/// Relies on csv::Writer::into_inner: flushes the internal buffer and hands
/// back the underlying buffer, which then holds all that was written. The
/// flush writes into a `Vec<u8>`, which never fails.
#[verifier::external_body]
fn finish_csv(w: CsvBuffer) -> (r: Result<Vec<u8>, csv::Error>)
    ensures
        r is Ok,
        r is Ok ==> r->Ok_0@ == csv_written(w),
{
    w.writer.into_inner().map_err(|e| csv::Error::from(e.into_error()))
}

/// The header row `account,changes` with its line feed.
pub open spec fn header_line() -> Seq<u8> {
    seq![97u8, 99, 99, 111, 117, 110, 116, 44, 99, 104, 97, 110, 103, 101, 115, 10]
}

/// The report row of one (address, count) pair.
pub open spec fn row_text(row: (Seq<u8>, usize)) -> Seq<u8> {
    hex_ascii(row.0) + seq![44u8] + decimal(row.1 as nat) + seq![10u8]
}

/// The report rows of a sequence of pairs, in order.
pub open spec fn rows_text(rows: Seq<(Seq<u8>, usize)>) -> Seq<u8>
    decreases rows.len(),
{
    if rows.len() == 0 {
        seq![]
    } else {
        row_text(rows[0]) + rows_text(rows.skip(1))
    }
}

/// The full report of a sequence of rows.
pub open spec fn report_text(rows: Seq<(Seq<u8>, usize)>) -> Seq<u8> {
    header_line() + rows_text(rows)
}

pub proof fn lemma_rows_text_push(rows: Seq<(Seq<u8>, usize)>, r: (Seq<u8>, usize))
    ensures
        rows_text(rows.push(r)) == rows_text(rows) + row_text(r),
    decreases rows.len(),
{
    if rows.len() == 0 {
        assert(rows.push(r).skip(1) =~= Seq::<(Seq<u8>, usize)>::empty());
        assert(rows_text(Seq::<(Seq<u8>, usize)>::empty()) == Seq::<u8>::empty());
        assert(rows.push(r)[0] == r);
        assert(rows_text(rows.push(r)) =~= row_text(r));
    } else {
        assert(rows.push(r).skip(1) =~= rows.skip(1).push(r));
        lemma_rows_text_push(rows.skip(1), r);
        assert(rows.push(r)[0] == rows[0]);
        assert(rows_text(rows.push(r)) =~= rows_text(rows) + row_text(r));
    }
}

proof fn lemma_hex_plain(b: Seq<u8>)
    ensures
        csv_plain(hex_ascii(b)),
{
    lemma_hex_ascii_len(b);
    let h = hex_ascii(b);
    assert(all_hex_chars(h));
}

proof fn lemma_decimal_plain(n: nat)
    ensures
        csv_plain(decimal(n)),
{
    lemma_decimal_digits(n);
}

/// Renders the report of a histogram: the header row, then its rows in order.
pub fn render_report(h: &Histogram) -> (r: Vec<u8>)
    ensures
        r@ == report_text(h.rows()),
{
    let mut w = new_csv_writer();
    let account: Vec<u8> = vec![97u8, 99, 99, 111, 117, 110, 116];
    let changes: Vec<u8> = vec![99u8, 104, 97, 110, 103, 101, 115];
    write_csv_record(&mut w, &account, &changes).unwrap();
    assert(csv_written(w) =~= header_line());
    let n = h.len();
    let mut i: usize = 0;
    while i < n
        invariant
            n == h.rows().len(),
            i <= n,
            csv_between_records(w),
            csv_written(w) == report_text(h.rows().take(i as int)),
        decreases n - i,
    {
        let (a, c) = h.row(i);
        let hex = hex_encode(&a);
        let mut count: Vec<u8> = Vec::new();
        push_decimal(c as u64, &mut count);
        proof {
            lemma_hex_plain(a@);
            lemma_decimal_plain(c as nat);
            assert(count@ =~= decimal(c as nat));
        }
        write_csv_record(&mut w, &hex, &count).unwrap();
        proof {
            let rows = h.rows();
            assert(rows.take(i as int + 1) =~= rows.take(i as int).push(rows[i as int]));
            lemma_rows_text_push(rows.take(i as int), rows[i as int]);
            assert(csv_written(w) =~= report_text(rows.take(i as int + 1)));
        }
        i = i + 1;
    }
    assert(h.rows().take(n as int) =~= h.rows());
    finish_csv(w).unwrap()
}

/// Index of the first line feed in `s`, or the length of `s` if there is none.
pub open spec fn line_end(s: Seq<u8>) -> nat
    decreases s.len(),
{
    if s.len() == 0 {
        0
    } else if s[0] == 10 {
        0
    } else {
        1 + line_end(s.skip(1))
    }
}

/// Reads the rows of a report body: each line holds forty hexadecimal
/// digits, a comma and a decimal count, and ends with a line feed.
pub open spec fn parse_rows(s: Seq<u8>) -> Option<Seq<(Seq<u8>, usize)>>
    decreases s.len(),
{
    if s.len() == 0 {
        Some(seq![])
    } else {
        let e = line_end(s) as int;
        if e >= s.len() || e < 42 || s[40] != 44 {
            None
        } else {
            match parse_rows(s.skip(e + 1)) {
                Some(rest) => Some(
                    seq![(hex_decode(s.subrange(0, 40)), decimal_value(s.subrange(41, e)) as usize)]
                        + rest,
                ),
                None => None,
            }
        }
    }
}

/// Reads a whole report: the header row, then the rows.
pub open spec fn parse_report(s: Seq<u8>) -> Option<Seq<(Seq<u8>, usize)>> {
    if s.len() >= 16 && s.take(16) == header_line() {
        parse_rows(s.skip(16))
    } else {
        None
    }
}

proof fn lemma_line_end(s: Seq<u8>, k: int)
    requires
        0 <= k < s.len(),
        s[k] == 10,
        forall|i: int| 0 <= i < k ==> s[i] != 10,
    ensures
        line_end(s) == k,
    decreases k,
{
    if k > 0 {
        assert forall|i: int| 0 <= i < k - 1 implies s.skip(1)[i] != 10 by {
            assert(s.skip(1)[i] == s[i + 1]);
        }
        lemma_line_end(s.skip(1), k - 1);
    }
}

proof fn lemma_parse_row(r: (Seq<u8>, usize), rest: Seq<u8>)
    requires
        r.0.len() == 20,
    ensures
        parse_rows(row_text(r) + rest) == (match parse_rows(rest) {
            Some(t) => Some(seq![r] + t),
            None => None::<Seq<(Seq<u8>, usize)>>,
        }),
{
    let hex = hex_ascii(r.0);
    let dec = decimal(r.1 as nat);
    lemma_hex_ascii_len(r.0);
    lemma_decimal_digits(r.1 as nat);
    lemma_hex_round_trip(r.0);
    lemma_decimal_round_trip(r.1 as nat);
    let s = row_text(r) + rest;
    let e: int = 41 + dec.len() as int;
    assert(hex.len() == 40);
    assert forall|i: int| 0 <= i < e implies s[i] != 10 by {
        if i < 40 {
            assert(s[i] == hex[i]);
            assert(all_hex_chars(hex));
        } else if i > 40 {
            assert(s[i] == dec[i - 41]);
        }
    }
    assert(s[e] == 10);
    lemma_line_end(s, e);
    assert(s.subrange(0, 40) =~= hex);
    assert(s.subrange(41, e) =~= dec);
    assert(s.skip(e + 1) =~= rest);
}

pub proof fn lemma_parse_rows_text(rows: Seq<(Seq<u8>, usize)>)
    requires
        forall|i: int| 0 <= i < rows.len() ==> (#[trigger] rows[i]).0.len() == 20,
    ensures
        parse_rows(rows_text(rows)) == Some(rows),
    decreases rows.len(),
{
    if rows.len() > 0 {
        assert forall|i: int| 0 <= i < rows.skip(1).len() implies (
        #[trigger] rows.skip(1)[i]).0.len() == 20 by {
            assert(rows.skip(1)[i] == rows[i + 1]);
        }
        lemma_parse_rows_text(rows.skip(1));
        lemma_parse_row(rows[0], rows_text(rows.skip(1)));
        assert(seq![rows[0]] + rows.skip(1) =~= rows);
    }
}

/// Reading back the report rendered from a histogram gives its rows, in
/// order, and so the histogram itself.
pub proof fn lemma_report_round_trip(h: Histogram)
    ensures
        parse_report(report_text(h.rows())) == Some(h.rows()),
        rows_map(h.rows()) == h@,
{
    h.lemma_rows_are_addresses();
    lemma_parse_rows_text(h.rows());
    let s = report_text(h.rows());
    assert(s.take(16) =~= header_line());
    assert(s.skip(16) =~= rows_text(h.rows()));
}

} // verus!
