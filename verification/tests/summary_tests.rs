use one_brc_rs::pipeline::{aggregate_range, compute_summary, ParseError, SummaryError};
use one_brc_rs::record::Record;
use one_brc_rs::report::render_summary;
use one_brc_rs::table::AggregationTable;

#[test]
fn end_to_end_example() {
    let input = b"Paris;8.5\nParis;-6.9\nHamburg;12.0\n";
    let out = compute_summary(input).expect("well-formed input");
    assert_eq!(
        String::from_utf8(out).unwrap(),
        "{Hamburg=12.0/12.0/12.0, Paris=-6.9/0.8/8.5}\n"
    );
}

#[test]
fn single_record_summary() {
    let out = compute_summary(b"X;-0.5\n").expect("well-formed input");
    assert_eq!(String::from_utf8(out).unwrap(), "{X=-0.5/-0.5/-0.5}\n");
}

#[test]
fn three_digit_values_render_exactly() {
    let input = b"A;999.9\nA;-999.9\nB;100.0\n";
    let out = compute_summary(input).expect("well-formed input");
    assert_eq!(
        String::from_utf8(out).unwrap(),
        "{A=-999.9/0.0/999.9, B=100.0/100.0/100.0}\n"
    );
}

#[test]
fn mean_rounds_to_one_decimal() {
    // 8.5 and -6.9 sum to 1.6 over two values: mean 0.8 exactly.
    let out = compute_summary(b"P;8.5\nP;-6.9\n").expect("well-formed input");
    assert_eq!(String::from_utf8(out).unwrap(), "{P=-6.9/0.8/8.5}\n");
    // 0.1 and 0.2 average to 0.15, rounded away from zero to 0.2.
    let out = compute_summary(b"P;0.1\nP;0.2\n").expect("well-formed input");
    assert_eq!(String::from_utf8(out).unwrap(), "{P=0.1/0.2/0.2}\n");
    // -0.1 and -0.2 average to -0.15, rounded away from zero to -0.2.
    let out = compute_summary(b"P;-0.1\nP;-0.2\n").expect("well-formed input");
    assert_eq!(String::from_utf8(out).unwrap(), "{P=-0.2/-0.2/-0.1}\n");
}

#[test]
fn missing_trailing_newline_is_fatal() {
    assert_eq!(
        compute_summary(b"Paris;8.5"),
        Err(SummaryError::MissingNewline)
    );
    assert_eq!(compute_summary(b""), Err(SummaryError::MissingNewline));
}

#[test]
fn malformed_line_reports_its_offset() {
    // The second line is malformed (two decimal digits); it starts at
    // byte 10.
    assert_eq!(
        compute_summary(b"Paris;8.5\nParis;8.55\nHamburg;12.0\n"),
        Err(SummaryError::Grammar(ParseError { offset: 10 }))
    );
    // A line with no separator, first in the input: offset 0.
    assert_eq!(
        compute_summary(b"Paris8.5\n"),
        Err(SummaryError::Grammar(ParseError { offset: 0 }))
    );
    // An empty input line (the file is just one newline).
    assert_eq!(
        compute_summary(b"\n"),
        Err(SummaryError::Grammar(ParseError { offset: 0 }))
    );
}

#[test]
fn empty_table_renders_bare_braces() {
    let out = render_summary(AggregationTable::new());
    assert_eq!(String::from_utf8(out).unwrap(), "{}\n");
}

#[test]
fn aggregate_range_reports_absolute_offsets() {
    // Region holding the tail of a buffer; the bad line starts at byte 12.
    let data = b"A;1.0\nB;2.0\nC;bad\nD;4.0";
    let mut table = AggregationTable::new();
    assert_eq!(
        aggregate_range(data, 6, data.len(), &mut table),
        Err(ParseError { offset: 12 })
    );
    // The same region up to the bad line aggregates fine.
    let mut table = AggregationTable::new();
    assert_eq!(aggregate_range(data, 6, 11, &mut table), Ok(()));
    assert_eq!(table.total(), 1);
}

#[test]
fn record_tracks_exact_aggregates() {
    let mut rec = Record::new(b"Paris", 85);
    rec.add(-69);
    rec.add(120);
    assert_eq!(rec.city.as_slice(), b"Paris");
    assert_eq!(rec.sum, 136);
    assert_eq!(rec.count, 3);
    assert_eq!(rec.min_max(), (-69, 120));
    // avg is the scaled mean, rounded to nearest: 136 / 3 = 45.33 -> 45.
    assert_eq!(rec.avg(), 45);

    let other = Record::new(b"Paris", -200);
    rec.merge(&other);
    assert_eq!(rec.sum, -64);
    assert_eq!(rec.count, 4);
    assert_eq!(rec.min_max(), (-200, 120));
}
