use rust_grid_calc::adif::{batch_parse_records, export_adi, format_record, parse_adi,
    parse_fields, validate_record};
use rust_grid_calc::record::Record;

#[test]
fn test_parse_simple_field() {
    let text = "<CALL:5>W4GNS";
    let result = parse_fields(text);
    let call = result.get("CALL").unwrap();
    assert_eq!(call, "W4GNS");
}

#[test]
fn test_parse_multiple_fields() {
    let text = "<CALL:5>W4GNS<QSO_DATE:8>20240101<TIME_ON:4>1234";
    let result = parse_fields(text);
    assert_eq!(result.len(), 3);
}

#[test]
fn tokenizer_three_fields_with_values() {
    let text = "<CALL:5>W4GNS<QSO_DATE:8>20240101<TIME_ON:4>1234";
    let result = parse_fields(text);
    assert_eq!(result.len(), 3);
    assert_eq!(result.get("CALL").unwrap(), "W4GNS");
    assert_eq!(result.get("QSO_DATE").unwrap(), "20240101");
    assert_eq!(result.get("TIME_ON").unwrap(), "1234");
}

#[test]
fn malformed_unterminated_tag_is_dropped() {
    // the unterminated tag must not raise; it yields no field
    let result = parse_fields("<CALL:5W4GNS");
    assert_eq!(result.len(), 0);
}

#[test]
fn malformed_tag_recovers_for_later_fields() {
    let result = parse_fields("<CALL:5W4GNS<BAND:3>40M");
    assert_eq!(result.len(), 1);
    assert_eq!(result.get("BAND").unwrap(), "40M");
}

#[test]
fn field_names_are_uppercased_and_values_trimmed() {
    let result = parse_fields("<call:8>  W4GNS ");
    assert_eq!(result.get("CALL").unwrap(), "W4GNS");
    assert!(result.get("call").is_none());
}

#[test]
fn duplicate_field_keeps_position_takes_last_value() {
    let result = parse_fields("<CALL:1>A<CALL:1>B");
    assert_eq!(result.len(), 1);
    assert_eq!(result.get("CALL").unwrap(), "B");
}

#[test]
fn truncated_value_is_accepted() {
    let result = parse_fields("<CALL:10>ABC");
    assert_eq!(result.len(), 1);
    assert_eq!(result.get("CALL").unwrap(), "ABC");
}

#[test]
fn empty_length_and_stray_tags_are_dropped() {
    let result = parse_fields("text <CALL> more <:> <BAND:xx>junk <MODE:2>CW");
    assert_eq!(result.len(), 1);
    assert_eq!(result.get("MODE").unwrap(), "CW");
}

#[test]
fn format_record_orders_and_measures_fields() {
    let mut rec = Record::new();
    rec.insert("QSO_DATE", "20240101");
    rec.insert("CALL", "W4GNS");
    // CALL stands before QSO_DATE on the priority list, whatever the
    // insertion order was
    let text = format_record(&rec);
    assert_eq!(text, "<CALL:5>W4GNS <QSO_DATE:8>20240101 <EOR>");
}

#[test]
fn format_record_skips_empty_values_and_keeps_unknown_fields() {
    let mut rec = Record::new();
    rec.insert("CALL", "W4GNS");
    rec.insert("COMMENT", "");
    rec.insert("MY_CUSTOM", "x");
    let text = format_record(&rec);
    assert_eq!(text, "<CALL:5>W4GNS <MY_CUSTOM:1>x <EOR>");
}

#[test]
fn export_adi_writes_fixed_header() {
    let records: Vec<Record> = Vec::new();
    let text = export_adi(&records, None, "TestProg", "1.0");
    assert_eq!(
        text,
        "ADIF Export from TestProg\n<PROGRAMID:8>TestProg\n<PROGRAMVERSION:3>1.0\n\
         <ADIF_VER:5>3.1.5\n<EOH>\n\n"
    );
}

#[test]
fn export_then_parse_round_trip() {
    let mut rec = Record::new();
    rec.insert("CALL", "W4GNS");
    rec.insert("QSO_DATE", "20240101");
    rec.insert("TIME_ON", "1234");
    rec.insert("NAME", "Joe");
    let mut hdr = Record::new();
    hdr.insert("MY_HEADER", "yes");
    let text = export_adi(&vec![rec], Some(&hdr), "TestProg", "1.0");
    let (records, header) = parse_adi(text.as_str());
    assert_eq!(records.len(), 1);
    assert_eq!(records[0].len(), 4);
    assert_eq!(records[0].get("CALL").unwrap(), "W4GNS");
    assert_eq!(records[0].get("QSO_DATE").unwrap(), "20240101");
    assert_eq!(records[0].get("TIME_ON").unwrap(), "1234");
    assert_eq!(records[0].get("NAME").unwrap(), "Joe");
    assert_eq!(header.get("MY_HEADER").unwrap(), "yes");
    assert_eq!(header.get("PROGRAMID").unwrap(), "TestProg");
}

#[test]
fn parse_adi_splits_header_and_records() {
    let text = "<PROGRAMID:4>Test<EOH>\n<CALL:4>AAAA<EOR>\n<CALL:4>BBBB<EOR>\n";
    let (records, header) = parse_adi(text);
    assert_eq!(header.get("PROGRAMID").unwrap(), "Test");
    assert_eq!(records.len(), 2);
    assert_eq!(records[0].get("CALL").unwrap(), "AAAA");
    assert_eq!(records[1].get("CALL").unwrap(), "BBBB");
}

#[test]
fn parse_adi_without_header_sentinel_reads_all_as_records() {
    let (records, header) = parse_adi("<CALL:4>AAAA<EOR>");
    assert_eq!(header.len(), 0);
    assert_eq!(records.len(), 1);
    assert_eq!(records[0].get("CALL").unwrap(), "AAAA");
}

#[test]
fn batch_parse_drops_blank_chunks() {
    let records = batch_parse_records("<CALL:4>AAAA<EOR>   \n<EOR><CALL:4>BBBB<EOR>");
    assert_eq!(records.len(), 2);
    assert_eq!(records[0].get("CALL").unwrap(), "AAAA");
    assert_eq!(records[1].get("CALL").unwrap(), "BBBB");
}

#[test]
fn empty_input_parses_to_nothing() {
    assert_eq!(parse_fields("").len(), 0);
    let (records, header) = parse_adi("");
    assert_eq!(records.len(), 0);
    assert_eq!(header.len(), 0);
}

#[test]
fn oversized_length_token_drops_the_tag() {
    let result = parse_fields("<CALL:99999999999999999999999>W4GNS<MODE:2>CW");
    assert_eq!(result.len(), 1);
    assert_eq!(result.get("MODE").unwrap(), "CW");
}

#[test]
fn length_token_accepts_plus_sign_and_padding() {
    let result = parse_fields("<CALL: +5 >W4GNS");
    assert_eq!(result.get("CALL").unwrap(), "W4GNS");
}

#[test]
fn validate_record_reports_missing_time_on() {
    let mut rec = Record::new();
    rec.insert("CALL", "W4GNS");
    rec.insert("QSO_DATE", "20240101");
    let (ok, missing) = validate_record(&rec);
    assert!(!ok);
    assert_eq!(missing, vec!["TIME_ON".to_string()]);
}

#[test]
fn validate_record_accepts_complete_record() {
    let mut rec = Record::new();
    rec.insert("CALL", "W4GNS");
    rec.insert("QSO_DATE", "20240101");
    rec.insert("TIME_ON", "1234");
    let (ok, missing) = validate_record(&rec);
    assert!(ok);
    assert!(missing.is_empty());
}

#[test]
fn validate_record_treats_blank_as_missing() {
    let mut rec = Record::new();
    rec.insert("CALL", "   ");
    rec.insert("QSO_DATE", "20240101");
    rec.insert("TIME_ON", "1234");
    let (ok, missing) = validate_record(&rec);
    assert!(!ok);
    assert_eq!(missing, vec!["CALL".to_string()]);
}
