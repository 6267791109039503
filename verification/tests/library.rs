//! Concrete cases for the library's parts: records, the core parser, the
//! reader, the writer, the row decoder and the property helpers.

use csv::byte_record::ByteRecord;
use csv::core_reader::{CoreConfig, CoreReader, ReadRecordResult, Terminator};
use csv::deserializer::{deserialize_row, DeserializeError, RowField};
use csv::error::Error;
use csv::etna::{
    normalize_field, property_byte_record_eq_matches_fields, property_comment_only_at_record_start,
    property_deserialize_byte_buf_accepts_non_utf8, property_reset_clears_output_position,
    property_trim_all_applies_without_headers, property_writer_comment_char_auto_quote,
    replay_witnesses, split_bytes, str_eq, PropertyResult,
};
use csv::reader::{ReaderBuilder, Trim};
use csv::writer::{QuoteStyle, WriterBuilder};

fn rec(fields: &[&[u8]]) -> ByteRecord {
    let v: Vec<Vec<u8>> = fields.iter().map(|f| f.to_vec()).collect();
    ByteRecord::from_fields(&v)
}

fn fields_of(r: &ByteRecord) -> Vec<Vec<u8>> {
    (0..r.len()).map(|i| r.get(i).unwrap().to_vec()).collect()
}

fn read_all(mut rdr: csv::reader::Reader) -> Vec<Result<Vec<Vec<u8>>, Error>> {
    let mut out = Vec::new();
    loop {
        let mut r = ByteRecord::new();
        match rdr.read_byte_record(&mut r) {
            Ok(true) => out.push(Ok(fields_of(&r))),
            Ok(false) => return out,
            Err(e) => {
                out.push(Err(e));
                return out;
            }
        }
    }
}

fn write_records(b: WriterBuilder, records: &[&[&[u8]]]) -> (Vec<u8>, Vec<Result<(), Error>>) {
    let mut w = b.from_writer(Vec::new());
    let mut results = Vec::new();
    for r in records {
        let v: Vec<Vec<u8>> = r.iter().map(|f| f.to_vec()).collect();
        results.push(w.write_record(&v));
    }
    (w.into_inner(), results)
}

// ---------- normalization and splitting ----------

#[test]
fn normalize_keeps_listed_bytes_only() {
    assert_eq!(normalize_field(b"a,b\"c d_e-f.g@h#\xff"), b"abc d_e-f.g@h".to_vec());
}

#[test]
fn normalize_caps_length() {
    let long = vec![b'x'; 40];
    assert_eq!(normalize_field(&long), vec![b'x'; 24]);
    assert_eq!(normalize_field(b""), Vec::<u8>::new());
}

#[test]
fn split_empty_gives_one_empty_piece() {
    assert_eq!(split_bytes(b"", &[1, 2]), vec![Vec::<u8>::new()]);
}

#[test]
fn split_uses_positions_modulo_length_plus_one() {
    // 7 % 5 == 2
    assert_eq!(split_bytes(b"1234", &[7]), vec![b"12".to_vec(), b"34".to_vec()]);
}

#[test]
fn split_drops_ends_and_duplicates_and_sorts() {
    assert_eq!(
        split_bytes(b"1234", &[3, 0, 4, 1, 3]),
        vec![b"1".to_vec(), b"23".to_vec(), b"4".to_vec()]
    );
}

#[test]
fn split_uses_only_first_four_values() {
    assert_eq!(
        split_bytes(b"123456", &[0, 0, 0, 0, 3]),
        vec![b"123456".to_vec()]
    );
}

// ---------- byte records ----------

#[test]
fn byte_record_fields_and_slice() {
    let r = rec(&[b"ab", b"", b"cde"]);
    assert_eq!(r.len(), 3);
    assert!(!r.is_empty());
    assert_eq!(r.get(0), Some(&b"ab"[..]));
    assert_eq!(r.get(1), Some(&b""[..]));
    assert_eq!(r.get(2), Some(&b"cde"[..]));
    assert_eq!(r.get(3), None);
    assert_eq!(r.as_slice(), b"abcde");
}

#[test]
fn byte_record_eq_respects_boundaries() {
    let a = rec(&[b"12", b"34"]);
    let b = rec(&[b"123", b"4"]);
    assert_eq!(a.as_slice(), b.as_slice());
    assert!(!(a == b));
    assert!(!a.eq_fields(&b));
}

#[test]
fn byte_record_eq_respects_length() {
    let a = rec(&[b"12", b"34", b""]);
    let b = rec(&[b"12", b"34"]);
    assert!(!(a == b));
    let c = rec(&[b"12", b"34"]);
    assert!(b == c);
    assert!(b.eq_fields(&c));
}

#[test]
fn byte_record_push_clear_clone() {
    let mut r = ByteRecord::new();
    assert!(r.is_empty());
    r.push_field(b"x");
    r.push_field(b"yz");
    let c = r.clone_record();
    assert_eq!(fields_of(&c), vec![b"x".to_vec(), b"yz".to_vec()]);
    r.clear();
    assert_eq!(r.len(), 0);
    assert_eq!(c.len(), 2);
}

#[test]
fn byte_record_trim_strips_ascii_whitespace() {
    let mut r = rec(&[b" a\t", b"\r\n", b"b c", b"\x0cd "]);
    r.trim();
    assert_eq!(
        fields_of(&r),
        vec![b"a".to_vec(), b"".to_vec(), b"b c".to_vec(), b"d".to_vec()]
    );
}

// ---------- core parser ----------

#[test]
fn core_reads_simple_record() {
    let mut r = CoreReader::new();
    let mut out = [0u8; 16];
    let mut ends = [0usize; 4];
    let (res, nin, nout, nend) = r.read_record(b"a,bc\nzz", &mut out, &mut ends);
    assert_eq!(res, ReadRecordResult::Record);
    assert_eq!((nin, nout, nend), (5, 3, 2));
    assert_eq!(&out[..3], b"abc");
    assert_eq!(&ends[..2], &[1, 3]);
}

#[test]
fn core_reads_quoted_field_with_doubled_quote() {
    let mut r = CoreReader::new();
    let mut out = [0u8; 16];
    let mut ends = [0usize; 4];
    let (res, nin, nout, nend) = r.read_record(b"\"x,\"\"y\",z\n", &mut out, &mut ends);
    assert_eq!(res, ReadRecordResult::Record);
    assert_eq!((nin, nout, nend), (10, 5, 2));
    assert_eq!(&out[..5], b"x,\"yz");
    assert_eq!(&ends[..2], &[4, 5]);
}

#[test]
fn core_skips_comment_lines() {
    let mut cfg = CoreConfig::new();
    cfg.comment = Some(b'#');
    let mut r = CoreReader::with_config(cfg);
    let mut out = [0u8; 16];
    let mut ends = [0usize; 4];
    let (res, nin, nout, nend) = r.read_record(b"#skip,me\nk\n", &mut out, &mut ends);
    assert_eq!(res, ReadRecordResult::Record);
    assert_eq!((nin, nout, nend), (11, 1, 1));
    assert_eq!(out[0], b'k');
    assert_eq!(ends[0], 1);
}

#[test]
fn core_input_empty_then_end_of_input_completes_record() {
    let mut r = CoreReader::new();
    let mut out = [0u8; 16];
    let mut ends = [0usize; 4];
    let (res, nin, nout, nend) = r.read_record(b"ab", &mut out, &mut ends);
    assert_eq!(res, ReadRecordResult::InputEmpty);
    assert_eq!((nin, nout, nend), (2, 2, 0));
    let (res, nin, nout, nend) = r.read_record(b"", &mut out[2..], &mut ends);
    assert_eq!(res, ReadRecordResult::Record);
    assert_eq!((nin, nout, nend), (0, 0, 1));
    assert_eq!(ends[0], 2);
    let (res, _, _, _) = r.read_record(b"", &mut out, &mut ends);
    assert_eq!(res, ReadRecordResult::End);
}

#[test]
fn core_reports_full_output_buffers() {
    let mut r = CoreReader::new();
    let mut out = [0u8; 2];
    let mut ends = [0usize; 4];
    let (res, nin, nout, _) = r.read_record(b"abcd\n", &mut out, &mut ends);
    assert_eq!(res, ReadRecordResult::OutputFull);
    assert_eq!((nin, nout), (2, 2));

    let mut r = CoreReader::new();
    let mut out = [0u8; 8];
    let mut ends = [0usize; 1];
    let (res, _, _, nend) = r.read_record(b"a,b\n", &mut out, &mut ends);
    assert_eq!(res, ReadRecordResult::OutputEndsFull);
    assert_eq!(nend, 1);
}

#[test]
fn core_reset_clears_partial_record() {
    let mut r = CoreReader::new();
    let mut out = [0u8; 16];
    let mut ends = [0usize; 4];
    let _ = r.read_record(b"baz", &mut out, &mut ends);
    r.reset();
    let (res, _, nout, nend) = r.read_record(b"q,r\n", &mut out, &mut ends);
    assert_eq!(res, ReadRecordResult::Record);
    assert_eq!((nout, nend), (2, 2));
    assert_eq!(&ends[..2], &[1, 2]);
}

#[test]
fn core_custom_terminator_and_escape() {
    let mut cfg = CoreConfig::new();
    cfg.term = Terminator::Any(b';');
    cfg.escape = Some(b'\\');
    cfg.double_quote = false;
    let mut r = CoreReader::with_config(cfg);
    let mut out = [0u8; 16];
    let mut ends = [0usize; 4];
    let (res, nin, nout, nend) = r.read_record(b"\"a\\\"b\";x", &mut out, &mut ends);
    assert_eq!(res, ReadRecordResult::Record);
    assert_eq!((nin, nout, nend), (7, 3, 1));
    assert_eq!(&out[..3], b"a\"b");
}

// ---------- reader ----------

#[test]
fn reader_skips_header_record() {
    let rdr = ReaderBuilder::new().from_reader(b"h1,h2\n1,2\n3,4\n");
    assert_eq!(
        read_all(rdr),
        vec![
            Ok(vec![b"1".to_vec(), b"2".to_vec()]),
            Ok(vec![b"3".to_vec(), b"4".to_vec()]),
        ]
    );
}

#[test]
fn reader_without_headers_returns_first_record() {
    let rdr = ReaderBuilder::new().has_headers(false).from_reader(b"a,b\r\nc,d");
    assert_eq!(
        read_all(rdr),
        vec![
            Ok(vec![b"a".to_vec(), b"b".to_vec()]),
            Ok(vec![b"c".to_vec(), b"d".to_vec()]),
        ]
    );
}

#[test]
fn reader_refuses_unequal_lengths() {
    let rdr = ReaderBuilder::new().has_headers(false).from_reader(b"a,b\nc\n");
    assert_eq!(
        read_all(rdr),
        vec![
            Ok(vec![b"a".to_vec(), b"b".to_vec()]),
            Err(Error::UnequalLengths { expected_len: 2, len: 1 }),
        ]
    );
}

#[test]
fn reader_flexible_accepts_unequal_lengths() {
    let rdr = ReaderBuilder::new().has_headers(false).flexible(true).from_reader(b"a,b\nc\n");
    assert_eq!(
        read_all(rdr),
        vec![Ok(vec![b"a".to_vec(), b"b".to_vec()]), Ok(vec![b"c".to_vec()])]
    );
}

#[test]
fn reader_trim_modes() {
    let data: &[u8] = b" h \n a , b \n";
    let fields = read_all(ReaderBuilder::new().flexible(true).trim(Trim::Fields).from_reader(data));
    assert_eq!(fields, vec![Ok(vec![b"a".to_vec(), b"b".to_vec()])]);
    let headers_only =
        read_all(ReaderBuilder::new().flexible(true).trim(Trim::Headers).from_reader(data));
    assert_eq!(headers_only, vec![Ok(vec![b" a ".to_vec(), b" b ".to_vec()])]);
    let off = read_all(
        ReaderBuilder::new().has_headers(false).flexible(true).trim(Trim::Off).from_reader(data),
    );
    assert_eq!(
        off,
        vec![Ok(vec![b" h ".to_vec()]), Ok(vec![b" a ".to_vec(), b" b ".to_vec()])]
    );
}

#[test]
fn reader_trim_all_without_headers() {
    let rdr = ReaderBuilder::new().has_headers(false).trim(Trim::All).from_reader(b" x\t,\ty \n");
    assert_eq!(read_all(rdr), vec![Ok(vec![b"x".to_vec(), b"y".to_vec()])]);
}

#[test]
fn reader_comment_and_delimiter_settings() {
    let rdr = ReaderBuilder::new()
        .has_headers(false)
        .delimiter(b';')
        .comment(Some(b'#'))
        .from_reader(b"#note\na;#b\n");
    assert_eq!(read_all(rdr), vec![Ok(vec![b"a".to_vec(), b"#b".to_vec()])]);
}

#[test]
fn reader_quoting_off_keeps_quotes() {
    let rdr = ReaderBuilder::new().has_headers(false).quoting(false).from_reader(b"\"a\",b\n");
    assert_eq!(read_all(rdr), vec![Ok(vec![b"\"a\"".to_vec(), b"b".to_vec()])]);
}

#[test]
fn reader_long_record_spans_buffers() {
    let mut data = Vec::new();
    for i in 0..100 {
        if i > 0 {
            data.push(b',');
        }
        data.extend_from_slice(&[b'v'; 30]);
    }
    data.push(b'\n');
    let rows = read_all(ReaderBuilder::new().has_headers(false).from_reader(&data));
    assert_eq!(rows.len(), 1);
    let row = rows[0].as_ref().unwrap();
    assert_eq!(row.len(), 100);
    assert!(row.iter().all(|f| f == &vec![b'v'; 30]));
}

#[test]
fn reader_empty_input_has_no_records() {
    let rdr = ReaderBuilder::new().has_headers(false).from_reader(b"");
    assert_eq!(read_all(rdr), vec![]);
}

// ---------- writer ----------

#[test]
fn writer_quotes_only_where_needed() {
    let (out, res) = write_records(
        WriterBuilder::new(),
        &[&[b"a", b"b,c", b"d\"e"], &[b"x\ny", b"", b"z"]],
    );
    assert_eq!(res, vec![Ok(()), Ok(())]);
    assert_eq!(out, b"a,\"b,c\",\"d\"\"e\"\n\"x\ny\",,z\n".to_vec());
}

#[test]
fn writer_quote_styles() {
    let (always, _) = write_records(WriterBuilder::new().quote_style(QuoteStyle::Always), &[&[b"a", b""]]);
    assert_eq!(always, b"\"a\",\"\"\n".to_vec());
    let (never, _) = write_records(WriterBuilder::new().quote_style(QuoteStyle::Never), &[&[b"a,b"]]);
    assert_eq!(never, b"a,b\n".to_vec());
}

#[test]
fn writer_empty_record_is_two_quotes() {
    let (out, res) = write_records(WriterBuilder::new(), &[&[b""]]);
    assert_eq!(res, vec![Ok(())]);
    assert_eq!(out, b"\"\"\n".to_vec());
}

#[test]
fn writer_comment_byte_forces_quotes() {
    let (out, _) = write_records(WriterBuilder::new().comment(Some(b'#')), &[&[b"#x", b"after"]]);
    assert_eq!(out, b"\"#x\",after\n".to_vec());
    let (plain, _) = write_records(WriterBuilder::new(), &[&[b"#x"]]);
    assert_eq!(plain, b"#x\n".to_vec());
}

#[test]
fn writer_crlf_and_escape_settings() {
    let (out, _) = write_records(
        WriterBuilder::new().terminator(Terminator::CRLF).double_quote(false).escape(b'\\'),
        &[&[b"a\"b", b"c"]],
    );
    assert_eq!(out, b"\"a\\\"b\",c\r\n".to_vec());
}

#[test]
fn writer_refuses_unequal_lengths_unless_flexible() {
    let (out, res) = write_records(WriterBuilder::new(), &[&[b"a", b"b"], &[b"c"]]);
    assert_eq!(res, vec![Ok(()), Err(Error::UnequalLengths { expected_len: 2, len: 1 })]);
    assert_eq!(out, b"a,b\nc".to_vec());
    let (out, res) = write_records(WriterBuilder::new().flexible(true), &[&[b"a", b"b"], &[b"c"]]);
    assert_eq!(res, vec![Ok(()), Ok(())]);
    assert_eq!(out, b"a,b\nc\n".to_vec());
}

#[test]
fn writer_field_by_field() {
    let mut w = WriterBuilder::new().delimiter(b'\t').from_writer(b"# ".to_vec());
    w.write_field(b"one");
    w.write_field(b"t\two");
    assert_eq!(w.write_terminator(), Ok(()));
    assert_eq!(w.into_inner(), b"# one\t\"t\two\"\n".to_vec());
}

#[test]
fn write_then_read_round_trip() {
    let records: &[&[&[u8]]] = &[&[b"plain", b"with,comma", b"\"quoted\""], &[b"line\r\nbreak", b"", b"#hash"]];
    let (out, res) = write_records(
        WriterBuilder::new().comment(Some(b'#')).terminator(Terminator::CRLF),
        records,
    );
    assert_eq!(res, vec![Ok(()), Ok(())]);
    let back = read_all(ReaderBuilder::new().has_headers(false).comment(Some(b'#')).from_reader(&out));
    let expected: Vec<Result<Vec<Vec<u8>>, Error>> = records
        .iter()
        .map(|r| Ok(r.iter().map(|f| f.to_vec()).collect()))
        .collect();
    assert_eq!(back, expected);
}

// ---------- row decoding ----------

#[test]
fn deserialize_by_headers_in_any_order() {
    let headers = rec(&[b"h3", b"other", b"h1", b"h2"]);
    let record = rec(&[b"three", b"skip", b"one", b"\xfe\xff"]);
    let row = deserialize_row(&record, Some(&headers)).unwrap();
    assert_eq!(row.h1, "one");
    assert_eq!(row.h2, b"\xfe\xff".to_vec());
    assert_eq!(row.h3, "three");
}

#[test]
fn deserialize_decodes_multibyte_text() {
    let headers = rec(&[b"h1", b"h2", b"h3"]);
    let record = rec(&[b"caf\xc3\xa9", b"", "\u{1F600}".as_bytes()]);
    let row = deserialize_row(&record, Some(&headers)).unwrap();
    assert_eq!(row.h1, "café");
    assert_eq!(row.h3, "\u{1F600}");
}

#[test]
fn deserialize_errors_by_headers() {
    let record = rec(&[b"a", b"b", b"c"]);
    let missing = deserialize_row(&record, Some(&rec(&[b"h1", b"h3", b"x"])));
    assert!(matches!(missing, Err(DeserializeError::MissingField(RowField::H2))));
    let dup = deserialize_row(&record, Some(&rec(&[b"h1", b"h1", b"h2", b"h3"])));
    assert!(matches!(dup, Err(DeserializeError::DuplicateField(RowField::H1))));
    let short = deserialize_row(&record, Some(&rec(&[b"x", b"y", b"z", b"h1"])));
    assert!(matches!(short, Err(DeserializeError::UnexpectedEndOfRow)));
    let bad = deserialize_row(&rec(&[b"a", b"b", b"\xff"]), Some(&rec(&[b"h1", b"h2", b"h3"])));
    assert!(matches!(bad, Err(DeserializeError::InvalidUtf8 { field: 2 })));
}

#[test]
fn deserialize_by_position() {
    let row = deserialize_row(&rec(&[b"a", b"\xff", b"c", b"extra"]), None).unwrap();
    assert_eq!(row.h1, "a");
    assert_eq!(row.h2, vec![0xff]);
    assert_eq!(row.h3, "c");
    assert!(matches!(
        deserialize_row(&rec(&[b"a", b"b"]), None),
        Err(DeserializeError::InvalidLength { len: 2 })
    ));
    assert!(matches!(
        deserialize_row(&ByteRecord::new(), None),
        Err(DeserializeError::InvalidLength { len: 0 })
    ));
    assert!(matches!(
        deserialize_row(&rec(&[b"\xc3", b"b", b"c"]), None),
        Err(DeserializeError::InvalidUtf8 { field: 0 })
    ));
}

// ---------- properties outside their domains and on more inputs ----------

#[test]
fn properties_discard_outside_their_domains() {
    assert!(matches!(property_reset_clears_output_position(b"#,\"\n".to_vec()), PropertyResult::Discard));
    assert!(matches!(property_trim_all_applies_without_headers(vec![]), PropertyResult::Discard));
    assert!(matches!(
        property_trim_all_applies_without_headers(vec![b"a".to_vec(); 7]),
        PropertyResult::Discard
    ));
    assert!(matches!(
        property_trim_all_applies_without_headers(vec![b"a b".to_vec(), b"x ".to_vec()]),
        PropertyResult::Discard
    ));
    assert!(matches!(
        property_byte_record_eq_matches_fields(vec![0; 17], vec![], vec![], 0),
        PropertyResult::Discard
    ));
}

#[test]
fn properties_pass_on_more_inputs() {
    let inputs: Vec<Vec<u8>> = vec![
        b"".to_vec(),
        b"\x00\xff,\"\n".to_vec(),
        b"a b c".to_vec(),
        vec![b'z'; 50],
    ];
    for x in &inputs {
        assert!(matches!(property_writer_comment_char_auto_quote(x.clone()), PropertyResult::Pass));
        assert!(matches!(property_comment_only_at_record_start(x.clone()), PropertyResult::Pass));
        assert!(matches!(property_deserialize_byte_buf_accepts_non_utf8(x.clone()), PropertyResult::Pass));
        assert!(matches!(
            property_byte_record_eq_matches_fields(x.iter().take(16).copied().collect(), x.clone(), vec![5, 1], 3),
            PropertyResult::Pass
        ));
    }
    assert!(matches!(property_reset_clears_output_position(b"x@y".to_vec()), PropertyResult::Pass));
    assert!(matches!(
        property_trim_all_applies_without_headers(vec![b"p".to_vec(), b"q r".to_vec()]),
        PropertyResult::Pass
    ));
}

// ---------- laws on concrete values ----------

#[test]
fn comment_byte_inside_a_record_is_an_ordinary_byte() {
    let input: &[u8] = b"a,#b,\"#\"\n";
    let mut plain = CoreReader::new();
    let mut cfg = CoreConfig::new();
    cfg.comment = Some(b'#');
    let mut commented = CoreReader::with_config(cfg);
    let (mut o1, mut e1) = ([0u8; 16], [0usize; 4]);
    let (mut o2, mut e2) = ([0u8; 16], [0usize; 4]);
    let r1 = plain.read_record(input, &mut o1, &mut e1);
    let r2 = commented.read_record(input, &mut o2, &mut e2);
    assert_eq!(r1, (ReadRecordResult::Record, 9, 4, 3));
    assert_eq!(r1, r2);
    assert_eq!(o1, o2);
    assert_eq!(e1, e2);
    assert_eq!(&o2[..4], b"a#b#");
}

#[test]
fn byte_field_content_does_not_change_the_outcome() {
    let headers = rec(&[b"h1", b"h2", b"h3"]);
    for bytes in [&b""[..], b"ok", b"\xff\xfe", b"\xc3"] {
        let row = deserialize_row(&rec(&[b"x", bytes, b"y"]), Some(&headers)).unwrap();
        assert_eq!(row.h1, "x");
        assert_eq!(row.h2, bytes.to_vec());
        assert_eq!(row.h3, "y");
    }
    let bad_headers = rec(&[b"h2", b"h2", b"h1", b"h3"]);
    for bytes in [&b"ok"[..], b"\xff"] {
        assert!(matches!(
            deserialize_row(&rec(&[bytes, b"b", b"c", b"d"]), Some(&bad_headers)),
            Err(DeserializeError::DuplicateField(RowField::H2))
        ));
    }
}

#[test]
fn split_pieces_join_back_to_the_input() {
    let base: &[u8] = b"0123456789";
    for splits in [&[][..], &[3], &[9, 1, 5], &[200, 100, 0, 11, 7]] {
        assert_eq!(split_bytes(base, splits).concat(), base.to_vec());
    }
}

#[test]
fn witnesses_replay_by_name() {
    for name in [
        "ResetClearsOutputPosition",
        "TrimAllAppliesWithoutHeaders",
        "WriterCommentCharAutoQuote",
        "ByteRecordEqMatchesFields",
        "CommentOnlyAtRecordStart",
        "DeserializeByteBufAcceptsNonUtf8",
    ] {
        assert_eq!(replay_witnesses(name), Some(Ok(())));
    }
    assert_eq!(replay_witnesses("All"), None);
    assert_eq!(replay_witnesses("resetclearsoutputposition"), None);
    assert!(str_eq("café", "café"));
    assert!(!str_eq("café", "cafe"));
    assert!(!str_eq("", "a"));
}
