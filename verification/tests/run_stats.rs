use seq_stats::gzip::detect_gzip;
use seq_stats::reader::{MalformKind, ReadStep, Reader};
use seq_stats::record::{emit_record, Record};
use seq_stats::run::{calc_read_stats, RunError};
use seq_stats::stats::{gc_count, gc_percent, RunSummary};

fn run_ok(data: &[u8], passthrough: bool) -> (RunSummary, Vec<u8>) {
    let (res, echo) = calc_read_stats(data.to_vec(), passthrough);
    match res {
        Ok(summary) => (summary, echo),
        Err(e) => panic!("expected a successful run, got {:?}", e),
    }
}

fn run_err(data: &[u8]) -> RunError {
    let (res, _) = calc_read_stats(data.to_vec(), false);
    match res {
        Ok(_) => panic!("expected a failed run"),
        Err(e) => e,
    }
}

fn sorted_entries(v: &Vec<(u64, u64)>) -> Vec<(u64, u64)> {
    let mut out = v.clone();
    out.sort();
    out
}

fn digest(s: &RunSummary) -> (u64, Vec<(u64, u64)>, Vec<(u64, u64)>) {
    (
        s.total,
        sorted_entries(s.len_distrib.entries()),
        sorted_entries(s.gc_distrib.entries()),
    )
}

fn gzip_bytes(data: &[u8]) -> Vec<u8> {
    let mut enc = flate2::write::GzEncoder::new(Vec::new(), flate2::Compression::default());
    std::io::Write::write_all(&mut enc, data).unwrap();
    enc.finish().unwrap()
}

#[test]
fn single_record_uncompressed() {
    let (s, _) = run_ok(b"@r1\nGGCC\n+\n!!!!\n", false);
    assert_eq!(s.total, 1);
    assert_eq!(s.len_distrib.get(4), 1);
    assert_eq!(s.gc_distrib.get(100), 1);
    assert_eq!(s.len_distrib.get(3), 0);
    assert_eq!(s.gc_distrib.get(0), 0);
}

#[test]
fn single_record_gzipped_matches_uncompressed() {
    let plain = b"@r1\nGGCC\n+\n!!!!\n";
    let gz = gzip_bytes(plain);
    assert_ne!(gz.as_slice(), plain.as_slice());
    let (s_plain, _) = run_ok(plain, false);
    let (s_gz, _) = run_ok(&gz, false);
    assert_eq!(digest(&s_plain), digest(&s_gz));
    assert_eq!(s_gz.total, 1);
    assert_eq!(s_gz.len_distrib.get(4), 1);
    assert_eq!(s_gz.gc_distrib.get(100), 1);
}

#[test]
fn multi_member_gzip_concatenates() {
    let mut gz = gzip_bytes(b"@r1\nGGCC\n+\n!!!!\n");
    gz.extend_from_slice(&gzip_bytes(b"@r2\nAT\n+\n!!\n"));
    let (s, _) = run_ok(&gz, false);
    assert_eq!(s.total, 2);
    assert_eq!(s.len_distrib.get(4), 1);
    assert_eq!(s.len_distrib.get(2), 1);
    assert_eq!(s.gc_distrib.get(100), 1);
    assert_eq!(s.gc_distrib.get(0), 1);
}

#[test]
fn gc_percent_all_gc_is_100() {
    assert_eq!(gc_percent(&b"GGGG".to_vec()), 100);
    assert_eq!(gc_percent(&b"cgcg".to_vec()), 100);
}

#[test]
fn gc_percent_no_gc_is_0() {
    assert_eq!(gc_percent(&b"ATAT".to_vec()), 0);
    assert_eq!(gc_percent(&b"NNNN".to_vec()), 0);
}

#[test]
fn gc_percent_one_of_three_rounds_to_33() {
    assert_eq!(gc_percent(&b"ACT".to_vec()), 33);
}

#[test]
fn gc_percent_half_is_exactly_50() {
    assert_eq!(gc_percent(&b"AC".to_vec()), 50);
}

#[test]
fn gc_percent_tie_rounds_up() {
    // 1 GC base in 8 is 12.5%; ties round up, so the bucket is 13.
    assert_eq!(gc_percent(&b"CAAAAAAA".to_vec()), 13);
}

#[test]
fn gc_count_is_case_insensitive() {
    assert_eq!(gc_count(&b"GgCcAaTt".to_vec()), 4);
    assert_eq!(gc_count(&b"".to_vec()), 0);
}

#[test]
fn truncated_after_header_is_malformed() {
    assert_eq!(
        run_err(b"@r1\n"),
        RunError::Malformed(MalformKind::IncompleteRecord)
    );
}

#[test]
fn truncated_after_sequence_is_malformed() {
    assert_eq!(
        run_err(b"@r1\nGGCC\n"),
        RunError::Malformed(MalformKind::IncompleteRecord)
    );
}

#[test]
fn truncated_after_separator_is_malformed() {
    assert_eq!(
        run_err(b"@r1\nGGCC\n+\n"),
        RunError::Malformed(MalformKind::IncompleteRecord)
    );
}

#[test]
fn missing_header_marker_is_malformed() {
    assert_eq!(
        run_err(b"r1\nGGCC\n+\n!!!!\n"),
        RunError::Malformed(MalformKind::MissingHeaderMarker)
    );
}

#[test]
fn missing_separator_marker_is_malformed() {
    assert_eq!(
        run_err(b"@r1\nGGCC\nx\n!!!!\n"),
        RunError::Malformed(MalformKind::MissingSeparatorMarker)
    );
}

#[test]
fn quality_length_mismatch_is_malformed() {
    assert_eq!(
        run_err(b"@r1\nGGCC\n+\n!!\n"),
        RunError::Malformed(MalformKind::LengthMismatch)
    );
}

#[test]
fn corrupt_gzip_stream_fails() {
    let bad = vec![0x1fu8, 0x8b, 0xff, 0x00, 0x01, 0x02];
    assert_eq!(run_err(&bad), RunError::BadGzip);
}

#[test]
fn empty_input_is_an_empty_run() {
    let (s, echo) = run_ok(b"", true);
    assert_eq!(s.total, 0);
    assert!(echo.is_empty());
    assert!(s.len_distrib.entries().is_empty());
    assert!(s.gc_distrib.entries().is_empty());
}

#[test]
fn trailing_blank_lines_change_nothing() {
    let base = b"@r1\nGGCC\n+\n!!!!\n@r2\nAT\n+\n!!\n";
    let mut padded = base.to_vec();
    padded.extend_from_slice(b"\n\n\n");
    let (s_base, _) = run_ok(base, false);
    let (s_padded, _) = run_ok(&padded, false);
    assert_eq!(digest(&s_base), digest(&s_padded));
    assert_eq!(s_padded.total, 2);
}

#[test]
fn empty_sequence_line_ends_the_stream() {
    let (s, _) = run_ok(b"@r1\nGGCC\n+\n!!!!\n@r2\n\n+\n!!\n", false);
    assert_eq!(s.total, 1);
}

#[test]
fn last_record_without_final_newline_counts() {
    let (s, _) = run_ok(b"@r1\nGGCC\n+\n!!!!", false);
    assert_eq!(s.total, 1);
    assert_eq!(s.len_distrib.get(4), 1);
}

#[test]
fn passthrough_reproduces_canonical_input() {
    let input = b"@r1 first read\nGGCC\n+\n!!!!\n@r2\nATGC\n+\nIIII\n";
    let (_, echo) = run_ok(input, true);
    assert_eq!(echo.as_slice(), input.as_slice());
}

#[test]
fn passthrough_off_emits_nothing() {
    let (_, echo) = run_ok(b"@r1\nGGCC\n+\n!!!!\n", false);
    assert!(echo.is_empty());
}

#[test]
fn passthrough_round_trip_is_stable() {
    // The separator line's repeated header text is consumed but not
    // re-emitted; the echo still summarizes identically.
    let input = b"@r1 desc\nGGCC\n+r1 desc\n!!!!\n@r2\nATAT\n+\nIIII\n";
    let (s_first, echo) = run_ok(input, true);
    let (s_second, echo_again) = run_ok(&echo, true);
    assert_eq!(digest(&s_first), digest(&s_second));
    assert_eq!(echo_again, echo);
}

#[test]
fn distribution_counts_sum_to_total() {
    let input = b"@a\nGGCC\n+\n!!!!\n@b\nATG\n+\n!!!\n@c\nGGCC\n+\n!!!!\n";
    let (s, _) = run_ok(input, false);
    assert_eq!(s.total, 3);
    let len_sum: u64 = s.len_distrib.entries().iter().map(|p| p.1).sum();
    let gc_sum: u64 = s.gc_distrib.entries().iter().map(|p| p.1).sum();
    assert_eq!(len_sum, 3);
    assert_eq!(gc_sum, 3);
    assert_eq!(s.len_distrib.get(4), 2);
    assert_eq!(s.len_distrib.get(3), 1);
}

#[test]
fn reader_hands_out_records_in_order() {
    let mut rdr = Reader::new(b"@r1 the description\nGGCC\n+\n!!!!\n@r2\nAT\n+\nII\n".to_vec());
    match rdr.read_next() {
        ReadStep::Rec(rec) => {
            assert_eq!(rec.head, b"r1 the description".to_vec());
            assert_eq!(rec.bases, b"GGCC".to_vec());
            assert_eq!(rec.quals, b"!!!!".to_vec());
        }
        _ => panic!("expected a record"),
    }
    match rdr.read_next() {
        ReadStep::Rec(rec) => {
            assert_eq!(rec.head, b"r2".to_vec());
            assert_eq!(rec.bases, b"AT".to_vec());
            assert_eq!(rec.quals, b"II".to_vec());
        }
        _ => panic!("expected a second record"),
    }
    match rdr.read_next() {
        ReadStep::EndOfStream => {}
        _ => panic!("expected a clean end of stream"),
    }
}

#[test]
fn emit_record_writes_four_lines() {
    let rec = Record {
        head: b"r1 desc".to_vec(),
        bases: b"GGCC".to_vec(),
        quals: b"!!!!".to_vec(),
    };
    let mut out: Vec<u8> = Vec::new();
    emit_record(&rec, &mut out);
    assert_eq!(out.as_slice(), b"@r1 desc\nGGCC\n+\n!!!!\n".as_slice());
}

#[test]
fn gzip_magic_detection() {
    assert!(detect_gzip(&vec![0x1f, 0x8b, 0x08]));
    assert!(!detect_gzip(&vec![0x1f]));
    assert!(!detect_gzip(&b"@r1\nGGCC\n+\n!!!!\n".to_vec()));
    assert!(detect_gzip(&gzip_bytes(b"anything")));
}
