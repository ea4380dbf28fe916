use two_sets::{solve_block_stride, solve_greedy_vector, write_answer, FastScanner, FastWriter};

#[test]
fn scanner_reads_tokens_then_none() {
    let data: &[u8] = b"  12 345\n\t7";
    let mut s = FastScanner::new(data);
    assert!(s.next_fits_u32());
    assert_eq!(s.next_u32(), Some(12));
    assert_eq!(s.next_u32(), Some(345));
    assert_eq!(s.next_u32(), Some(7));
    assert!(s.next_fits_u32());
    assert_eq!(s.next_u32(), None);
    assert_eq!(s.next_u32(), None);
}

#[test]
fn scanner_on_empty_and_blank_input() {
    let mut s = FastScanner::new(b"");
    assert_eq!(s.next_u32(), None);
    let mut s = FastScanner::new(b" \n \r\n ");
    assert_eq!(s.next_u32(), None);
}

#[test]
fn scanner_reads_u32_max_and_leading_zeros() {
    let mut s = FastScanner::new(b"4294967295 007");
    assert_eq!(s.next_u32(), Some(4294967295));
    assert_eq!(s.next_u32(), Some(7));
}

#[test]
fn scanner_reads_non_digit_bytes_by_their_offset() {
    // Bytes above '9' are read as `byte - '0'`, as the original does.
    let mut s = FastScanner::new(b"1a");
    assert!(s.next_fits_u32());
    assert_eq!(s.next_u32(), Some(59));
}

#[test]
fn scanner_flags_tokens_that_do_not_fit() {
    assert!(!FastScanner::new(b"4294967296").next_fits_u32());
    assert!(!FastScanner::new(b"  -5").next_fits_u32());
    assert!(!FastScanner::new(b"99999999999999999999999").next_fits_u32());
    let mut s = FastScanner::new(b"5 -5");
    assert!(s.next_fits_u32());
    assert_eq!(s.next_u32(), Some(5));
    assert!(!s.next_fits_u32());
}

#[test]
fn writer_formats_numbers_and_text() {
    let mut w = FastWriter::new();
    w.write_u32(0);
    w.write_space();
    w.write_u32(7);
    w.write_space();
    w.write_u32(1000);
    w.write_space();
    w.write_u32(4294967295);
    w.write_newline();
    w.write_str("ok");
    assert_eq!(w.flush(), b"0 7 1000 4294967295\nok".to_vec());
    assert_eq!(w.flush(), Vec::<u8>::new());
    w.write_u32(42);
    assert_eq!(w.flush(), b"42".to_vec());
}

#[test]
fn written_numbers_scan_back() {
    let values = [0u32, 1, 9, 10, 99, 12345, 4294967295];
    let mut w = FastWriter::new();
    for &v in &values {
        w.write_u32(v);
        w.write_newline();
    }
    let bytes = w.flush();
    let mut s = FastScanner::new(&bytes);
    for &v in &values {
        assert!(s.next_fits_u32());
        assert_eq!(s.next_u32(), Some(v));
    }
    assert_eq!(s.next_u32(), None);
}

#[test]
fn answer_text_for_yes_and_no() {
    let mut w = FastWriter::new();
    write_answer(&mut w, &solve_block_stride(3));
    assert_eq!(w.flush(), b"YES\n2\n1 2\n1\n3\n".to_vec());

    write_answer(&mut w, &solve_block_stride(7));
    assert_eq!(w.flush(), b"YES\n4\n1 2 4 7\n3\n3 5 6\n".to_vec());

    write_answer(&mut w, &solve_greedy_vector(6));
    assert_eq!(w.flush(), b"NO\n".to_vec());

    write_answer(&mut w, &solve_block_stride(0));
    assert_eq!(w.flush(), b"YES\n0\n\n0\n\n".to_vec());
}
