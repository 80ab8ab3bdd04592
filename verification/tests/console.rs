use yaros::fs::buffer::{File, UserBuffer};
use yaros::fs::stdio::{Stdin, StdinBuffer, StdinStep, Stdout};

#[test]
fn stdin_waits_then_reads_one_character() {
    let mut s = StdinBuffer::new();
    assert!(matches!(s.read_step(false, -1), StdinStep::Waiting));
    assert!(matches!(s.read_step(false, 0xc3), StdinStep::Receiving));
    assert!(matches!(s.read_step(true, 0xa9), StdinStep::Receiving));
    assert!(matches!(s.read_step(true, b'x' as isize), StdinStep::Receiving));
    match s.read_step(true, -1) {
        StdinStep::Done { bytes } => assert_eq!(bytes, "é".as_bytes().to_vec()),
        _ => panic!("expected a character"),
    }
    assert_eq!(s.chars_len(), 1);
    assert_eq!(s.getchar_bytes(), b"x".to_vec());
}

#[test]
fn stdin_drops_what_is_not_utf8() {
    let mut s = StdinBuffer::new();
    assert!(matches!(s.read_step(false, 0xff), StdinStep::Receiving));
    assert!(matches!(s.read_step(true, -1), StdinStep::Failed));
    assert_eq!(s.chars_len(), 0);
    s.push_byte(b'a');
    assert!(s.generate_chars());
    assert_eq!(s.chars_len(), 1);
}

#[test]
fn stdout_prints_text_and_counts_bytes() {
    let out = Stdout;
    let (text, n) = out.write(&UserBuffer::new(vec![b"hi ".to_vec(), b"there".to_vec()]));
    assert_eq!(text, b"hi there".to_vec());
    assert_eq!(n, 8);
    let (text, n) = out.write(&UserBuffer::new(vec![vec![0xff, 0xfe]]));
    assert!(text.is_empty());
    assert_eq!(n, 2);
}

#[test]
fn standard_input_reads_and_standard_output_writes() {
    assert!(File::readable(&Stdin) && !File::writable(&Stdin));
    assert!(!File::readable(&Stdout) && File::writable(&Stdout));
}

#[test]
fn iterating_a_buffer_visits_each_byte_once_in_order() {
    let buf = UserBuffer::new(vec![b"ab".to_vec(), b"c".to_vec(), b"def".to_vec()]);
    let len = buf.len();
    let bytes = buf.concat();
    let pieces = buf.inner.clone();
    let mut it = buf.into_iter();
    let mut seen: Vec<u8> = Vec::new();
    let mut positions: Vec<(usize, usize)> = Vec::new();
    while let Some((i, j)) = it.next() {
        positions.push((i, j));
        seen.push(pieces[i][j]);
    }
    assert_eq!(len, 6);
    assert_eq!(positions, vec![(0, 0), (0, 1), (1, 0), (2, 0), (2, 1), (2, 2)]);
    assert_eq!(seen, bytes);
    assert!(it.next().is_none());
}
