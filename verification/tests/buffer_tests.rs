use text_editor::text_buffer::{Buffer, Error, Source, Span};

fn open_abc() -> Buffer {
    Buffer::from_bytes(String::from("scratch.txt"), b"abc\ndef\nghi".to_vec())
}

fn lines(buf: &Buffer, a: usize, b: usize) -> Vec<String> {
    buf.get_lines(a, b)
        .into_iter()
        .map(|l| String::from_utf8(l).unwrap())
        .collect()
}

#[test]
fn scenario_open_and_read() {
    let buf = open_abc();
    assert_eq!(lines(&buf, 0, 3), vec!["abc", "def", "ghi"]);
    assert_eq!(lines(&buf, 1, 2), vec!["def"]);
    assert_eq!(lines(&buf, 0, 10), vec!["abc", "def", "ghi"]);
}

#[test]
fn scenario_insert_middle_undo_redo() {
    let mut buf = open_abc();
    assert_eq!(buf.insert(1, 1, &b"XY".to_vec()), Ok(()));
    assert_eq!(lines(&buf, 0, 3), vec!["abc", "dXYef", "ghi"]);

    assert!(buf.undo());
    assert_eq!(lines(&buf, 0, 3), vec!["abc", "def", "ghi"]);

    assert!(buf.redo());
    assert_eq!(lines(&buf, 0, 3), vec!["abc", "dXYef", "ghi"]);
}

#[test]
fn scenario_insert_newline() {
    let mut buf = open_abc();
    assert_eq!(buf.insert(0, 3, &b"\nZ".to_vec()), Ok(()));
    assert_eq!(lines(&buf, 0, 4), vec!["abc", "Z", "def", "ghi"]);
}

#[test]
fn scenario_delete_first_line() {
    let mut buf = open_abc();
    assert_eq!(buf.delete(0, 0, 4), Ok(()));
    assert_eq!(lines(&buf, 0, 2), vec!["def", "ghi"]);

    assert!(buf.undo());
    assert_eq!(lines(&buf, 0, 3), vec!["abc", "def", "ghi"]);
}

#[test]
fn scenario_empty_file() {
    let mut buf = Buffer::from_bytes(String::from("empty.txt"), Vec::new());
    assert_eq!(lines(&buf, 0, 1), Vec::<String>::new());
    assert_eq!(buf.insert(0, 0, &b"hello".to_vec()), Ok(()));
    assert_eq!(lines(&buf, 0, 1), vec!["hello"]);
}

#[test]
fn scenario_thousand_inserts() {
    let mut buf = Buffer::from_bytes(String::from("empty.txt"), Vec::new());
    let mut expected = String::new();
    for _ in 0..1000 {
        assert_eq!(buf.insert(0, 0, &b"a".to_vec()), Ok(()));
        expected.push('a');
        assert_eq!(lines(&buf, 0, 1), vec![expected.clone()]);
    }
    assert_eq!(buf.append_len(), 1000);

    for _ in 0..1000 {
        assert!(buf.undo());
    }
    assert_eq!(lines(&buf, 0, 1), Vec::<String>::new());
    assert!(!buf.undo());
    assert_eq!(buf.append_len(), 1000);

    for _ in 0..1000 {
        assert!(buf.redo());
    }
    assert!(!buf.redo());
    assert_eq!(lines(&buf, 0, 1), vec![expected]);
}

#[test]
fn insert_rejects_out_of_range_positions() {
    let mut buf = open_abc();
    assert_eq!(buf.insert(3, 0, &b"x".to_vec()), Err(Error::OutOfBounds));
    assert_eq!(buf.insert(0, 4, &b"x".to_vec()), Err(Error::OutOfBounds));
    assert_eq!(buf.insert(7, 2, &b"x".to_vec()), Err(Error::OutOfBounds));
    assert_eq!(lines(&buf, 0, 3), vec!["abc", "def", "ghi"]);
    // a failed insert leaves nothing to undo
    assert!(!buf.undo());
}

#[test]
fn delete_rejects_out_of_range_spans() {
    let mut buf = open_abc();
    assert_eq!(buf.delete(2, 2, 2), Err(Error::OutOfBounds));
    assert_eq!(buf.delete(0, 4, 1), Err(Error::OutOfBounds));
    assert_eq!(buf.delete(5, 0, 1), Err(Error::OutOfBounds));
    assert_eq!(lines(&buf, 0, 3), vec!["abc", "def", "ghi"]);
    assert!(!buf.undo());
}

#[test]
fn insert_at_document_end() {
    let mut buf = open_abc();
    assert_eq!(buf.insert(2, 3, &b"!".to_vec()), Ok(()));
    assert_eq!(lines(&buf, 0, 3), vec!["abc", "def", "ghi!"]);
}

#[test]
fn insert_after_trailing_newline() {
    let mut buf = Buffer::from_bytes(String::from("t.txt"), b"abc\n".to_vec());
    assert_eq!(lines(&buf, 0, 5), vec!["abc"]);
    assert_eq!(buf.insert(1, 0, &b"tail".to_vec()), Ok(()));
    assert_eq!(lines(&buf, 0, 5), vec!["abc", "tail"]);
}

#[test]
fn delete_across_span_boundaries() {
    let mut buf = open_abc();
    // split spans first: "abc\ndXYef\nghi"
    assert_eq!(buf.insert(1, 1, &b"XY".to_vec()), Ok(()));
    // delete "c\ndXYe" across three spans
    assert_eq!(buf.delete(0, 2, 6), Ok(()));
    assert_eq!(lines(&buf, 0, 2), vec!["abf", "ghi"]);
    assert!(buf.undo());
    assert_eq!(lines(&buf, 0, 3), vec!["abc", "dXYef", "ghi"]);
    assert!(buf.undo());
    assert_eq!(lines(&buf, 0, 3), vec!["abc", "def", "ghi"]);
}

#[test]
fn delete_everything() {
    let mut buf = open_abc();
    assert_eq!(buf.delete(0, 0, 11), Ok(()));
    assert_eq!(lines(&buf, 0, 10), Vec::<String>::new());
    assert!(buf.undo());
    assert_eq!(lines(&buf, 0, 3), vec!["abc", "def", "ghi"]);
}

#[test]
fn pure_newline_spans_make_empty_lines() {
    let buf = Buffer::from_bytes(String::from("nl.txt"), b"\n\n\n".to_vec());
    assert_eq!(lines(&buf, 0, 10), vec!["", "", ""]);
}

#[test]
fn edit_clears_redo() {
    let mut buf = open_abc();
    assert_eq!(buf.insert(0, 0, &b"Q".to_vec()), Ok(()));
    assert!(buf.undo());
    assert_eq!(buf.insert(0, 0, &b"R".to_vec()), Ok(()));
    assert!(!buf.redo());
    assert_eq!(lines(&buf, 0, 1), vec!["Rabc"]);
}

#[test]
fn undo_redo_empty_history() {
    let mut buf = open_abc();
    assert!(!buf.undo());
    assert!(!buf.redo());
    assert_eq!(lines(&buf, 0, 3), vec!["abc", "def", "ghi"]);
}

#[test]
fn insert_then_delete_is_no_op_on_bytes() {
    let mut buf = open_abc();
    assert_eq!(buf.insert(1, 2, &b"++".to_vec()), Ok(()));
    assert_eq!(buf.delete(1, 2, 2), Ok(()));
    assert_eq!(lines(&buf, 0, 3), vec!["abc", "def", "ghi"]);
    // the history still reflects two operations
    assert!(buf.undo());
    assert!(buf.undo());
    assert!(!buf.undo());
    assert_eq!(lines(&buf, 0, 3), vec!["abc", "def", "ghi"]);
}

#[test]
fn query_is_idempotent() {
    let mut buf = open_abc();
    assert_eq!(buf.insert(2, 0, &b"z".to_vec()), Ok(()));
    let first = buf.get_lines(0, 10);
    let second = buf.get_lines(0, 10);
    assert_eq!(first, second);
    assert_eq!(buf.get_lines(1, 2), buf.get_lines(1, 2));
}

#[test]
fn line_identity_round_trips_document_bytes() {
    // no trailing newline: the joined lines are the document exactly
    let buf = open_abc();
    let joined = buf.get_lines(0, 100).join(&b'\n');
    assert_eq!(joined, b"abc\ndef\nghi".to_vec());

    // trailing newline: the join restores everything but the final newline
    let buf = Buffer::from_bytes(String::from("t.txt"), b"abc\ndef\n".to_vec());
    let mut joined = buf.get_lines(0, 100).join(&b'\n');
    joined.push(b'\n');
    assert_eq!(joined, b"abc\ndef\n".to_vec());
}

#[test]
fn num_newlines_counts_line_feeds() {
    assert_eq!(Buffer::num_newlines(&b"".to_vec()), 0);
    assert_eq!(Buffer::num_newlines(&b"abc".to_vec()), 0);
    assert_eq!(Buffer::num_newlines(&b"a\nb\nc\n".to_vec()), 3);
    assert_eq!(Buffer::num_newlines(&b"\r\n\r\n".to_vec()), 2);
}

#[test]
fn carriage_returns_pass_through() {
    let buf = Buffer::from_bytes(String::from("crlf.txt"), b"ab\r\ncd".to_vec());
    assert_eq!(buf.get_lines(0, 10), vec![b"ab\r".to_vec(), b"cd".to_vec()]);
}

#[test]
fn get_character_span_reads_arena_bytes() {
    let mut buf = open_abc();
    let original_span = Span {
        source: Source::Original,
        start: 4,
        length: 3,
        newlines: 0,
    };
    assert_eq!(buf.get_character_span(&original_span), b"def".to_vec());

    buf.add_to_append(&b"xyz".to_vec());
    let append_span = Span {
        source: Source::Append,
        start: 1,
        length: 2,
        newlines: 0,
    };
    assert_eq!(buf.get_character_span(&append_span), b"yz".to_vec());
}

#[test]
fn add_to_append_grows_arena_without_changing_document() {
    let mut buf = open_abc();
    assert_eq!(buf.append_len(), 0);
    buf.add_to_append(&b"stash".to_vec());
    assert_eq!(buf.append_len(), 5);
    assert_eq!(lines(&buf, 0, 3), vec!["abc", "def", "ghi"]);
}

#[test]
fn file_path_is_kept() {
    let buf = open_abc();
    assert_eq!(buf.file_path(), "scratch.txt");
}

#[test]
fn zero_length_edits_are_recorded() {
    let mut buf = open_abc();
    assert_eq!(buf.insert(0, 0, &b"".to_vec()), Ok(()));
    assert_eq!(buf.delete(1, 1, 0), Ok(()));
    assert_eq!(lines(&buf, 0, 3), vec!["abc", "def", "ghi"]);
    assert!(buf.undo());
    assert!(buf.undo());
    assert!(!buf.undo());
}

#[test]
fn inverted_and_empty_ranges_yield_nothing() {
    let buf = open_abc();
    assert_eq!(buf.get_lines(2, 1), Vec::<Vec<u8>>::new());
    assert_eq!(buf.get_lines(1, 1), Vec::<Vec<u8>>::new());
    assert_eq!(buf.get_lines(7, 9), Vec::<Vec<u8>>::new());
}
