use lewton_wiki_tool::error::StrErr;
use lewton_wiki_tool::lines::{frame_line, split_lines};

fn lines(list: &[&str]) -> Vec<Vec<u8>> {
    list.iter().map(|line| line.as_bytes().to_vec()).collect()
}

#[test]
fn empty_text_has_no_lines() {
    assert!(split_lines(b"").is_empty());
}

#[test]
fn line_feed_ends_a_line() {
    assert_eq!(split_lines(b"abc\n"), lines(&["abc"]));
    assert_eq!(split_lines(b"abc\ndef\n"), lines(&["abc", "def"]));
    assert_eq!(split_lines(b"abc\n\ndef\n"), lines(&["abc", "", "def"]));
    assert_eq!(split_lines(b"\n"), lines(&[""]));
    assert_eq!(split_lines(b"\n\n"), lines(&["", ""]));
}

#[test]
fn last_line_needs_no_line_feed() {
    assert_eq!(split_lines(b"abc"), lines(&["abc"]));
    assert_eq!(split_lines(b"abc\ndef"), lines(&["abc", "def"]));
}

#[test]
fn carriage_return_before_a_line_feed_is_dropped() {
    assert_eq!(split_lines(b"abc\r\ndef\r\n"), lines(&["abc", "def"]));
    assert_eq!(split_lines(b"\r\n"), lines(&[""]));
    // only one, and only before a line feed
    assert_eq!(split_lines(b"abc\r\r\n"), lines(&["abc\r"]));
    assert_eq!(split_lines(b"a\rb\n"), lines(&["a\rb"]));
    assert_eq!(split_lines(b"abc\r"), lines(&["abc\r"]));
}

#[test]
fn lines_are_those_of_a_buffered_reader() {
    let texts = [
        "", "a", "a\n", "a\nb", "\n\n\n", "a\r\nb\r\n", "\r", "\r\n\r", "x\n\r\ny",
        "one\ntwo\n\nfour", "tail\r", "{\"file_name\":\"a\"}\n{\"file_name\":\"b\"}\n",
    ];
    for text in texts {
        let read: Vec<Vec<u8>> = std::io::BufRead::lines(text.as_bytes())
            .map(|line| line.unwrap().into_bytes())
            .collect();
        assert_eq!(split_lines(text.as_bytes()), read);
    }
}

#[test]
fn framed_entry_ends_in_a_line_feed() {
    assert_eq!(frame_line(b"{\"a\":1}"), Ok(b"{\"a\":1}\n".to_vec()));
    assert_eq!(frame_line(b""), Ok(b"\n".to_vec()));
}

#[test]
fn entry_with_a_line_break_is_refused() {
    let refused = Err(StrErr::new("the serialized entry holds a line break"));
    assert_eq!(frame_line(b"a\nb"), refused);
    assert_eq!(frame_line(b"\n"), refused);
    assert_eq!(frame_line(b"ab\r"), refused);
    assert_eq!(frame_line(b"\rab"), refused);
}

#[test]
fn framed_entries_are_read_back() {
    let entries = lines(&["{\"file_name\":\"a\"}", "", "{\"file_name\":\"b c\"}", "x"]);
    let mut log: Vec<u8> = Vec::new();
    for (count, entry) in entries.iter().enumerate() {
        log.extend_from_slice(&frame_line(entry).unwrap());
        assert_eq!(split_lines(&log), entries[..count + 1].to_vec());
    }
}
