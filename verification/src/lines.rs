//! The lines of the log file.
//!
//! The log holds one serialized entry on each line. An entry is written as
//! its bytes and a line feed, so that the entries of a log can be told apart
//! again, whatever was appended to the log later.

use crate::error::StrErr;
use vstd::prelude::*;

verus! {

/// The byte that ends a line.
pub const LINE_FEED: u8 = 0x0a;

/// The byte that is dropped before the end of a line.
pub const CARRIAGE_RETURN: u8 = 0x0d;

/// The message for a serialized entry that would not stay on one line.
pub const ENTRY_BREAKS_LINE: &'static str = "the serialized entry holds a line break";

/// Whether a byte breaks a line.
pub open spec fn is_break(byte: u8) -> bool {
    byte == LINE_FEED || byte == CARRIAGE_RETURN
}

/// Whether none of the bytes breaks a line.
pub open spec fn is_one_line(bytes: Seq<u8>) -> bool {
    forall|i: int| 0 <= i < bytes.len() ==> !is_break(#[trigger] bytes[i])
}

/// A line without the carriage return that it may end in.
pub open spec fn without_carriage_return(line: Seq<u8>) -> Seq<u8> {
    if line.len() > 0 && line.last() == CARRIAGE_RETURN {
        line.drop_last()
    } else {
        line
    }
}

/// What reading bytes from the start has found: the lines that are ended,
/// and the bytes after the last line feed.
pub struct Scan {
    pub ended: Seq<Seq<u8>>,
    pub open: Seq<u8>,
}

/// Reads the bytes from the start. A line feed ends a line; the line is
/// what stands before the line feed, without a carriage return at its end.
pub open spec fn scan(bytes: Seq<u8>) -> Scan
    decreases bytes.len(),
{
    if bytes.len() == 0 {
        Scan { ended: Seq::empty(), open: Seq::empty() }
    } else {
        let before = scan(bytes.drop_last());
        if bytes.last() == LINE_FEED {
            Scan {
                ended: before.ended.push(without_carriage_return(before.open)),
                open: Seq::empty(),
            }
        } else {
            Scan { ended: before.ended, open: before.open.push(bytes.last()) }
        }
    }
}

/// The lines of a text: the lines that a line feed ends and, if bytes
/// follow the last line feed, those bytes as the last line.
pub open spec fn lines_of(bytes: Seq<u8>) -> Seq<Seq<u8>> {
    let found = scan(bytes);
    if found.open.len() > 0 {
        found.ended.push(found.open)
    } else {
        found.ended
    }
}

/// The contents of a list of lines, in the same order.
pub open spec fn line_bytes(lines: Seq<Vec<u8>>) -> Seq<Seq<u8>> {
    lines.map_values(|line: Vec<u8>| line@)
}

/// The lines of a text.
pub fn split_lines(bytes: &[u8]) -> (lines: Vec<Vec<u8>>)
    ensures
        line_bytes(lines@) == lines_of(bytes@),
{
    let mut lines: Vec<Vec<u8>> = Vec::new();
    let mut open: Vec<u8> = Vec::new();
    let mut at: usize = 0;
    assert(line_bytes(lines@) =~= scan(bytes@.take(0)).ended);
    while at < bytes.len()
        invariant
            at <= bytes.len(),
            line_bytes(lines@) == scan(bytes@.take(at as int)).ended,
            open@ == scan(bytes@.take(at as int)).open,
        decreases bytes.len() - at,
    {
        let byte = bytes[at];
        assert(bytes@.take(at + 1).drop_last() =~= bytes@.take(at as int));
        if byte == LINE_FEED {
            let len = open.len();
            if len > 0 && open[len - 1] == CARRIAGE_RETURN {
                open.pop();
                assert(open@ =~= without_carriage_return(scan(bytes@.take(at as int)).open));
            }
            assert(line_bytes(lines@.push(open)) =~= line_bytes(lines@).push(open@));
            lines.push(open);
            open = Vec::new();
        } else {
            open.push(byte);
        }
        at = at + 1;
    }
    assert(bytes@.take(at as int) =~= bytes@);
    if open.len() > 0 {
        assert(line_bytes(lines@.push(open)) =~= line_bytes(lines@).push(open@));
        lines.push(open);
    }
    lines
}

/// The line of the log for a serialized entry: its bytes and a line feed.
/// An entry with a line feed or a carriage return among its bytes is
/// refused, since it would not be read back as one line.
pub fn frame_line(serialized: &[u8]) -> (framed: Result<Vec<u8>, StrErr>)
    ensures
        framed is Ok <==> is_one_line(serialized@),
        framed matches Ok(line) ==> line@ == serialized@.push(LINE_FEED),
        framed matches Err(err) ==> err@ == ENTRY_BREAKS_LINE@,
{
    let mut line: Vec<u8> = Vec::new();
    let mut at: usize = 0;
    while at < serialized.len()
        invariant
            at <= serialized.len(),
            line@ == serialized@.take(at as int),
            is_one_line(serialized@.take(at as int)),
        decreases serialized.len() - at,
    {
        let byte = serialized[at];
        if byte == LINE_FEED || byte == CARRIAGE_RETURN {
            assert(is_break(serialized@[at as int]));
            return Err(StrErr::new(ENTRY_BREAKS_LINE));
        }
        assert(serialized@.take(at + 1) =~= serialized@.take(at as int).push(byte));
        line.push(byte);
        at = at + 1;
    }
    assert(serialized@.take(at as int) =~= serialized@);
    line.push(LINE_FEED);
    Ok(line)
}

/// Bytes without a line feed stay open: they add to the line that is being
/// read.
pub proof fn lemma_scan_within_a_line(log: Seq<u8>, more: Seq<u8>)
    requires
        forall|i: int| 0 <= i < more.len() ==> #[trigger] more[i] != LINE_FEED,
    ensures
        scan(log + more).ended == scan(log).ended,
        scan(log + more).open == scan(log).open + more,
    decreases more.len(),
{
    if more.len() == 0 {
        assert(log + more =~= log);
        assert(scan(log).open + more =~= scan(log).open);
    } else {
        let shorter = more.drop_last();
        lemma_scan_within_a_line(log, shorter);
        assert((log + more).drop_last() =~= log + shorter);
        assert((log + more).last() == more.last());
        assert(scan(log).open + more =~= (scan(log).open + shorter).push(more.last()));
    }
}

/// What is framed is read back: after a log that ends with a line, an
/// entry that was framed is one more line of the log, with the bytes of the
/// entry, and the lines before it are what they were.
pub proof fn lemma_framed_line_is_read_back(log: Seq<u8>, serialized: Seq<u8>)
    requires
        log.len() == 0 || log.last() == LINE_FEED,
        is_one_line(serialized),
    ensures
        lines_of(log + serialized.push(LINE_FEED)) == lines_of(log).push(serialized),
{
    let framed = serialized.push(LINE_FEED);
    lemma_scan_within_a_line(log, serialized);
    assert((log + framed).drop_last() =~= log + serialized);
    assert(scan(log).open =~= Seq::<u8>::empty()) by {
        if log.len() > 0 {
            assert(log.drop_last().push(log.last()) =~= log);
        }
    }
    assert(scan(log).open + serialized =~= serialized);
    assert(without_carriage_return(serialized) == serialized) by {
        if serialized.len() > 0 {
            assert(!is_break(serialized[serialized.len() - 1]));
        }
    }
}

} // verus!
