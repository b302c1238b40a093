//! The records of the outcome log.

use vstd::prelude::*;

verus! {

/// What the validator reports for a payload it could read to the end.
#[derive(Debug, PartialEq, Eq)]
pub struct ComparisonRes {
    /// Packets with issues, packets in total, samples in total, whether the
    /// stream is chained, the sample rate and the number of channels.
    pub n: (usize, usize, usize, bool, u32, u8),
    /// The vendor string of the stream.
    pub vendor: String,
}

/// A [`ComparisonRes`] as a mathematical value.
pub struct ComparisonResView {
    pub n: (usize, usize, usize, bool, u32, u8),
    pub vendor: Seq<char>,
}

impl View for ComparisonRes {
    type V = ComparisonResView;

    open spec fn view(&self) -> ComparisonResView {
        ComparisonResView { n: self.n, vendor: self.vendor@ }
    }
}

impl ComparisonRes {
    pub fn new(n: (usize, usize, usize, bool, u32, u8), vendor: String) -> (res: ComparisonRes)
        ensures
            res.n == n,
            res.vendor == vendor,
    {
        ComparisonRes { n, vendor }
    }

    pub fn pck_issues(&self) -> (count: usize)
        ensures
            count == self@.n.0,
    {
        self.n.0
    }

    pub fn pck_total(&self) -> (count: usize)
        ensures
            count == self@.n.1,
    {
        self.n.1
    }

    pub fn sample_count(&self) -> (count: usize)
        ensures
            count == self@.n.2,
    {
        self.n.2
    }

    pub fn chained(&self) -> (chained: bool)
        ensures
            chained == self@.n.3,
    {
        self.n.3
    }

    pub fn sample_rate(&self) -> (rate: u32)
        ensures
            rate == self@.n.4,
    {
        self.n.4
    }

    pub fn channel_count(&self) -> (count: u8)
        ensures
            count == self@.n.5,
    {
        self.n.5
    }

    /// A copy with the same contents.
    pub fn duplicate(&self) -> (copy: ComparisonRes)
        ensures
            copy@ == self@,
    {
        ComparisonRes { n: self.n, vendor: self.vendor.clone() }
    }
}

/// The moment an entry was made: whole seconds since the start of 1970 in
/// UTC, and the nanoseconds into that second.
#[derive(Debug, Clone, Copy, PartialEq, Eq)]
pub struct EntryTime {
    pub secs: i64,
    /// Below one billion, or below two billion within a leap second.
    pub nanos: u32,
}

impl EntryTime {
    /// The nanosecond part lies in the range of a second, a leap second
    /// included.
    pub open spec fn wf(&self) -> bool {
        self.nanos < 2_000_000_000
    }

    /// `None` where `nanos` is out of range.
    pub fn new(secs: i64, nanos: u32) -> (time: Option<EntryTime>)
        ensures
            time == if nanos < 2_000_000_000 {
                Some(EntryTime { secs, nanos })
            } else {
                None
            },
    {
        if nanos < 2_000_000_000 {
            Some(EntryTime { secs, nanos })
        } else {
            None
        }
    }
}

/// How the handling of one file ended.
#[derive(Debug, PartialEq, Eq)]
pub enum RequestResKind {
    /// Successful response, and the comparison ran without a fatal error
    /// (mismatches are still possible).
    Success(ComparisonRes),
    /// Successful response, but the comparison itself failed, for instance
    /// on a stream that is invalid. This is not a mismatch.
    ComparisonErr(String),
    /// A response with a status code other than success.
    WrongResponse(u16),
    /// No response could be obtained.
    Error(String),
}

/// A [`RequestResKind`] as a mathematical value.
pub enum KindView {
    Success(ComparisonResView),
    ComparisonErr(Seq<char>),
    WrongResponse(u16),
    Error(Seq<char>),
}

impl KindView {
    /// Everything but a failure to obtain a response closes a file's story.
    pub open spec fn is_final(self) -> bool {
        !(self is Error)
    }
}

impl View for RequestResKind {
    type V = KindView;

    open spec fn view(&self) -> KindView {
        match self {
            RequestResKind::Success(res) => KindView::Success(res@),
            RequestResKind::ComparisonErr(message) => KindView::ComparisonErr(message@),
            RequestResKind::WrongResponse(code) => KindView::WrongResponse(*code),
            RequestResKind::Error(message) => KindView::Error(message@),
        }
    }
}

impl RequestResKind {
    /// Whether this outcome is never to be replaced by a later attempt.
    pub fn is_final(&self) -> (is_final: bool)
        ensures
            is_final == self@.is_final(),
    {
        match self {
            // Network errors, etc.
            RequestResKind::Error(_) => false,
            // Anything else we consider as a final reply.
            RequestResKind::Success(_) => true,
            RequestResKind::ComparisonErr(_) => true,
            RequestResKind::WrongResponse(_) => true,
        }
    }

    /// A copy with the same contents.
    pub fn duplicate(&self) -> (copy: RequestResKind)
        ensures
            copy@ == self@,
    {
        match self {
            RequestResKind::Success(res) => RequestResKind::Success(res.duplicate()),
            RequestResKind::ComparisonErr(message) => RequestResKind::ComparisonErr(
                message.clone(),
            ),
            RequestResKind::WrongResponse(code) => RequestResKind::WrongResponse(*code),
            RequestResKind::Error(message) => RequestResKind::Error(message.clone()),
        }
    }
}

/// One line of the outcome log.
#[derive(Debug, PartialEq, Eq)]
pub struct RequestRes {
    /// Filename that was requested
    pub file_name: String,
    /// Time of entry
    pub entry_time: EntryTime,
    /// Result payload
    pub result_kind: RequestResKind,
}

/// A [`RequestRes`] as a mathematical value.
pub struct EntryView {
    pub file_name: Seq<char>,
    pub entry_time: EntryTime,
    pub result_kind: KindView,
}

impl EntryView {
    pub open spec fn is_final(self) -> bool {
        self.result_kind.is_final()
    }
}

impl View for RequestRes {
    type V = EntryView;

    open spec fn view(&self) -> EntryView {
        EntryView {
            file_name: self.file_name@,
            entry_time: self.entry_time,
            result_kind: self.result_kind@,
        }
    }
}

impl RequestRes {
    /// The entry for the file `file_name` that was made at `entry_time`.
    pub fn new(file_name: String, entry_time: EntryTime, result_kind: RequestResKind) -> (entry:
        RequestRes)
        ensures
            entry.file_name == file_name,
            entry.entry_time == entry_time,
            entry.result_kind == result_kind,
    {
        RequestRes { file_name, entry_time, result_kind }
    }

    /// Returns whether the given instance is "final", as in not to be
    /// changed.
    pub fn is_final(&self) -> (is_final: bool)
        ensures
            is_final == self@.is_final(),
    {
        self.result_kind.is_final()
    }

    /// A copy with the same contents.
    pub fn duplicate(&self) -> (copy: RequestRes)
        ensures
            copy@ == self@,
    {
        RequestRes {
            file_name: self.file_name.clone(),
            entry_time: self.entry_time,
            result_kind: self.result_kind.duplicate(),
        }
    }
}

/// The views of a list of entries, in the same order.
pub open spec fn entry_views(entries: Seq<RequestRes>) -> Seq<EntryView> {
    entries.map_values(|entry: RequestRes| entry@)
}

/// The contents of a list of names, in the same order.
pub open spec fn name_views(names: Seq<String>) -> Seq<Seq<char>> {
    names.map_values(|name: String| name@)
}

} // verus!
