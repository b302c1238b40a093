//! The resume index: what an earlier run has left in the log.
//!
//! The entries of the log are grouped by file. A file with an entry that is
//! final is done; a file without entries, or with nothing but failures to get
//! a response, is pending and will be fetched again.

use crate::error::StrErr;
use crate::record::{entry_views, name_views, EntryView, RequestRes};
use std::collections::HashMap;
use vstd::prelude::*;
use vstd::std_specs::hash::*;
use vstd::string::*;
use vstd::utf8::*;

verus! {

/// Whether an entry is for the file `name`.
pub open spec fn is_for(name: Seq<char>) -> spec_fn(EntryView) -> bool {
    |entry: EntryView| entry.file_name == name
}

/// The entries of `log` for the file `name`, in the order of the log.
pub open spec fn entries_of(log: Seq<EntryView>, name: Seq<char>) -> Seq<EntryView> {
    log.filter(is_for(name))
}

/// The entries of `log` by file: each file that the log mentions, with its
/// entries in the order of the log.
pub open spec fn grouped(log: Seq<EntryView>) -> Map<Seq<char>, Seq<EntryView>> {
    Map::new(
        |name: Seq<char>| exists|i: int| 0 <= i < log.len() && #[trigger] log[i].file_name == name,
        |name: Seq<char>| entries_of(log, name),
    )
}

/// Whether one of `entries` is final.
pub open spec fn has_final(entries: Seq<EntryView>) -> bool {
    exists|i: int| 0 <= i < entries.len() && #[trigger] entries[i].is_final()
}

/// Whether the file `name` is final in `index`: one of its entries is.
pub open spec fn is_final_in(index: Map<Seq<char>, Seq<EntryView>>, name: Seq<char>) -> bool {
    index.contains_key(name) && has_final(index[name])
}

/// Whether a file is still to be fetched.
pub open spec fn is_pending_in(index: Map<Seq<char>, Seq<EntryView>>) -> spec_fn(Seq<char>) -> bool {
    |name: Seq<char>| !is_final_in(index, name)
}

/// The files of `names` that are pending in `index`, in the order of `names`.
pub open spec fn pending_of(names: Seq<Seq<char>>, index: Map<Seq<char>, Seq<EntryView>>) -> Seq<
    Seq<char>,
> {
    names.filter(is_pending_in(index))
}

/// A line of a log as it was decoded: an entry, or the reason why the line
/// is no entry.
pub open spec fn line_view(line: Result<RequestRes, StrErr>) -> Result<EntryView, Seq<char>> {
    match line {
        Ok(entry) => Ok(entry@),
        Err(err) => Err(err@),
    }
}

/// The lines of a log as they were decoded, in the same order.
pub open spec fn line_views(lines: Seq<Result<RequestRes, StrErr>>) -> Seq<
    Result<EntryView, Seq<char>>,
> {
    lines.map_values(|line: Result<RequestRes, StrErr>| line_view(line))
}

/// Whether `at` is the first line that is no entry.
pub open spec fn is_first_failure(lines: Seq<Result<EntryView, Seq<char>>>, at: int) -> bool {
    &&& 0 <= at < lines.len()
    &&& lines[at] is Err
    &&& forall|j: int| 0 <= j < at ==> (#[trigger] lines[j]) is Ok
}

/// The entries of lines that are all entries, in the same order.
pub open spec fn entries_in(lines: Seq<Result<EntryView, Seq<char>>>) -> Seq<EntryView> {
    lines.map_values(|line: Result<EntryView, Seq<char>>| line->Ok_0)
}

/// What reading a log comes to: the reason of the first line that is no
/// entry, or, where every line is one, the entries by file.
pub open spec fn parsed(lines: Seq<Result<EntryView, Seq<char>>>) -> Result<
    Map<Seq<char>, Seq<EntryView>>,
    Seq<char>,
> {
    if exists|at: int| is_first_failure(lines, at) {
        Err(lines[choose|at: int| is_first_failure(lines, at)]->Err_0)
    } else {
        Ok(grouped(entries_in(lines)))
    }
}

/// The factor of the hash of a name.
const HASH_FACTOR: u64 = 1_000_003;

/// The hashes of names lie below this bound.
const HASH_RANGE: u64 = 0x100_0000_0000;

/// The hash of a name after one more byte.
spec fn hash_step(hash: u64, byte: u8) -> u64 {
    ((hash * HASH_FACTOR + byte) % (HASH_RANGE as int)) as u64
}

/// The hash of a name, from the bytes of its UTF-8 encoding.
spec fn hash_of(bytes: Seq<u8>) -> u64
    decreases bytes.len(),
{
    if bytes.len() == 0 {
        0
    } else {
        hash_step(hash_of(bytes.drop_last()), bytes.last())
    }
}

/// The hash under which the group of the file `name` is found.
fn name_hash(name: &str) -> (hash: u64)
    ensures
        hash == hash_of(encode_utf8(name@)),
{
    let bytes = name.as_bytes();
    let mut hash: u64 = 0;
    let mut at: usize = 0;
    while at < bytes.len()
        invariant
            at <= bytes.len(),
            hash < HASH_RANGE,
            hash == hash_of(bytes@.take(at as int)),
        decreases bytes.len() - at,
    {
        assert(bytes@.take(at + 1).drop_last() =~= bytes@.take(at as int));
        hash = (hash * HASH_FACTOR + bytes[at] as u64) % HASH_RANGE;
        at = at + 1;
    }
    assert(bytes@.take(at as int) =~= bytes@);
    hash
}

/// The entries of one file.
struct ItemHistory {
    file_name: String,
    entries: Vec<RequestRes>,
}

/// The entries of a log by file.
pub struct ResumeIndex {
    /// A group for each file of the log, in the order in which the files
    /// first occur.
    groups: Vec<ItemHistory>,
    /// For the hash of each file's name, the positions of the groups of
    /// the files with that hash.
    buckets: HashMap<u64, Vec<usize>>,
    log: Ghost<Seq<EntryView>>,
}

impl View for ResumeIndex {
    type V = Map<Seq<char>, Seq<EntryView>>;

    closed spec fn view(&self) -> Map<Seq<char>, Seq<EntryView>> {
        grouped(self.log@)
    }
}

impl ResumeIndex {
    /// The entries that the index was made of, in the order in which they
    /// were added.
    pub closed spec fn log(&self) -> Seq<EntryView> {
        self.log@
    }

    /// The invariant of the type: each file of the log has one group, which
    /// holds the file's entries in the order of the log.
    pub closed spec fn wf(&self) -> bool {
        &&& forall|i: int|
            0 <= i < self.groups.len() ==> {
                &&& (#[trigger] self.groups[i]).entries.len() > 0
                &&& entry_views(self.groups[i].entries@) == entries_of(
                    self.log@,
                    self.groups[i].file_name@,
                )
            }
        &&& forall|i: int, j: int|
            0 <= i < j < self.groups.len() ==> (#[trigger] self.groups[i]).file_name@ != (
            #[trigger] self.groups[j]).file_name@
        &&& forall|k: int|
            0 <= k < self.log@.len() ==> exists|i: int|
                0 <= i < self.groups.len() && (#[trigger] self.groups[i]).file_name@
                    == (#[trigger] self.log@[k]).file_name
        &&& forall|i: int|
            0 <= i < self.groups.len() ==> self.in_bucket(
                hash_of(encode_utf8((#[trigger] self.groups[i]).file_name@)),
                i,
            )
        &&& forall|hash: u64, j: int|
            self.buckets@.contains_key(hash) && 0 <= j < self.buckets@[hash]@.len() ==> (
            #[trigger] self.buckets@[hash]@[j]) < self.groups.len()
    }

    /// Whether the bucket of `hash` holds the position `at`.
    spec fn in_bucket(&self, hash: u64, at: int) -> bool {
        self.buckets@.contains_key(hash) && exists|j: int|
            0 <= j < self.buckets@[hash]@.len() && #[trigger] self.buckets@[hash]@[j] == at
    }

    /// The view is the log by file.
    pub proof fn lemma_view(&self)
        ensures
            self@ == grouped(self.log()),
    {
    }

    /// The index of an empty log.
    pub fn new() -> (index: ResumeIndex)
        ensures
            index.wf(),
            index.log() == Seq::<EntryView>::empty(),
            index@ == grouped(Seq::<EntryView>::empty()),
    {
        ResumeIndex { groups: Vec::new(), buckets: HashMap::new(), log: Ghost(Seq::empty()) }
    }

    /// The position of the group of the file `name`.
    fn position(&self, name: &String) -> (found: Option<usize>)
        requires
            self.wf(),
        ensures
            match found {
                Some(at) => at < self.groups.len() && self.groups[at as int].file_name@ == name@,
                None => forall|i: int|
                    0 <= i < self.groups.len() ==> (#[trigger] self.groups[i]).file_name@ != name@,
            },
    {
        broadcast use group_hash_axioms;

        let hash = name_hash(name.as_str());
        match self.buckets.get(&hash) {
            Some(bucket) => {
                let mut at: usize = 0;
                while at < bucket.len()
                    invariant
                        self.wf(),
                        at <= bucket.len(),
                        self.buckets@.contains_key(hash),
                        self.buckets@[hash] == *bucket,
                        forall|j: int|
                            0 <= j < at ==> self.groups[(#[trigger] bucket[j]) as int].file_name@
                                != name@,
                    decreases bucket.len() - at,
                {
                    let candidate = bucket[at];
                    if self.groups[candidate].file_name == *name {
                        return Some(candidate);
                    }
                    at = at + 1;
                }
                assert forall|i: int| 0 <= i < self.groups.len() implies (
                #[trigger] self.groups[i]).file_name@ != name@ by {
                    if self.groups[i].file_name@ == name@ {
                        assert(self.in_bucket(hash, i));
                    }
                }
                None
            },
            None => {
                assert forall|i: int| 0 <= i < self.groups.len() implies (
                #[trigger] self.groups[i]).file_name@ != name@ by {
                    if self.groups[i].file_name@ == name@ {
                        assert(self.in_bucket(hash, i));
                    }
                }
                None
            },
        }
    }

    /// Enters the position of the last group into the bucket of its hash.
    fn enter_last_group(&mut self)
        requires
            old(self).groups.len() > 0,
            forall|i: int|
                0 <= i < old(self).groups.len() - 1 ==> old(self).in_bucket(
                    hash_of(encode_utf8((#[trigger] old(self).groups[i]).file_name@)),
                    i,
                ),
            forall|hash: u64, j: int|
                old(self).buckets@.contains_key(hash) && 0 <= j < old(self).buckets@[hash]@.len()
                    ==> (#[trigger] old(self).buckets@[hash]@[j]) < old(self).groups.len() - 1,
        ensures
            final(self).groups == old(self).groups,
            final(self).log == old(self).log,
            forall|i: int|
                0 <= i < final(self).groups.len() ==> final(self).in_bucket(
                    hash_of(encode_utf8((#[trigger] final(self).groups[i]).file_name@)),
                    i,
                ),
            forall|hash: u64, j: int|
                final(self).buckets@.contains_key(hash) && 0 <= j < final(self).buckets@[hash]@.len() ==> (#[trigger] final(self).buckets@[hash]@[j]) < final(self).groups.len(),
    {
        broadcast use group_hash_axioms;

        let last = self.groups.len() - 1;
        let hash = name_hash(self.groups[last].file_name.as_str());
        let mut bucket = match self.buckets.remove(&hash) {
            Some(bucket) => bucket,
            None => Vec::new(),
        };
        let ghost before = bucket@;
        bucket.push(last);
        self.buckets.insert(hash, bucket);
        assert(self.buckets@[hash]@ == before.push(last));
        assert forall|i: int| 0 <= i < self.groups.len() implies self.in_bucket(
            hash_of(encode_utf8((#[trigger] self.groups[i]).file_name@)),
            i,
        ) by {
            let mine = hash_of(encode_utf8(self.groups[i].file_name@));
            if i == last {
                assert(self.buckets@[hash]@[before.len() as int] == i);
            } else {
                assert(old(self).in_bucket(mine, i));
                let j = choose|j: int|
                    0 <= j < old(self).buckets@[mine]@.len() && #[trigger] old(
                        self,
                    ).buckets@[mine]@[j] == i;
                if mine == hash {
                    assert(before[j] == i);
                    assert(self.buckets@[mine]@[j] == i);
                } else {
                    assert(self.buckets@[mine]@[j] == i);
                }
            }
        }
        assert forall|other: u64, j: int|
            self.buckets@.contains_key(other) && 0 <= j < self.buckets@[other]@.len() implies (
        #[trigger] self.buckets@[other]@[j]) < self.groups.len() by {
            if other == hash {
                if j < before.len() {
                    assert(old(self).buckets@.contains_key(hash));
                    assert(old(self).buckets@[hash]@[j] < old(self).groups.len() - 1);
                }
            } else {
                assert(old(self).buckets@[other]@[j] < old(self).groups.len() - 1);
            }
        }
    }

    /// Adds an entry at the end of the log.
    pub fn record(&mut self, entry: RequestRes)
        requires
            old(self).wf(),
        ensures
            final(self).wf(),
            final(self).log() == old(self).log().push(entry@),
            final(self)@ == grouped(old(self).log().push(entry@)),
    {
        let ghost before = self.log@;
        let ghost after = self.log@.push(entry@);
        proof {
            assert forall|name: Seq<char>|
                #[trigger] entries_of(after, name) == if entry@.file_name == name {
                    entries_of(before, name).push(entry@)
                } else {
                    entries_of(before, name)
                } by {
                before.lemma_filter_push(entry@, is_for(name));
            }
        }
        match self.position(&entry.file_name) {
            Some(at) => {
                let ghost old_entries = entry_views(self.groups[at as int].entries@);
                let ghost pushed = self.groups[at as int].entries@.push(entry);
                assert(entry_views(pushed) =~= old_entries.push(entry@));
                self.groups[at].entries.push(entry);
                self.log = Ghost(after);
                assert(self.groups@.len() == old(self).groups@.len());
                assert(forall|i: int|
                    0 <= i < self.groups.len() ==> (#[trigger] self.groups[i]).file_name == old(
                        self,
                    ).groups[i].file_name);
                assert(forall|i: int|
                    0 <= i < self.groups.len() && i != at ==> (#[trigger] self.groups[i])
                        == old(self).groups[i]);
                assert forall|k: int| 0 <= k < after.len() implies exists|i: int|
                    0 <= i < self.groups.len() && (#[trigger] self.groups[i]).file_name@ == (
                    #[trigger] after[k]).file_name by {
                    if k < before.len() {
                        let i = choose|i: int|
                            0 <= i < old(self).groups.len() && (#[trigger] old(
                                self,
                            ).groups[i]).file_name@ == before[k].file_name;
                        assert(self.groups[i].file_name@ == after[k].file_name);
                    } else {
                        assert(self.groups[at as int].file_name@ == after[k].file_name);
                    }
                }
            },
            None => {
                let name = entry.file_name.clone();
                let mut entries: Vec<RequestRes> = Vec::new();
                proof {
                    // The log has no entry for a file without a group.
                    assert(entries_of(before, entry@.file_name).len() == 0) by {
                        lemma_entries_are_of_log(before, entry@.file_name);
                        if entries_of(before, entry@.file_name).len() > 0 {
                            let e = entries_of(before, entry@.file_name)[0];
                            assert(before.contains(e));
                            let k = choose|k: int| 0 <= k < before.len() && before[k] == e;
                            assert(before[k].file_name == entry@.file_name);
                        }
                    }
                    assert(entry_views(entries@.push(entry)) =~= seq![entry@]);
                    assert(entries_of(after, entry@.file_name) =~= seq![entry@]);
                }
                entries.push(entry);
                self.groups.push(ItemHistory { file_name: name, entries });
                self.log = Ghost(after);
                assert(forall|i: int|
                    0 <= i < old(self).groups.len() ==> (#[trigger] self.groups[i]) == old(
                        self,
                    ).groups[i]);
                assert forall|i: int| 0 <= i < self.groups.len() - 1 implies self.in_bucket(
                    hash_of(encode_utf8((#[trigger] self.groups[i]).file_name@)),
                    i,
                ) by {
                    assert(old(self).in_bucket(
                        hash_of(encode_utf8(old(self).groups[i].file_name@)),
                        i,
                    ));
                }
                self.enter_last_group();
                assert forall|k: int| 0 <= k < after.len() implies exists|i: int|
                    0 <= i < self.groups.len() && (#[trigger] self.groups[i]).file_name@ == (
                    #[trigger] after[k]).file_name by {
                    if k < before.len() {
                        let i = choose|i: int|
                            0 <= i < old(self).groups.len() && (#[trigger] old(
                                self,
                            ).groups[i]).file_name@ == before[k].file_name;
                        assert(self.groups[i].file_name@ == after[k].file_name);
                    } else {
                        let last = self.groups.len() - 1;
                        assert(self.groups[last].file_name@ == after[k].file_name);
                    }
                }
            },
        }
    }

    /// The entries of the file `name`, if the log has any.
    pub fn get(&self, name: &str) -> (found: Option<&Vec<RequestRes>>)
        requires
            self.wf(),
        ensures
            found is Some <==> self@.contains_key(name@),
            found matches Some(entries) ==> entry_views(entries@) == self@[name@],
    {
        let owned = String::from_str(name);
        match self.position(&owned) {
            Some(at) => {
                proof {
                    lemma_entries_are_of_log(self.log@, name@);
                    let first = entries_of(self.log@, name@)[0];
                    assert(self.log@.contains(first));
                }
                Some(&self.groups[at].entries)
            },
            None => None,
        }
    }

    /// Whether the file `name` is final: the log holds a final entry for it.
    pub fn is_final(&self, name: &str) -> (is_final: bool)
        requires
            self.wf(),
        ensures
            is_final == is_final_in(self@, name@),
    {
        match self.get(name) {
            Some(entries) => {
                let mut at: usize = 0;
                while at < entries.len()
                    invariant
                        at <= entries.len(),
                        self@.contains_key(name@),
                        entry_views(entries@) == self@[name@],
                        forall|i: int|
                            0 <= i < at ==> !(#[trigger] entry_views(entries@)[i]).is_final(),
                    decreases entries.len() - at,
                {
                    if entries[at].is_final() {
                        assert(entry_views(entries@)[at as int].is_final());
                        return true;
                    }
                    at = at + 1;
                }
                false
            },
            None => false,
        }
    }
}

/// Reads a log from its lines as they were decoded, each an entry or the
/// reason why the line is no entry.
///
/// The first line that is no entry fails the whole log, with its reason.
/// Otherwise the entries are grouped by file, in the order of the lines.
pub fn parse_result_map(lines: Vec<Result<RequestRes, StrErr>>) -> (made: Result<
    ResumeIndex,
    StrErr,
>)
    ensures
        match made {
            Ok(index) => {
                &&& index.wf()
                &&& index.log() == entries_in(line_views(lines@))
                &&& parsed(line_views(lines@)) == Ok::<Map<Seq<char>, Seq<EntryView>>, Seq<char>>(
                    index@,
                )
            },
            Err(err) => parsed(line_views(lines@)) == Err::<
                Map<Seq<char>, Seq<EntryView>>,
                Seq<char>,
            >(err@),
        },
{
    let mut index = ResumeIndex::new();
    let ghost all = line_views(lines@);
    let ghost raw = lines@;
    for line in it: lines.into_iter()
        invariant
            index.wf(),
            it.seq() == raw,
            all == line_views(raw),
            forall|j: int| 0 <= j < it.index() ==> (#[trigger] all[j]) is Ok,
            index.log() == entries_in(all.take(it.index() as int)),
    {
        let ghost done = it.index() as int;
        assert(line == raw[done]);
        assert(all[done] == line_view(line));
        match line {
            Ok(entry) => {
                assert(entries_in(all.take(done + 1)) =~= entries_in(all.take(done)).push(entry@));
                index.record(entry);
            },
            Err(err) => {
                proof {
                    assert(is_first_failure(all, done));
                    let first = choose|at: int| is_first_failure(all, at);
                    if first < done {
                        assert(all[first] is Ok);
                    }
                    if done < first {
                        assert(all[done] is Ok);
                    }
                }
                return Err(err);
            },
        }
    }
    proof {
        assert(all.take(all.len() as int) =~= all);
        assert forall|at: int| !is_first_failure(all, at) by {
            if 0 <= at < all.len() {
                assert(all[at] is Ok);
            }
        }
    }
    Ok(index)
}

/// The files of `names` that are still to be fetched: those without a final
/// entry in `index`, in the order of `names`.
pub fn pending_items(names: &Vec<String>, index: &ResumeIndex) -> (pending: Vec<String>)
    requires
        index.wf(),
    ensures
        name_views(pending@) == pending_of(name_views(names@), index@),
{
    let mut pending: Vec<String> = Vec::new();
    let ghost all = name_views(names@);
    proof {
        reveal(Seq::filter);
        assert(all.take(0) =~= Seq::<Seq<char>>::empty());
        assert(name_views(pending@) =~= Seq::<Seq<char>>::empty());
    }
    let mut at: usize = 0;
    while at < names.len()
        invariant
            at <= names.len(),
            index.wf(),
            all == name_views(names@),
            name_views(pending@) == pending_of(all.take(at as int), index@),
        decreases names.len() - at,
    {
        proof {
            assert(all.take(at + 1) =~= all.take(at as int).push(all[at as int]));
            all.take(at as int).lemma_filter_push(all[at as int], is_pending_in(index@));
        }
        if !index.is_final(names[at].as_str()) {
            let name = names[at].clone();
            assert(name_views(pending@.push(name)) =~= name_views(pending@).push(name@));
            pending.push(name);
        }
        at = at + 1;
    }
    assert(all.take(at as int) =~= all);
    pending
}

/// The entries of a file are entries of the log, and they are for that file.
pub proof fn lemma_entries_are_of_log(log: Seq<EntryView>, name: Seq<char>)
    ensures
        forall|i: int|
            0 <= i < entries_of(log, name).len() ==> {
                &&& log.contains(#[trigger] entries_of(log, name)[i])
                &&& entries_of(log, name)[i].file_name == name
            },
        forall|k: int|
            0 <= k < log.len() && log[k].file_name == name ==> entries_of(log, name).contains(
                #[trigger] log[k],
            ),
    decreases log.len(),
{
    reveal(Seq::filter);
    if log.len() > 0 {
        let front = log.drop_last();
        lemma_entries_are_of_log(front, name);
        front.lemma_filter_push(log.last(), is_for(name));
        assert(front.push(log.last()) =~= log);
        let mine = entries_of(log, name);
        assert forall|i: int| 0 <= i < mine.len() implies log.contains(#[trigger] mine[i])
            && mine[i].file_name == name by {
            if i < entries_of(front, name).len() {
                let e = entries_of(front, name)[i];
                assert(front.contains(e));
                let k = choose|k: int| 0 <= k < front.len() && front[k] == e;
                assert(log[k] == e);
            } else {
                assert(mine[i] == log.last());
                assert(log[log.len() - 1] == mine[i]);
            }
        }
        assert forall|k: int| 0 <= k < log.len() && log[k].file_name == name implies mine.contains(
            #[trigger] log[k],
        ) by {
            if k < front.len() {
                assert(front[k] == log[k]);
                let j = choose|j: int|
                    0 <= j < entries_of(front, name).len() && entries_of(front, name)[j]
                        == front[k];
                assert(mine[j] == log[k]);
            } else {
                assert(mine[mine.len() - 1] == log[k]);
            }
        }
    }
}

/// A file is final exactly if the log holds a final entry for it.
pub proof fn lemma_final_iff_final_entry(log: Seq<EntryView>, name: Seq<char>)
    ensures
        is_final_in(grouped(log), name) <==> exists|k: int|
            0 <= k < log.len() && (#[trigger] log[k]).file_name == name && log[k].is_final(),
{
    lemma_entries_are_of_log(log, name);
    let mine = entries_of(log, name);
    if is_final_in(grouped(log), name) {
        let i = choose|i: int| 0 <= i < mine.len() && #[trigger] mine[i].is_final();
        assert(log.contains(mine[i]));
        let k = choose|k: int| 0 <= k < log.len() && log[k] == mine[i];
        assert(log[k].file_name == name && log[k].is_final());
    }
    if exists|k: int|
        0 <= k < log.len() && (#[trigger] log[k]).file_name == name && log[k].is_final() {
        let k = choose|k: int|
            0 <= k < log.len() && (#[trigger] log[k]).file_name == name && log[k].is_final();
        assert(mine.contains(log[k]));
        let i = choose|i: int| 0 <= i < mine.len() && mine[i] == log[k];
        assert(mine[i].is_final());
    }
}

/// Retry eligibility: a file whose entries, if it has any, are all failures
/// to get a response is pending. A file with an entry of another kind is
/// final, however many entries it has and wherever that entry stands.
pub proof fn lemma_retry_eligibility(log: Seq<EntryView>, name: Seq<char>)
    ensures
        (forall|k: int|
            0 <= k < log.len() && (#[trigger] log[k]).file_name == name
                ==> log[k].result_kind is Error) ==> !is_final_in(grouped(log), name),
        (exists|k: int|
            0 <= k < log.len() && (#[trigger] log[k]).file_name == name && (
            log[k].result_kind is Success || log[k].result_kind is ComparisonErr
                || log[k].result_kind is WrongResponse)) ==> is_final_in(grouped(log), name),
{
    lemma_final_iff_final_entry(log, name);
    if exists|k: int|
        0 <= k < log.len() && (#[trigger] log[k]).file_name == name && (
        log[k].result_kind is Success || log[k].result_kind is ComparisonErr
            || log[k].result_kind is WrongResponse) {
        let k = choose|k: int|
            0 <= k < log.len() && (#[trigger] log[k]).file_name == name && (
            log[k].result_kind is Success || log[k].result_kind is ComparisonErr
                || log[k].result_kind is WrongResponse);
        assert(log[k].is_final());
    }
}

/// Two logs with the same entries, in whatever order, agree on which files
/// are final.
pub proof fn lemma_order_is_irrelevant(first: Seq<EntryView>, second: Seq<EntryView>, name: Seq<char>)
    requires
        first.to_multiset() == second.to_multiset(),
    ensures
        is_final_in(grouped(first), name) == is_final_in(grouped(second), name),
{
    lemma_final_iff_final_entry(first, name);
    lemma_final_iff_final_entry(second, name);
    first.to_multiset_ensures();
    second.to_multiset_ensures();
    if is_final_in(grouped(first), name) {
        let k = choose|k: int|
            0 <= k < first.len() && (#[trigger] first[k]).file_name == name && first[k].is_final();
        assert(first.contains(first[k]));
        assert(first.to_multiset().count(first[k]) > 0);
        assert(second.to_multiset().count(first[k]) > 0);
        assert(second.contains(first[k]));
        let j = choose|j: int| 0 <= j < second.len() && second[j] == first[k];
        assert(second[j].file_name == name && second[j].is_final());
    }
    if is_final_in(grouped(second), name) {
        let k = choose|k: int|
            0 <= k < second.len() && (#[trigger] second[k]).file_name == name
                && second[k].is_final();
        assert(second.contains(second[k]));
        assert(second.to_multiset().count(second[k]) > 0);
        assert(first.to_multiset().count(second[k]) > 0);
        assert(first.contains(second[k]));
        let j = choose|j: int| 0 <= j < first.len() && first[j] == second[k];
        assert(first[j].file_name == name && first[j].is_final());
    }
}

/// The pending files are the listed files that are not final.
pub proof fn lemma_pending_are_listed_and_open(
    names: Seq<Seq<char>>,
    index: Map<Seq<char>, Seq<EntryView>>,
    name: Seq<char>,
)
    ensures
        pending_of(names, index).contains(name) <==> names.contains(name) && !is_final_in(
            index,
            name,
        ),
    decreases names.len(),
{
    reveal(Seq::filter);
    if names.len() > 0 {
        let front = names.drop_last();
        lemma_pending_are_listed_and_open(front, index, name);
        front.lemma_filter_push(names.last(), is_pending_in(index));
        assert(front.push(names.last()) =~= names);
        let mine = pending_of(names, index);
        let fewer = pending_of(front, index);
        if mine.contains(name) {
            let i = choose|i: int| 0 <= i < mine.len() && mine[i] == name;
            if i < fewer.len() {
                assert(fewer[i] == name);
                assert(fewer.contains(name));
                let k = choose|k: int| 0 <= k < front.len() && front[k] == name;
                assert(names[k] == name);
            } else {
                assert(names[names.len() - 1] == name);
            }
        }
        if names.contains(name) && !is_final_in(index, name) {
            let k = choose|k: int| 0 <= k < names.len() && names[k] == name;
            if k < front.len() {
                assert(front[k] == name);
                assert(front.contains(name));
                let i = choose|i: int| 0 <= i < fewer.len() && fewer[i] == name;
                assert(mine[i] == name);
            } else {
                assert(mine[mine.len() - 1] == name);
            }
        }
    }
}

/// A file that is final stays final when entries are added to the log.
pub proof fn lemma_finality_persists(
    prior: Seq<EntryView>,
    appended: Seq<EntryView>,
    name: Seq<char>,
)
    requires
        is_final_in(grouped(prior), name),
    ensures
        is_final_in(grouped(prior + appended), name),
{
    lemma_final_iff_final_entry(prior, name);
    lemma_final_iff_final_entry(prior + appended, name);
    let k = choose|k: int|
        0 <= k < prior.len() && (#[trigger] prior[k]).file_name == name && prior[k].is_final();
    assert((prior + appended)[k] == prior[k]);
}

/// Resuming: a run on the list `names` and the log `prior` fetches no file
/// that is final in `prior`. If it appends an entry for each of its pending
/// files, and each fetch ends otherwise than in a failure to get a response,
/// then every listed file is final in the log it leaves, and a further run
/// on that log has nothing to fetch.
pub proof fn lemma_resumed_run_finishes(
    names: Seq<Seq<char>>,
    prior: Seq<EntryView>,
    appended: Seq<EntryView>,
)
    requires
        forall|name: Seq<char>| #[trigger]
            pending_of(names, grouped(prior)).contains(name) ==> exists|k: int|
                0 <= k < appended.len() && (#[trigger] appended[k]).file_name == name,
        forall|k: int| 0 <= k < appended.len() ==> (#[trigger] appended[k]).is_final(),
    ensures
        forall|name: Seq<char>|
            is_final_in(grouped(prior), name) ==> !(#[trigger] pending_of(
                names,
                grouped(prior),
            ).contains(name)),
        forall|i: int|
            0 <= i < names.len() ==> is_final_in(grouped(prior + appended), #[trigger] names[i]),
        pending_of(names, grouped(prior + appended)) == Seq::<Seq<char>>::empty(),
{
    let after = prior + appended;
    assert forall|name: Seq<char>| is_final_in(grouped(prior), name) implies !(
    #[trigger] pending_of(names, grouped(prior)).contains(name)) by {
        lemma_pending_are_listed_and_open(names, grouped(prior), name);
    }
    assert forall|i: int| 0 <= i < names.len() implies is_final_in(
        grouped(after),
        #[trigger] names[i],
    ) by {
        let name = names[i];
        assert(names.contains(name));
        lemma_pending_are_listed_and_open(names, grouped(prior), name);
        if is_final_in(grouped(prior), name) {
            lemma_finality_persists(prior, appended, name);
        } else {
            assert(pending_of(names, grouped(prior)).contains(name));
            let k = choose|k: int|
                0 <= k < appended.len() && (#[trigger] appended[k]).file_name == name;
            assert(after[prior.len() + k] == appended[k]);
            assert(after[prior.len() + k].is_final());
            lemma_final_iff_final_entry(after, name);
        }
    }
    let left = pending_of(names, grouped(after));
    if left.len() > 0 {
        let name = left[0];
        assert(left.contains(name));
        lemma_pending_are_listed_and_open(names, grouped(after), name);
        let i = choose|i: int| 0 <= i < names.len() && names[i] == name;
        assert(is_final_in(grouped(after), names[i]));
    }
    assert(left =~= Seq::<Seq<char>>::empty());
}

} // verus!
