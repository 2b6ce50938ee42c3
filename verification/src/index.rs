//! The index of log files: which entries of a directory listing start a
//! rotation, when each was created, and in which order they are read.

use crate::clock::{decode_timestamp, naive_timestamp};
use crate::order::{
    arranged, ascending_order, is_ascending_order, lemma_ascending_order_ascends,
    lemma_ascending_order_exists, lemma_order_names_each, lemma_smaller_key_first, positions,
    sort_order,
};
use crate::text::{contains, cut, cut_bytes, occurs};
use vstd::prelude::*;
use vstd::string::*;
use vstd::utf8::*;

verus! {

/// One entry of a directory listing.
#[derive(Clone, Debug)]
pub struct ListedFile {
    /// The entry's full path.
    pub path_name: String,
    /// The last component of the path.
    pub file_name: String,
    /// Whether the entry is a directory.
    pub is_dir: bool,
}

/// A listed entry together with the creation time that its file name
/// decodes to, if it decodes.
#[derive(Clone, Debug)]
pub struct Candidate {
    /// The entry's full path.
    pub path_name: String,
    /// The last component of the path.
    pub file_name: String,
    /// Whether the entry is a directory.
    pub is_dir: bool,
    /// What the file name decoded to.
    pub creation_time: Option<i64>,
}

/// A log file that starts a rotation.
#[derive(Clone, Debug)]
pub struct LogFile {
    /// Seconds since the Unix epoch at which the server began the file.
    pub creation_time: i64,
    /// The file's path.
    pub name: String,
}

/// A candidate as a mathematical value.
pub struct CandidateView {
    pub path_name: Seq<char>,
    pub file_name: Seq<char>,
    pub is_dir: bool,
    pub creation_time: Option<i64>,
}

/// A log file as a mathematical value.
pub struct LogFileView {
    pub creation_time: i64,
    pub name: Seq<char>,
}

impl View for Candidate {
    type V = CandidateView;

    open spec fn view(&self) -> CandidateView {
        CandidateView {
            path_name: self.path_name@,
            file_name: self.file_name@,
            is_dir: self.is_dir,
            creation_time: self.creation_time,
        }
    }
}

impl View for LogFile {
    type V = LogFileView;

    open spec fn view(&self) -> LogFileView {
        LogFileView { creation_time: self.creation_time, name: self.name@ }
    }
}

/// A primary segment whose file name holds no readable creation time.
#[derive(Clone, Copy, Debug, PartialEq, Eq)]
pub struct UndatedSegment {
    /// Where the entry stands in the listing.
    pub position: usize,
}

/// The mark that the server puts into the name of the first file of each
/// rotation.
pub open spec fn primary_marker() -> Seq<char> {
    "_1.log"@
}

/// The pattern of the creation time in a log file's name.
pub open spec fn file_time_pattern() -> Seq<char> {
    "%Y-%m-%d__%H_%M_%S"@
}

/// The creation time that a file name carries in its bytes 10 to 29.
pub open spec fn creation_time_of(file_name: Seq<char>) -> Option<i64> {
    match cut_bytes(encode_utf8(file_name), 10, 30) {
        Some(stamp) => naive_timestamp(decode_utf8(stamp), file_time_pattern()),
        None => None,
    }
}

/// Whether a listed entry starts a rotation: it is no directory and its file
/// name holds the primary marker. The directories on the way to the file do
/// not count.
pub open spec fn is_primary(file_name: Seq<char>, is_dir: bool) -> bool {
    !is_dir && occurs(encode_utf8(file_name), encode_utf8(primary_marker()))
}

/// Whether the candidate is a primary segment without a creation time.
pub open spec fn is_undated(candidate: CandidateView) -> bool {
    is_primary(candidate.file_name, candidate.is_dir) && candidate.creation_time is None
}

/// Whether some primary segment of the listing has no creation time.
pub open spec fn has_undated(candidates: Seq<CandidateView>) -> bool {
    exists|position: int|
        0 <= position < candidates.len() && is_undated(#[trigger] candidates[position])
}

/// Whether `position` is the first in the listing to hold an undated primary
/// segment.
pub open spec fn is_first_undated(candidates: Seq<CandidateView>, position: int) -> bool {
    &&& 0 <= position < candidates.len()
    &&& is_undated(candidates[position])
    &&& forall|earlier: int| 0 <= earlier < position ==> !is_undated(#[trigger] candidates[earlier])
}

/// The log files among the candidates, in the order of the listing.
pub open spec fn described(candidates: Seq<CandidateView>) -> Seq<LogFileView>
    decreases candidates.len(),
{
    if candidates.len() == 0 {
        Seq::empty()
    } else {
        let earlier = described(candidates.drop_last());
        let last = candidates.last();
        match last.creation_time {
            Some(creation_time) if is_primary(last.file_name, last.is_dir) => earlier.push(
                LogFileView { creation_time, name: last.path_name },
            ),
            _ => earlier,
        }
    }
}

/// One listed entry as a mathematical value.
pub struct ListedFileView {
    pub path_name: Seq<char>,
    pub file_name: Seq<char>,
    pub is_dir: bool,
}

impl View for ListedFile {
    type V = ListedFileView;

    open spec fn view(&self) -> ListedFileView {
        ListedFileView {
            path_name: self.path_name@,
            file_name: self.file_name@,
            is_dir: self.is_dir,
        }
    }
}

/// The entry with the creation time that its file name decodes to.
pub open spec fn dated(entry: ListedFileView) -> CandidateView {
    CandidateView {
        path_name: entry.path_name,
        file_name: entry.file_name,
        is_dir: entry.is_dir,
        creation_time: creation_time_of(entry.file_name),
    }
}

/// The listing with every file name decoded.
pub open spec fn dated_listing(entries: Seq<ListedFile>) -> Seq<CandidateView> {
    entries.map_values(|entry: ListedFile| dated(entry@))
}

/// The creation times of `logs`, position by position.
pub open spec fn creation_times(logs: Seq<LogFileView>) -> Seq<i64> {
    logs.map_values(|log: LogFileView| log.creation_time)
}

/// `logs` by ascending creation time, files of equal time in the order given.
pub open spec fn chronological(logs: Seq<LogFileView>) -> Seq<LogFileView> {
    arranged(logs, ascending_order(creation_times(logs)))
}

/// How many entries of the listing start a rotation.
pub open spec fn primary_count(candidates: Seq<CandidateView>) -> nat
    decreases candidates.len(),
{
    if candidates.len() == 0 {
        0
    } else {
        let last = candidates.last();
        primary_count(candidates.drop_last()) + if is_primary(last.file_name, last.is_dir) {
            1nat
        } else {
            0nat
        }
    }
}

/// Where every primary segment has a creation time, the log files are as
/// many as the primary segments: none is left out and nothing else comes in.
pub proof fn lemma_every_primary_is_described(candidates: Seq<CandidateView>)
    requires
        !has_undated(candidates),
    ensures
        described(candidates).len() == primary_count(candidates),
        chronological(described(candidates)).len() == primary_count(candidates),
    decreases candidates.len(),
{
    if candidates.len() > 0 {
        let earlier = candidates.drop_last();
        assert forall|position: int| 0 <= position < earlier.len() implies !is_undated(
            #[trigger] earlier[position],
        ) by {
            assert(earlier[position] == candidates[position]);
        }
        lemma_every_primary_is_described(earlier);
        assert(!is_undated(candidates[candidates.len() - 1]));
    }
    lemma_chronological_ascends(described(candidates));
}

/// Reading order is by time: no file is followed by an older one. It holds
/// the files given and no others.
pub proof fn lemma_chronological_ascends(logs: Seq<LogFileView>)
    ensures
        chronological(logs).len() == logs.len(),
        forall|i: int, j: int|
            0 <= i <= j < logs.len() ==> (#[trigger] chronological(logs)[i]).creation_time
                <= (#[trigger] chronological(logs)[j]).creation_time,
        forall|i: int| 0 <= i < logs.len() ==> chronological(logs).contains(#[trigger] logs[i]),
        forall|i: int| 0 <= i < logs.len() ==> logs.contains(#[trigger] chronological(logs)[i]),
{
    let times = creation_times(logs);
    let order = ascending_order(times);
    let ordered = chronological(logs);
    lemma_ascending_order_exists(times);
    assert forall|i: int, j: int| 0 <= i <= j < logs.len() implies (#[trigger] ordered[i]).creation_time
        <= (#[trigger] ordered[j]).creation_time by {
        lemma_ascending_order_ascends(times, i, j);
    }
    assert forall|i: int| 0 <= i < logs.len() implies ordered.contains(#[trigger] logs[i]) by {
        lemma_order_names_each(times, order, i);
        let at = choose|at: int| 0 <= at < order.len() && order[at] == i;
        assert(ordered[at] == logs[i]);
    }
    assert forall|i: int| 0 <= i < logs.len() implies logs.contains(#[trigger] ordered[i]) by {
        assert(0 <= order[i] < times.len());
        assert(logs[order[i]] == ordered[i]);
    }
}

/// Of two log files the older is read first, whichever way round they are
/// listed.
pub proof fn lemma_older_log_first(older: LogFileView, newer: LogFileView)
    requires
        older.creation_time < newer.creation_time,
    ensures
        chronological(seq![older, newer]) == seq![older, newer],
        chronological(seq![newer, older]) == seq![older, newer],
{
    lemma_smaller_key_first(older.creation_time, newer.creation_time);
    assert(creation_times(seq![older, newer]) =~= seq![older.creation_time, newer.creation_time]);
    assert(creation_times(seq![newer, older]) =~= seq![newer.creation_time, older.creation_time]);
    assert(chronological(seq![older, newer]) =~= seq![older, newer]);
    assert(chronological(seq![newer, older]) =~= seq![older, newer]);
}

/// The views of `logs`, position by position.
pub open spec fn log_views(logs: Seq<LogFile>) -> Seq<LogFileView> {
    logs.map_values(|log: LogFile| log@)
}

/// The views of `candidates`, position by position.
pub open spec fn candidate_views(candidates: Seq<Candidate>) -> Seq<CandidateView> {
    candidates.map_values(|candidate: Candidate| candidate@)
}

/// Whether no log file is followed by an older one.
pub open spec fn ascends(logs: Seq<LogFile>) -> bool {
    forall|i: int, j: int|
        0 <= i <= j < logs.len() ==> (#[trigger] logs[i]).creation_time
            <= (#[trigger] logs[j]).creation_time
}

/// Decodes the creation time that `file_name` carries.
pub fn creation_time(file_name: &str) -> (time: Option<i64>)
    ensures
        time == creation_time_of(file_name@),
{
    match cut(file_name, 10, 30) {
        Some(stamp) => {
            proof {
                encode_utf8_decode_utf8(stamp@);
            }
            decode_timestamp(stamp, "%Y-%m-%d__%H_%M_%S")
        },
        None => None,
    }
}

/// Puts `logs` into the order in which they are read: by ascending creation
/// time.
pub fn order_logs(logs: &Vec<LogFile>) -> (ordered: Vec<LogFile>)
    ensures
        log_views(ordered@) == chronological(log_views(logs@)),
        ascends(ordered@),
{
    let ghost views = log_views(logs@);
    let mut times: Vec<i64> = Vec::new();
    let mut i: usize = 0;
    while i < logs.len()
        invariant
            i <= logs@.len(),
            views == log_views(logs@),
            times@ == creation_times(views.take(i as int)),
        decreases logs@.len() - i,
    {
        times.push(logs[i].creation_time);
        assert(times@ =~= creation_times(views.take(i + 1)));
        i = i + 1;
    }
    assert(views.take(i as int) =~= views);
    let order = sort_order(&times);
    let ghost taken = positions(order@);
    let mut ordered: Vec<LogFile> = Vec::new();
    let mut k: usize = 0;
    while k < order.len()
        invariant
            k <= order@.len() == logs@.len(),
            views == log_views(logs@),
            taken == positions(order@),
            is_ascending_order(creation_times(views), taken),
            log_views(ordered@) == arranged(views, taken).take(k as int),
        decreases order@.len() - k,
    {
        let at = order[k];
        assert(0 <= taken[k as int] < views.len());
        let log = &logs[at];
        let ghost prior = log_views(ordered@);
        ordered.push(LogFile { creation_time: log.creation_time, name: log.name.clone() });
        proof {
            assert(log_views(ordered@) =~= prior.push(views[at as int]));
            assert(arranged(views, taken).take(k + 1) =~= arranged(views, taken).take(
                k as int,
            ).push(views[at as int]));
        }
        k = k + 1;
    }
    proof {
        assert(arranged(views, taken).take(k as int) =~= arranged(views, taken));
        lemma_chronological_ascends(views);
        assert forall|i: int, j: int| 0 <= i <= j < ordered@.len() implies (
        #[trigger] ordered@[i]).creation_time <= (#[trigger] ordered@[j]).creation_time by {
            assert(log_views(ordered@)[i] == ordered@[i]@);
            assert(log_views(ordered@)[j] == ordered@[j]@);
        }
    }
    ordered
}

/// Picks the log files out of a listing whose names have been decoded, and
/// puts them into reading order. A primary segment without a creation time
/// fails the whole listing.
pub fn select_logs(candidates: &Vec<Candidate>) -> (logs: Result<Vec<LogFile>, UndatedSegment>)
    ensures
        match logs {
            Ok(logs) => {
                &&& !has_undated(candidate_views(candidates@))
                &&& log_views(logs@) == chronological(described(candidate_views(candidates@)))
                &&& ascends(logs@)
            },
            Err(undated) => is_first_undated(
                candidate_views(candidates@),
                undated.position as int,
            ),
        },
{
    let ghost listing = candidate_views(candidates@);
    let mut found: Vec<LogFile> = Vec::new();
    let mut i: usize = 0;
    while i < candidates.len()
        invariant
            i <= candidates@.len(),
            listing == candidate_views(candidates@),
            forall|earlier: int| 0 <= earlier < i ==> !is_undated(#[trigger] listing[earlier]),
            log_views(found@) == described(listing.take(i as int)),
        decreases candidates@.len() - i,
    {
        let candidate = &candidates[i];
        let ghost shown = listing.take(i + 1);
        assert(shown.drop_last() =~= listing.take(i as int));
        assert(shown.last() == candidate@);
        if !candidate.is_dir && contains(candidate.file_name.as_str(), "_1.log") {
            match candidate.creation_time {
                Some(creation_time) => {
                    found.push(LogFile { creation_time, name: candidate.path_name.clone() });
                    assert(log_views(found@) =~= described(shown));
                },
                None => {
                    return Err(UndatedSegment { position: i });
                },
            }
        }
        i = i + 1;
    }
    assert(listing.take(i as int) =~= listing);
    Ok(order_logs(&found))
}

/// Decodes the file name of a listed entry.
pub fn date_entry(entry: &ListedFile) -> (candidate: Candidate)
    ensures
        candidate@ == dated(entry@),
{
    Candidate {
        path_name: entry.path_name.clone(),
        file_name: entry.file_name.clone(),
        is_dir: entry.is_dir,
        creation_time: creation_time(entry.file_name.as_str()),
    }
}

/// The log files of a directory listing, in reading order.
///
/// Directories and files without the primary marker are passed over. A file
/// with the marker whose name holds no readable creation time fails the
/// whole listing.
pub fn compile_logs(entries: &Vec<ListedFile>) -> (logs: Result<Vec<LogFile>, UndatedSegment>)
    ensures
        match logs {
            Ok(logs) => {
                &&& !has_undated(dated_listing(entries@))
                &&& log_views(logs@) == chronological(described(dated_listing(entries@)))
                &&& ascends(logs@)
            },
            Err(undated) => is_first_undated(dated_listing(entries@), undated.position as int),
        },
{
    let mut candidates: Vec<Candidate> = Vec::new();
    let mut i: usize = 0;
    while i < entries.len()
        invariant
            i <= entries@.len(),
            candidate_views(candidates@) == dated_listing(entries@).take(i as int),
        decreases entries@.len() - i,
    {
        let ghost before = candidate_views(candidates@);
        let candidate = date_entry(&entries[i]);
        candidates.push(candidate);
        assert(candidate_views(candidates@) =~= before.push(dated(entries@[i as int]@)));
        assert(dated_listing(entries@).take(i + 1) =~= dated_listing(entries@).take(
            i as int,
        ).push(dated(entries@[i as int]@)));
        i = i + 1;
    }
    assert(dated_listing(entries@).take(i as int) =~= dated_listing(entries@));
    select_logs(&candidates)
}

} // verus!
