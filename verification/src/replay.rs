//! Replaying the log files of a run: oldest file first, with a log rotation
//! marked in the ledger after each file.

use crate::ledger::{cleared, ClientDatabase, ClientView};
use crate::line::{line_bytes, lines_applied, parse_file, reached, LineError, Progress};
use crate::order::{
    arranged, ascending_order, is_ascending_order, lemma_ascending_order_ascends,
    lemma_ascending_order_exists, lemma_ascending_order_names_each_once, lemma_order_names_each,
    lemma_smaller_key_first, positions, sort_order,
};
use vstd::prelude::*;

verus! {

/// A log file that has been read into memory.
#[derive(Clone, Debug)]
pub struct LoadedLog {
    /// Seconds since the Unix epoch at which the server began the file.
    pub creation_time: i64,
    /// The file's lines, in order.
    pub lines: Vec<String>,
}

/// A loaded log file as a mathematical value.
pub struct LoadedLogView {
    pub creation_time: i64,
    pub lines: Seq<Seq<u8>>,
}

impl View for LoadedLog {
    type V = LoadedLogView;

    open spec fn view(&self) -> LoadedLogView {
        LoadedLogView { creation_time: self.creation_time, lines: line_bytes(self.lines@) }
    }
}

/// The views of `logs`, position by position.
pub open spec fn loaded_views(logs: Seq<LoadedLog>) -> Seq<LoadedLogView> {
    logs.map_values(|log: LoadedLog| log@)
}

/// The creation times of `logs`, position by position.
pub open spec fn load_times(logs: Seq<LoadedLogView>) -> Seq<i64> {
    logs.map_values(|log: LoadedLogView| log.creation_time)
}

/// `logs` in the order in which they are replayed: by ascending creation
/// time, files of equal time in the order given.
pub open spec fn reading_order(logs: Seq<LoadedLogView>) -> Seq<LoadedLogView> {
    arranged(logs, ascending_order(load_times(logs)))
}

/// The ledger after the given files, replayed in the order given. After the
/// last line of each file the ledger is cleared. A line that stops the replay
/// stops it for good.
pub open spec fn files_applied(ledger: Map<u32, ClientView>, files: Seq<LoadedLogView>) -> Progress
    decreases files.len(),
{
    if files.len() == 0 {
        Progress { ledger, error: None }
    } else {
        let before = files_applied(ledger, files.drop_last());
        if before.error is Some {
            before
        } else {
            let after = lines_applied(before.ledger, files.last().lines);
            if after.error is Some {
                after
            } else {
                Progress { ledger: cleared(after.ledger), error: None }
            }
        }
    }
}

/// Once a file has stopped the replay, the files after it change nothing.
proof fn lemma_stopped_replay_stays(
    ledger: Map<u32, ClientView>,
    files: Seq<LoadedLogView>,
    upto: int,
)
    requires
        0 <= upto <= files.len(),
        files_applied(ledger, files.take(upto)).error is Some,
    ensures
        files_applied(ledger, files) == files_applied(ledger, files.take(upto)),
    decreases files.len() - upto,
{
    if upto == files.len() {
        assert(files.take(upto) =~= files);
    } else {
        assert(files.take(upto + 1).drop_last() =~= files.take(upto));
        lemma_stopped_replay_stays(ledger, files, upto + 1);
    }
}

/// Replays the given log files into the ledger, oldest first, and marks a
/// log rotation after each.
pub fn parse_file_list(logs: &Vec<LoadedLog>, db: &mut ClientDatabase) -> (outcome: Result<
    (),
    LineError,
>)
    ensures
        reached(final(db)@, outcome) == files_applied(
            old(db)@,
            reading_order(loaded_views(logs@)),
        ),
{
    let ghost views = loaded_views(logs@);
    let mut times: Vec<i64> = Vec::new();
    let mut i: usize = 0;
    while i < logs.len()
        invariant
            i <= logs@.len(),
            views == loaded_views(logs@),
            times@ == load_times(views.take(i as int)),
        decreases logs@.len() - i,
    {
        times.push(logs[i].creation_time);
        assert(times@ =~= load_times(views.take(i + 1)));
        i = i + 1;
    }
    assert(views.take(i as int) =~= views);
    let order = sort_order(&times);
    let ghost taken = positions(order@);
    let ghost files = reading_order(views);
    let mut k: usize = 0;
    while k < order.len()
        invariant
            k <= order@.len() == logs@.len(),
            views == loaded_views(logs@),
            taken == positions(order@),
            is_ascending_order(load_times(views), taken),
            files == arranged(views, taken),
            files == reading_order(views),
            reached(db@, Ok(())) == files_applied(old(db)@, files.take(k as int)),
        decreases order@.len() - k,
    {
        let at = order[k];
        assert(0 <= taken[k as int] < views.len());
        let log = &logs[at];
        let ghost shown = files.take(k + 1);
        assert(shown.drop_last() =~= files.take(k as int));
        assert(shown.last() == log@);
        match parse_file(&log.lines, db) {
            Ok(_) => {
                db.clear_clients();
            },
            Err(error) => {
                proof {
                    lemma_stopped_replay_stays(old(db)@, files, k + 1);
                }
                return Err(error);
            },
        }
        k = k + 1;
    }
    assert(files.take(k as int) =~= files);
    Ok(())
}

/// The files are replayed by time: none is followed by an older one. Each
/// file that was handed over is replayed once, and no other: the order of
/// replay takes every position of the list once.
pub proof fn lemma_reading_order_ascends(logs: Seq<LoadedLogView>)
    ensures
        reading_order(logs).len() == logs.len(),
        forall|i: int, j: int|
            0 <= i <= j < logs.len() ==> (#[trigger] reading_order(logs)[i]).creation_time
                <= (#[trigger] reading_order(logs)[j]).creation_time,
        reading_order(logs) == arranged(logs, ascending_order(load_times(logs))),
        ascending_order(load_times(logs)).no_duplicates(),
        forall|position: int|
            0 <= position < logs.len() <==> #[trigger] ascending_order(load_times(logs)).contains(
                position,
            ),
        forall|i: int| 0 <= i < logs.len() ==> reading_order(logs).contains(#[trigger] logs[i]),
        forall|i: int| 0 <= i < logs.len() ==> logs.contains(#[trigger] reading_order(logs)[i]),
{
    let times = load_times(logs);
    let order = ascending_order(times);
    let ordered = reading_order(logs);
    lemma_ascending_order_exists(times);
    lemma_ascending_order_names_each_once(times);
    assert forall|i: int, j: int| 0 <= i <= j < logs.len() implies (#[trigger] ordered[i]).creation_time
        <= (#[trigger] ordered[j]).creation_time by {
        lemma_ascending_order_ascends(times, i, j);
    }
    assert forall|i: int| 0 <= i < logs.len() implies ordered.contains(#[trigger] logs[i]) by {
        lemma_order_names_each(times, order, i);
        let at = choose|at: int| 0 <= at < order.len() && order[at] == i;
        assert(ordered[at] == logs[i]);
    }
    assert forall|i: int| 0 <= i < logs.len() implies logs.contains(#[trigger] ordered[i]) by {
        assert(0 <= order[i] < times.len());
        assert(logs[order[i]] == ordered[i]);
    }
}

/// Two files are replayed oldest first, whichever way round they are listed.
pub proof fn lemma_older_file_first(older: LoadedLogView, newer: LoadedLogView)
    requires
        older.creation_time < newer.creation_time,
    ensures
        reading_order(seq![older, newer]) == seq![older, newer],
        reading_order(seq![newer, older]) == seq![older, newer],
{
    lemma_smaller_key_first(older.creation_time, newer.creation_time);
    assert(load_times(seq![older, newer]) =~= seq![older.creation_time, newer.creation_time]);
    assert(load_times(seq![newer, older]) =~= seq![newer.creation_time, older.creation_time]);
    assert(reading_order(seq![older, newer]) =~= seq![older, newer]);
    assert(reading_order(seq![newer, older]) =~= seq![older, newer]);
}

/// The replay of two files is the replay of the first, then a log rotation,
/// then the replay of the second and another rotation. A line of the first
/// file that stops the replay keeps the second from being read at all.
pub proof fn lemma_second_file_starts_cleared(
    ledger: Map<u32, ClientView>,
    first: LoadedLogView,
    second: LoadedLogView,
)
    ensures
        ({
            let after_first = lines_applied(ledger, first.lines);
            files_applied(ledger, seq![first, second]) == if after_first.error is Some {
                after_first
            } else {
                files_applied(cleared(after_first.ledger), seq![second])
            }
        }),
        ({
            let after_first = lines_applied(ledger, first.lines);
            files_applied(ledger, seq![first]) == if after_first.error is Some {
                after_first
            } else {
                Progress { ledger: cleared(after_first.ledger), error: None }
            }
        }),
{
    let one = seq![first];
    let two = seq![first, second];
    let only = seq![second];
    assert(one.drop_last() =~= Seq::<LoadedLogView>::empty());
    assert(only.drop_last() =~= Seq::<LoadedLogView>::empty());
    assert(two.drop_last() =~= one);
    reveal_with_fuel(files_applied, 3);
}

/// Files are replayed by creation time, not by listing: of two files, every
/// line of the older is applied and the ledger cleared before any line of
/// the newer is applied, in whichever order the two are handed over.
pub proof fn lemma_two_files_replay_by_time(
    ledger: Map<u32, ClientView>,
    older: LoadedLogView,
    newer: LoadedLogView,
)
    requires
        older.creation_time < newer.creation_time,
    ensures
        ({
            let after_older = lines_applied(ledger, older.lines);
            let outcome = if after_older.error is Some {
                after_older
            } else {
                files_applied(cleared(after_older.ledger), seq![newer])
            };
            &&& files_applied(ledger, reading_order(seq![newer, older])) == outcome
            &&& files_applied(ledger, reading_order(seq![older, newer])) == outcome
        }),
{
    lemma_older_file_first(older, newer);
    lemma_second_file_starts_cleared(ledger, older, newer);
}

} // verus!
