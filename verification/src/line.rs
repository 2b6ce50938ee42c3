//! Reading one log line: when it was written, whether it reports a
//! connection or a disconnection, and of which client.

use crate::clock::{decode_timestamp, naive_timestamp};
use crate::ledger::{
    connect_fits, connected, disconnect_fits, disconnected, ClientDatabase, ClientView,
};
use crate::text::{
    cut, cut_bytes, decimal_u32, find_bytes, first_occurrence, lemma_ascii_byte_is_character,
    lemma_first_occurrence_none, occurs, occurs_at, parse_u32,
};
use vstd::prelude::*;
use vstd::slice::slice_subrange;
use vstd::string::*;
use vstd::utf8::*;

verus! {

/// What a log line reports.
#[derive(Clone, Copy, Debug, PartialEq, Eq)]
pub enum ClientAction {
    Connect,
    Disconnect,
}

/// Why a line stops the run.
#[derive(Clone, Copy, Debug, PartialEq, Eq)]
pub enum LineError {
    /// A connect line without a quoted alias.
    MissingName,
    /// An action line without an identity token.
    MissingId,
    /// An identity token whose number is no 32-bit decimal.
    InvalidId,
    /// A record would have to count more open connections or more seconds
    /// than its fields can hold.
    Overflow,
}

/// The event that a line reports, as a mathematical value.
pub enum EventView {
    Connect { id: u32, name: Seq<char> },
    Disconnect { id: u32 },
}

/// The words by which the server reports a new connection.
pub open spec fn connect_marker() -> Seq<u8> {
    encode_utf8("client connected"@)
}

/// The words by which the server reports the end of a connection.
pub open spec fn disconnect_marker() -> Seq<u8> {
    encode_utf8("client disconnected"@)
}

/// The quote that opens an alias.
pub open spec fn name_start_marker() -> Seq<u8> {
    encode_utf8("'"@)
}

/// The quote and bracket that close an alias.
pub open spec fn name_end_marker() -> Seq<u8> {
    encode_utf8("'("@)
}

/// The label that opens an identity token.
pub open spec fn id_start_marker() -> Seq<u8> {
    encode_utf8("id:"@)
}

/// The bracket that closes an identity token.
pub open spec fn id_end_marker() -> Seq<u8> {
    encode_utf8(")"@)
}

/// The pattern of the time at the start of a line.
pub open spec fn line_time_pattern() -> Seq<char> {
    "%Y-%m-%d %H:%M:%S"@
}

/// What the line reports: a connection where it holds the connect marker,
/// else a disconnection where it holds the disconnect marker.
pub open spec fn action_of(line: Seq<u8>) -> Option<ClientAction> {
    if occurs(line, connect_marker()) {
        Some(ClientAction::Connect)
    } else if occurs(line, disconnect_marker()) {
        Some(ClientAction::Disconnect)
    } else {
        None
    }
}

/// The alias in the line: the text after the line's first quote, up to the
/// first quote that a round bracket follows.
pub open spec fn name_of(line: Seq<u8>) -> Option<Seq<char>> {
    match (
        first_occurrence(line, name_start_marker()),
        first_occurrence(line, name_end_marker()),
    ) {
        (Some(open), Some(close)) => if open < close {
            Some(decode_utf8(line.subrange(open + 1, close)))
        } else {
            None
        },
        _ => None,
    }
}

/// The identity in the line: the decimal number between the first `id:` and
/// the first closing bracket after it.
pub open spec fn id_of(line: Seq<u8>) -> Result<u32, LineError> {
    match first_occurrence(line, id_start_marker()) {
        Some(open) => match first_occurrence(
            line.subrange(open, line.len() as int),
            id_end_marker(),
        ) {
            Some(close) => match decimal_u32(line.subrange(open + 3, open + close)) {
                Some(id) => Ok(id),
                None => Err(LineError::InvalidId),
            },
            None => Err(LineError::MissingId),
        },
        None => Err(LineError::MissingId),
    }
}

/// The event that the line reports, `None` where it reports none, or the
/// reason why a line that reports one cannot be read.
pub open spec fn event_of(line: Seq<u8>) -> Result<Option<EventView>, LineError> {
    match action_of(line) {
        Some(ClientAction::Connect) => match name_of(line) {
            Some(name) => match id_of(line) {
                Ok(id) => Ok(Some(EventView::Connect { id, name })),
                Err(error) => Err(error),
            },
            None => Err(LineError::MissingName),
        },
        Some(ClientAction::Disconnect) => match id_of(line) {
            Ok(id) => Ok(Some(EventView::Disconnect { id })),
            Err(error) => Err(error),
        },
        None => Ok(None),
    }
}

/// The time that the first 19 bytes of the line decode to.
pub open spec fn line_time_of(line: Seq<u8>) -> Option<i64> {
    match cut_bytes(line, 0, 19) {
        Some(stamp) => naive_timestamp(decode_utf8(stamp), line_time_pattern()),
        None => None,
    }
}

/// The bytes of the markers that delimit alias and identity.
proof fn lemma_marker_bytes()
    ensures
        name_start_marker() == seq![0x27u8],
        name_end_marker() == seq![0x27u8, 0x28u8],
        id_start_marker() == seq![0x69u8, 0x64u8, 0x3au8],
        id_end_marker() == seq![0x29u8],
{
    reveal_strlit("'");
    reveal_strlit("'(");
    reveal_strlit("id:");
    reveal_strlit(")");
    is_ascii_chars_encode_utf8("'"@);
    is_ascii_chars_encode_utf8("'("@);
    is_ascii_chars_encode_utf8("id:"@);
    is_ascii_chars_encode_utf8(")"@);
    assert(name_start_marker() =~= seq![0x27u8]);
    assert(name_end_marker() =~= seq![0x27u8, 0x28u8]);
    assert(id_start_marker() =~= seq![0x69u8, 0x64u8, 0x3au8]);
    assert(id_end_marker() =~= seq![0x29u8]);
}

/// The identity that the line names.
pub fn get_id(line: &str) -> (id: Result<u32, LineError>)
    ensures
        id == id_of(line.spec_bytes()),
{
    let bytes = line.as_bytes();
    let open = match find_bytes(bytes, "id:".as_bytes()) {
        Some(open) => open,
        None => {
            return Err(LineError::MissingId);
        },
    };
    proof {
        lemma_marker_bytes();
        lemma_first_occurrence_none(bytes@, id_start_marker());
        assert(occurs_at(bytes@, id_start_marker(), open as int));
    }
    let rest = slice_subrange(bytes, open, bytes.len());
    let close = match find_bytes(rest, ")".as_bytes()) {
        Some(close) => close,
        None => {
            return Err(LineError::MissingId);
        },
    };
    proof {
        lemma_first_occurrence_none(rest@, id_end_marker());
        assert(occurs_at(rest@, id_end_marker(), close as int));
        let label = bytes@.subrange(open as int, open + 3);
        assert(rest@[0] == label[0] && rest@[1] == label[1] && rest@[2] == label[2]);
        assert(rest@.subrange(close as int, close + 1)[0] == rest@[close as int]);
    }
    let digits = slice_subrange(rest, 3, close);
    assert(digits@ =~= bytes@.subrange(open + 3, open + close));
    match parse_u32(digits) {
        Some(id) => Ok(id),
        None => Err(LineError::InvalidId),
    }
}

/// The alias that the line names.
pub fn get_client_name(line: &str) -> (name: Result<String, LineError>)
    ensures
        match name {
            Ok(name) => name_of(line.spec_bytes()) == Some(name@),
            Err(error) => error == LineError::MissingName && name_of(line.spec_bytes()) is None,
        },
{
    let bytes = line.as_bytes();
    let open = match find_bytes(bytes, "'".as_bytes()) {
        Some(open) => open,
        None => {
            return Err(LineError::MissingName);
        },
    };
    let close = match find_bytes(bytes, "'(".as_bytes()) {
        Some(close) => close,
        None => {
            return Err(LineError::MissingName);
        },
    };
    if close <= open {
        return Err(LineError::MissingName);
    }
    proof {
        lemma_marker_bytes();
        lemma_first_occurrence_none(bytes@, name_start_marker());
        lemma_first_occurrence_none(bytes@, name_end_marker());
        assert(occurs_at(bytes@, name_start_marker(), open as int));
        assert(occurs_at(bytes@, name_end_marker(), close as int));
        assert(bytes@.subrange(open as int, open + 1)[0] == bytes@[open as int]);
        assert(bytes@.subrange(close as int, close + 2)[0] == bytes@[close as int]);
        encode_utf8_valid_utf8(line@);
        lemma_ascii_byte_is_character(bytes@, open as int);
        lemma_ascii_byte_is_character(bytes@, close as int);
    }
    match cut(line, open + 1, close) {
        Some(name) => {
            proof {
                encode_utf8_decode_utf8(name@);
            }
            Ok(name.to_owned())
        },
        None => {
            // Both quotes are characters of their own, so the cut exists.
            proof {
                assert(false);
            }
            Err(LineError::MissingName)
        },
    }
}

/// The event that a line of the given kind reports about `id` and `name`.
pub open spec fn reported(action: Option<ClientAction>, id: u32, name: Seq<char>) -> Option<
    EventView,
> {
    match action {
        Some(ClientAction::Connect) => Some(EventView::Connect { id, name }),
        Some(ClientAction::Disconnect) => Some(EventView::Disconnect { id }),
        None => None,
    }
}

/// The alias held after a line has been read with the given outcome, `before`
/// being the alias held until then: the alias of the line where a connect or
/// disconnect line was read and holds one, else `before`.
pub open spec fn name_read(
    action: Result<Option<ClientAction>, LineError>,
    line: Seq<u8>,
    before: Seq<char>,
) -> Seq<char> {
    match (action, name_of(line)) {
        (Ok(Some(_)), Some(alias)) => alias,
        _ => before,
    }
}

/// Reads what the line reports, and of whom.
///
/// For a connect or disconnect line that can be read, `idx` receives the
/// identity and `name` the alias. A disconnect line need not hold an alias:
/// where it holds none, `name` stays as it is. For any other line, and for a
/// line that cannot be read, neither changes.
pub fn parse_line(line: &str, name: &mut String, idx: &mut u32) -> (action: Result<
    Option<ClientAction>,
    LineError,
>)
    ensures
        match action {
            Ok(found) => event_of(line.spec_bytes()) == Ok::<Option<EventView>, LineError>(
                reported(found, *final(idx), final(name)@),
            ),
            Err(error) => event_of(line.spec_bytes()) == Err::<Option<EventView>, LineError>(
                error,
            ),
        },
        final(name)@ == name_read(action, line.spec_bytes(), old(name)@),
        (action matches Ok(Some(_))) || *final(idx) == *old(idx),
{
    proof {
        lemma_first_occurrence_none(line.spec_bytes(), connect_marker());
        lemma_first_occurrence_none(line.spec_bytes(), disconnect_marker());
    }
    let bytes = line.as_bytes();
    if find_bytes(bytes, "client connected".as_bytes()).is_some() {
        let alias = match get_client_name(line) {
            Ok(alias) => alias,
            Err(error) => {
                return Err(error);
            },
        };
        let id = match get_id(line) {
            Ok(id) => id,
            Err(error) => {
                return Err(error);
            },
        };
        *name = alias;
        *idx = id;
        Ok(Some(ClientAction::Connect))
    } else if find_bytes(bytes, "client disconnected".as_bytes()).is_some() {
        let id = match get_id(line) {
            Ok(id) => id,
            Err(error) => {
                return Err(error);
            },
        };
        match get_client_name(line) {
            Ok(alias) => {
                *name = alias;
            },
            Err(_) => {},
        }
        *idx = id;
        Ok(Some(ClientAction::Disconnect))
    } else {
        Ok(None)
    }
}

/// Decodes the time at the start of the line.
pub fn line_time(line: &str) -> (time: Option<i64>)
    ensures
        time == line_time_of(line.spec_bytes()),
{
    match cut(line, 0, 19) {
        Some(stamp) => {
            proof {
                encode_utf8_decode_utf8(stamp@);
            }
            decode_timestamp(stamp, "%Y-%m-%d %H:%M:%S")
        },
        None => None,
    }
}

/// How far a replay has come: the ledger it has reached, and the error that
/// stopped it, if one did.
pub struct Progress {
    pub ledger: Map<u32, ClientView>,
    pub error: Option<LineError>,
}

/// The progress that a ledger and the outcome of a step amount to.
pub open spec fn reached(ledger: Map<u32, ClientView>, outcome: Result<(), LineError>) -> Progress {
    Progress {
        ledger,
        error: match outcome {
            Ok(_) => None,
            Err(error) => Some(error),
        },
    }
}

/// The ledger after an event at `time`. An event that a record cannot count
/// leaves the ledger as it is and stops the replay.
pub open spec fn event_applied(
    ledger: Map<u32, ClientView>,
    event: EventView,
    time: int,
) -> Progress {
    match event {
        EventView::Connect { id, name } => if connect_fits(ledger, id) {
            Progress { ledger: connected(ledger, id, name, time), error: None }
        } else {
            Progress { ledger, error: Some(LineError::Overflow) }
        },
        EventView::Disconnect { id } => if disconnect_fits(ledger, id, time) {
            Progress { ledger: disconnected(ledger, id, time), error: None }
        } else {
            Progress { ledger, error: Some(LineError::Overflow) }
        },
    }
}

/// The ledger after a line whose leading time decoded to `time`.
///
/// A line without a time is passed over, whatever else it holds. So is a
/// line that reports no event. A line that reports one and cannot be read
/// stops the replay.
pub open spec fn line_applied(
    ledger: Map<u32, ClientView>,
    time: Option<i64>,
    line: Seq<u8>,
) -> Progress {
    match time {
        Some(time) => match event_of(line) {
            Ok(Some(event)) => event_applied(ledger, event, time as int),
            Ok(None) => Progress { ledger, error: None },
            Err(error) => Progress { ledger, error: Some(error) },
        },
        None => Progress { ledger, error: None },
    }
}

/// The ledger after the lines of one file, taken in order up to the first
/// that stops the replay.
pub open spec fn lines_applied(ledger: Map<u32, ClientView>, lines: Seq<Seq<u8>>) -> Progress
    decreases lines.len(),
{
    if lines.len() == 0 {
        Progress { ledger, error: None }
    } else {
        let before = lines_applied(ledger, lines.drop_last());
        if before.error is Some {
            before
        } else {
            line_applied(before.ledger, line_time_of(lines.last()), lines.last())
        }
    }
}

/// The lines of a file as byte sequences.
pub open spec fn line_bytes(lines: Seq<String>) -> Seq<Seq<u8>> {
    lines.map_values(|line: String| encode_utf8(line@))
}

/// Applies to the ledger what `line` reports, `time` being what the start of
/// the line decoded to.
pub fn apply_line(time: Option<i64>, line: &str, db: &mut ClientDatabase) -> (outcome: Result<
    (),
    LineError,
>)
    ensures
        reached(final(db)@, outcome) == line_applied(old(db)@, time, line.spec_bytes()),
{
    let time = match time {
        Some(time) => time,
        None => {
            return Ok(());
        },
    };
    let mut name = String::new();
    let mut id: u32 = 0;
    match parse_line(line, &mut name, &mut id) {
        Ok(Some(ClientAction::Connect)) => {
            if !db.can_connect(id) {
                return Err(LineError::Overflow);
            }
            db.log_connect(id, name.as_str(), time);
            Ok(())
        },
        Ok(Some(ClientAction::Disconnect)) => {
            if !db.can_disconnect(id, time) {
                return Err(LineError::Overflow);
            }
            db.log_disconnect(id, time);
            Ok(())
        },
        Ok(None) => Ok(()),
        Err(error) => Err(error),
    }
}

/// Applies to the ledger what `line` reports.
pub fn process_line(line: &str, db: &mut ClientDatabase) -> (outcome: Result<(), LineError>)
    ensures
        reached(final(db)@, outcome) == line_applied(
            old(db)@,
            line_time_of(line.spec_bytes()),
            line.spec_bytes(),
        ),
{
    let time = line_time(line);
    apply_line(time, line, db)
}

/// Applies the lines of one file to the ledger, in order, and stops at the
/// first line that cannot be read.
pub fn parse_file(lines: &Vec<String>, db: &mut ClientDatabase) -> (outcome: Result<
    (),
    LineError,
>)
    ensures
        reached(final(db)@, outcome) == lines_applied(old(db)@, line_bytes(lines@)),
{
    let ghost all = line_bytes(lines@);
    let mut i: usize = 0;
    while i < lines.len()
        invariant
            i <= lines@.len(),
            all == line_bytes(lines@),
            reached(db@, Ok(())) == lines_applied(old(db)@, all.take(i as int)),
        decreases lines@.len() - i,
    {
        let ghost shown = all.take(i + 1);
        assert(shown.drop_last() =~= all.take(i as int));
        assert(shown.last() == encode_utf8(lines@[i as int]@));
        match process_line(lines[i].as_str(), db) {
            Ok(_) => {},
            Err(error) => {
                proof {
                    lemma_stopped_replay_stays(old(db)@, all, i + 1);
                }
                return Err(error);
            },
        }
        i = i + 1;
    }
    assert(all.take(i as int) =~= all);
    Ok(())
}

/// Once a line has stopped the replay, the lines after it change nothing.
proof fn lemma_stopped_replay_stays(ledger: Map<u32, ClientView>, lines: Seq<Seq<u8>>, upto: int)
    requires
        0 <= upto <= lines.len(),
        lines_applied(ledger, lines.take(upto)).error is Some,
    ensures
        lines_applied(ledger, lines) == lines_applied(ledger, lines.take(upto)),
    decreases lines.len() - upto,
{
    if upto == lines.len() {
        assert(lines.take(upto) =~= lines);
    } else {
        assert(lines.take(upto + 1).drop_last() =~= lines.take(upto));
        lemma_stopped_replay_stays(ledger, lines, upto + 1);
    }
}

/// A disconnect of an identity that the ledger has never seen is absorbed:
/// the ledger stays as it is and the replay goes on.
pub proof fn lemma_unknown_disconnect_is_absorbed(ledger: Map<u32, ClientView>, id: u32, time: int)
    requires
        !ledger.contains_key(id),
    ensures
        event_applied(ledger, EventView::Disconnect { id }, time) == (Progress {
            ledger,
            error: None,
        }),
{
}

/// A line whose start decodes to no time changes nothing and stops nothing,
/// whatever else it holds.
pub proof fn lemma_untimed_line_is_skipped(ledger: Map<u32, ClientView>, line: Seq<u8>)
    ensures
        line_applied(ledger, None, line) == (Progress { ledger, error: None }),
{
}

} // verus!
