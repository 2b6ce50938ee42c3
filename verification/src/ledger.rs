//! The client ledger: one record per client identity, updated by connect
//! and disconnect events and reset at every log rotation.

use std::collections::HashMap;
use vstd::prelude::*;

verus! {

broadcast use vstd::std_specs::hash::group_hash_axioms;

/// What the ledger keeps about one client identity.
#[derive(Clone, Debug)]
pub struct Client {
    /// The alias under which the client opened its latest primary session.
    pub name: String,
    /// Start of the session that is being timed, or 0 when none is.
    pub last_time_connected: i64,
    /// Seconds credited so far.
    pub total_time_connected: i64,
    /// Connections that are open under this identity right now.
    pub num_conn: u32,
}

/// A client record as a mathematical value.
pub struct ClientView {
    pub name: Seq<char>,
    pub last_time_connected: int,
    pub total_time_connected: int,
    pub num_conn: nat,
}

impl View for Client {
    type V = ClientView;

    open spec fn view(&self) -> ClientView {
        ClientView {
            name: self.name@,
            last_time_connected: self.last_time_connected as int,
            total_time_connected: self.total_time_connected as int,
            num_conn: self.num_conn as nat,
        }
    }
}

/// A record with no open connection times no session.
pub open spec fn record_settled(record: ClientView) -> bool {
    record.num_conn == 0 ==> record.last_time_connected == 0
}

/// Every record of the ledger is settled.
pub open spec fn ledger_settled(ledger: Map<u32, ClientView>) -> bool {
    forall|id: u32| #[trigger] ledger.contains_key(id) ==> record_settled(ledger[id])
}

/// The record of an identity after one more connection has been opened under
/// it. `prior` is its record before, if it had one.
///
/// The first connection starts the timed session and sets the alias. A
/// further one, opened while another is still open, only counts.
pub open spec fn record_connected(
    prior: Option<ClientView>,
    name: Seq<char>,
    time: int,
) -> ClientView {
    match prior {
        Some(record) => if record.num_conn >= 1 {
            ClientView {
                name: record.name,
                last_time_connected: record.last_time_connected,
                total_time_connected: record.total_time_connected,
                num_conn: record.num_conn + 1,
            }
        } else {
            ClientView {
                name,
                last_time_connected: time,
                total_time_connected: record.total_time_connected,
                num_conn: 1,
            }
        },
        None => ClientView {
            name,
            last_time_connected: time,
            total_time_connected: 0,
            num_conn: 1,
        },
    }
}

/// The record after one of its connections has been closed at `time`.
///
/// Closing the last open connection credits the time since the session
/// started, unless no start is on record. A record without open connections
/// stays as it is.
pub open spec fn record_disconnected(record: ClientView, time: int) -> ClientView {
    if record.num_conn == 0 {
        record
    } else if record.num_conn == 1 && record.last_time_connected != 0 {
        ClientView {
            name: record.name,
            last_time_connected: 0,
            total_time_connected: record.total_time_connected + (time
                - record.last_time_connected),
            num_conn: 0,
        }
    } else {
        ClientView {
            name: record.name,
            last_time_connected: record.last_time_connected,
            total_time_connected: record.total_time_connected,
            num_conn: (record.num_conn - 1) as nat,
        }
    }
}

/// The record after a log rotation: nothing is open any more and the session
/// that was being timed is dropped without credit.
pub open spec fn record_cleared(record: ClientView) -> ClientView {
    ClientView {
        name: record.name,
        last_time_connected: 0,
        total_time_connected: record.total_time_connected,
        num_conn: 0,
    }
}

/// The record that `ledger` holds for `id`, if any.
pub open spec fn record_of(ledger: Map<u32, ClientView>, id: u32) -> Option<ClientView> {
    if ledger.contains_key(id) {
        Some(ledger[id])
    } else {
        None
    }
}

/// The ledger after a connect event.
pub open spec fn connected(
    ledger: Map<u32, ClientView>,
    id: u32,
    name: Seq<char>,
    time: int,
) -> Map<u32, ClientView> {
    ledger.insert(id, record_connected(record_of(ledger, id), name, time))
}

/// The ledger after a disconnect event. An identity that the ledger has never
/// seen stays unseen.
pub open spec fn disconnected(ledger: Map<u32, ClientView>, id: u32, time: int) -> Map<
    u32,
    ClientView,
> {
    if ledger.contains_key(id) {
        ledger.insert(id, record_disconnected(ledger[id], time))
    } else {
        ledger
    }
}

/// The ledger after a log rotation.
pub open spec fn cleared(ledger: Map<u32, ClientView>) -> Map<u32, ClientView> {
    ledger.map_values(|record: ClientView| record_cleared(record))
}

/// Whether every total of the ledger fits the 64-bit field of a record. The
/// ledger that a `ClientDatabase` holds always does.
pub open spec fn ledger_fits(ledger: Map<u32, ClientView>) -> bool {
    forall|id: u32| #[trigger]
        ledger.contains_key(id) ==> i64::MIN <= ledger[id].total_time_connected <= i64::MAX
}

/// Whether the connection count of `id` has room for one more.
pub open spec fn connect_fits(ledger: Map<u32, ClientView>, id: u32) -> bool {
    ledger.contains_key(id) ==> ledger[id].num_conn < u32::MAX
}

/// Whether the total that a disconnect at `time` leaves for `id` fits the
/// record's 64-bit field.
pub open spec fn disconnect_fits(ledger: Map<u32, ClientView>, id: u32, time: int) -> bool {
    ledger.contains_key(id) ==> i64::MIN <= record_disconnected(
        ledger[id],
        time,
    ).total_time_connected <= i64::MAX
}

/// The ledger of one run: client identity to record.
pub struct ClientDatabase {
    map: HashMap<u32, Client>,
}

impl View for ClientDatabase {
    type V = Map<u32, ClientView>;

    closed spec fn view(&self) -> Map<u32, ClientView> {
        self.map@.map_values(|client: Client| client@)
    }
}

impl ClientDatabase {
    /// An empty ledger.
    pub fn new() -> (db: ClientDatabase)
        ensures
            db@ == Map::<u32, ClientView>::empty(),
            ledger_settled(db@),
    {
        let db = ClientDatabase { map: HashMap::new() };
        assert(db@ =~= Map::<u32, ClientView>::empty());
        db
    }

    /// Records that a connection was opened under `id` at `time` with the
    /// alias `name`.
    pub fn log_connect(&mut self, id: u32, name: &str, time: i64)
        requires
            connect_fits(old(self)@, id),
        ensures
            final(self)@ == connected(old(self)@, id, name@, time as int),
            ledger_settled(old(self)@) ==> ledger_settled(final(self)@),
    {
        let ghost before = self@;
        match self.map.remove(&id) {
            Some(mut client) => {
                assert(self@ =~= before.remove(id));
                assert(client@ == before[id]);
                client.num_conn = client.num_conn + 1;
                if client.num_conn == 1 {
                    client.last_time_connected = time;
                    client.name = name.to_owned();
                }
                self.map.insert(id, client);
            },
            None => {
                assert(self@ =~= before);
                self.map.insert(
                    id,
                    Client {
                        name: name.to_owned(),
                        last_time_connected: time,
                        total_time_connected: 0,
                        num_conn: 1,
                    },
                );
            },
        }
        assert(self@ =~= connected(before, id, name@, time as int));
    }

    /// Records that a connection under `id` was closed at `time`.
    pub fn log_disconnect(&mut self, id: u32, time: i64)
        requires
            disconnect_fits(old(self)@, id, time as int),
        ensures
            final(self)@ == disconnected(old(self)@, id, time as int),
            ledger_settled(old(self)@) ==> ledger_settled(final(self)@),
    {
        let ghost before = self@;
        match self.map.remove(&id) {
            Some(mut client) => {
                assert(self@ =~= before.remove(id));
                assert(client@ == before[id]);
                if client.num_conn != 0 {
                    if client.num_conn == 1 && client.last_time_connected != 0 {
                        let total: i128 = client.total_time_connected as i128 + (time as i128
                            - client.last_time_connected as i128);
                        client.total_time_connected = total as i64;
                        client.last_time_connected = 0;
                    }
                    client.num_conn = client.num_conn - 1;
                }
                self.map.insert(id, client);
            },
            None => {
                assert(self@ =~= before);
            },
        }
        assert(self@ =~= disconnected(before, id, time as int));
    }

    /// What a ledger holds fits its records, and it holds finitely many.
    pub proof fn lemma_fits(&self)
        ensures
            ledger_fits(self@),
            self@.dom().finite(),
    {
        assert(self@.dom() =~= self.map@.dom());
    }

    /// The record kept for `id`, if the ledger has seen that identity.
    pub fn client(&self, id: u32) -> (record: Option<&Client>)
        ensures
            match record {
                Some(client) => record_of(self@, id) == Some(client@),
                None => record_of(self@, id) is None,
            },
    {
        self.map.get(&id)
    }

    /// How many identities the ledger has seen.
    pub fn len(&self) -> (count: usize)
        ensures
            count == self@.dom().len(),
    {
        assert(self@.dom() =~= self.map@.dom());
        self.map.len()
    }

    /// Whether `log_connect` may be called for `id`: the connection count of
    /// `id` has room for one more.
    pub fn can_connect(&self, id: u32) -> (fits: bool)
        ensures
            fits == connect_fits(self@, id),
    {
        match self.map.get(&id) {
            Some(client) => client.num_conn < u32::MAX,
            None => true,
        }
    }

    /// Whether `log_disconnect` may be called for `id` and `time`: the total
    /// that it leaves fits the record.
    pub fn can_disconnect(&self, id: u32, time: i64) -> (fits: bool)
        ensures
            fits == disconnect_fits(self@, id, time as int),
    {
        match self.map.get(&id) {
            Some(client) => {
                if client.num_conn == 1 && client.last_time_connected != 0 {
                    let total: i128 = client.total_time_connected as i128 + (time as i128
                        - client.last_time_connected as i128);
                    -0x8000_0000_0000_0000 <= total && total <= 0x7fff_ffff_ffff_ffff
                } else {
                    true
                }
            },
            None => true,
        }
    }

    /// The identities on record, each once, in no particular order.
    pub fn ids(&self) -> (ids: Vec<u32>)
        ensures
            ids@.to_set() == self@.dom(),
            ids@.no_duplicates(),
    {
        let mut ids: Vec<u32> = Vec::new();
        for id in it: self.map.keys()
            invariant
                ids@ =~= it.seq().unref().take(it.index()),
                it.seq().unref().to_set() == self.map@.dom(),
                it.seq().len() == self.map@.dom().len(),
                it.seq().no_duplicates(),
        {
            ids.push(*id);
        }
        proof {
            ids@.unique_seq_to_set();
            vstd::set_lib::lemma_subset_equality(ids@.to_set(), self.map@.dom());
            assert(self@.dom() =~= self.map@.dom());
        }
        ids
    }

    /// Marks a log rotation: every record loses its open connections and the
    /// session it was timing. Totals and aliases stay.
    pub fn clear_clients(&mut self)
        ensures
            final(self)@ == cleared(old(self)@),
            ledger_settled(final(self)@),
    {
        let ghost before = self@;
        let ids = self.ids();
        let mut i: usize = 0;
        while i < ids.len()
            invariant
                i <= ids.len(),
                ids@.to_set() == before.dom(),
                self@.dom() == before.dom(),
                forall|id: u32| #[trigger]
                    before.contains_key(id) ==> self@[id] == if ids@.take(i as int).contains(id) {
                        record_cleared(before[id])
                    } else {
                        before[id]
                    },
            decreases ids.len() - i,
        {
            let id = ids[i];
            let ghost prior = self@;
            assert(ids@.to_set().contains(id));
            match self.map.remove(&id) {
                Some(mut client) => {
                    assert(self@ =~= prior.remove(id));
                    assert(client@ == prior[id]);
                    client.num_conn = 0;
                    client.last_time_connected = 0;
                    self.map.insert(id, client);
                    assert(self@ =~= prior.insert(id, record_cleared(prior[id])));
                },
                None => {
                    assert(self@ =~= prior);
                },
            }
            proof {
                let done = ids@.take(i as int);
                let next = ids@.take(i + 1);
                assert(next =~= done.push(id));
                assert(next[i as int] == id);
                assert forall|other: u32| #[trigger] before.contains_key(other) implies self@[other]
                    == if next.contains(other) {
                    record_cleared(before[other])
                } else {
                    before[other]
                } by {
                    if other != id {
                        if done.contains(other) {
                            let k = choose|k: int| 0 <= k < done.len() && done[k] == other;
                            assert(next[k] == other);
                        }
                    }
                }
            }
            i = i + 1;
        }
        assert(ids@.take(i as int) =~= ids@);
        assert(self@ =~= cleared(before));
    }
}

/// A session that nothing interrupts is credited in full: when a
/// connection is opened at `start` under an identity without open
/// connections and closed at `end`, the identity's total grows by
/// `end - start`. For an identity that the ledger had not seen, the total is
/// `end - start`.
///
/// A start of 0 is how a record says that it times no session, so a session
/// that starts at 0 is credited only if it also ends at 0.
pub proof fn lemma_session_is_credited(
    ledger: Map<u32, ClientView>,
    id: u32,
    name: Seq<char>,
    start: int,
    end: int,
)
    requires
        ledger.contains_key(id) ==> ledger[id].num_conn == 0,
        start != 0 || end == 0,
    ensures
        ({
            let after = disconnected(connected(ledger, id, name, start), id, end);
            let credited = if ledger.contains_key(id) {
                ledger[id].total_time_connected
            } else {
                0
            };
            &&& after.contains_key(id)
            &&& after[id].total_time_connected == credited + (end - start)
            &&& after[id].num_conn == 0
            &&& after[id].last_time_connected == 0
            &&& after[id].name == name
        }),
{
}

/// A connection that is opened while another is open under the same
/// identity leaves the session's start and the alias as they are.
pub proof fn lemma_shadow_connection_only_counts(
    ledger: Map<u32, ClientView>,
    id: u32,
    name: Seq<char>,
    time: int,
)
    requires
        ledger.contains_key(id),
        ledger[id].num_conn >= 1,
    ensures
        ({
            let after = connected(ledger, id, name, time);
            &&& after[id].num_conn == ledger[id].num_conn + 1
            &&& after[id].last_time_connected == ledger[id].last_time_connected
            &&& after[id].total_time_connected == ledger[id].total_time_connected
            &&& after[id].name == ledger[id].name
        }),
{
}

/// A disconnect of an identity that the ledger has never seen changes
/// nothing: no record appears and none changes.
pub proof fn lemma_unknown_disconnect_changes_nothing(
    ledger: Map<u32, ClientView>,
    id: u32,
    time: int,
)
    requires
        !ledger.contains_key(id),
    ensures
        disconnected(ledger, id, time) == ledger,
        disconnect_fits(ledger, id, time),
{
}

/// No event removes a record, and only a connect adds one: that of its own
/// identity.
pub proof fn lemma_records_stay(ledger: Map<u32, ClientView>, id: u32, name: Seq<char>, time: int)
    ensures
        connected(ledger, id, name, time).dom() == ledger.dom().insert(id),
        disconnected(ledger, id, time).dom() == ledger.dom(),
        cleared(ledger).dom() == ledger.dom(),
{
    assert(connected(ledger, id, name, time).dom() =~= ledger.dom().insert(id));
    assert(disconnected(ledger, id, time).dom() =~= ledger.dom());
    assert(cleared(ledger).dom() =~= ledger.dom());
}

/// After a log rotation a disconnect changes nothing: a session that was
/// open at the rotation is never credited.
pub proof fn lemma_disconnect_after_rotation_changes_nothing(
    ledger: Map<u32, ClientView>,
    id: u32,
    time: int,
)
    ensures
        disconnected(cleared(ledger), id, time) == cleared(ledger),
        ledger_fits(ledger) ==> disconnect_fits(cleared(ledger), id, time),
        forall|other: u32| #[trigger]
            ledger.contains_key(other) ==> cleared(ledger)[other].total_time_connected
                == ledger[other].total_time_connected && cleared(ledger)[other].name
                == ledger[other].name,
{
    assert(disconnected(cleared(ledger), id, time) =~= cleared(ledger));
}

/// Every event keeps a settled ledger settled, and a log rotation settles
/// any ledger.
pub proof fn lemma_ledger_stays_settled(
    ledger: Map<u32, ClientView>,
    id: u32,
    name: Seq<char>,
    time: int,
)
    ensures
        ledger_settled(ledger) ==> ledger_settled(connected(ledger, id, name, time)),
        ledger_settled(ledger) ==> ledger_settled(disconnected(ledger, id, time)),
        ledger_settled(cleared(ledger)),
{
}

/// A connect and a log rotation leave every total as it was. A disconnect
/// changes at most the total of its own identity, and does not lower it
/// unless the session is closed before the time at which it started.
pub proof fn lemma_totals_do_not_shrink(
    ledger: Map<u32, ClientView>,
    id: u32,
    name: Seq<char>,
    time: int,
    other: u32,
)
    requires
        ledger.contains_key(other),
    ensures
        connected(ledger, id, name, time)[other].total_time_connected
            == ledger[other].total_time_connected,
        cleared(ledger)[other].total_time_connected == ledger[other].total_time_connected,
        other != id ==> disconnected(ledger, id, time)[other] == ledger[other],
        time >= ledger[other].last_time_connected ==> disconnected(
            ledger,
            id,
            time,
        )[other].total_time_connected >= ledger[other].total_time_connected,
{
}

} // verus!
