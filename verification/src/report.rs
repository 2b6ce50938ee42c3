//! The report of a run: every client with its total, longest total first.

use crate::ledger::{ClientDatabase, ClientView};
use crate::order::{
    comes_before, is_ascending_order, lemma_order_names_each, positions, sort_order,
};
use crate::text::{decimal_text, format_i64};
use vstd::prelude::*;
use vstd::string::*;

verus! {

/// One line of the report.
#[derive(Clone, Debug)]
pub struct ClientTime {
    /// The client's identity.
    pub id: u32,
    /// The client's latest alias.
    pub name: String,
    /// The seconds credited to the client.
    pub total_time_connected: i64,
}

/// A line of the report as a mathematical value.
pub struct ClientTimeView {
    pub id: u32,
    pub name: Seq<char>,
    pub total_time_connected: int,
}

impl View for ClientTime {
    type V = ClientTimeView;

    open spec fn view(&self) -> ClientTimeView {
        ClientTimeView {
            id: self.id,
            name: self.name@,
            total_time_connected: self.total_time_connected as int,
        }
    }
}

/// The views of `lines`, position by position.
pub open spec fn line_views(lines: Seq<ClientTime>) -> Seq<ClientTimeView> {
    lines.map_values(|line: ClientTime| line@)
}

/// Whether `line` reports what `ledger` holds about the line's client.
pub open spec fn is_line_of(ledger: Map<u32, ClientView>, line: ClientTimeView) -> bool {
    &&& ledger.contains_key(line.id)
    &&& line.name == ledger[line.id].name
    &&& line.total_time_connected == ledger[line.id].total_time_connected
}

/// Whether `first` stands above `second` in the report: its total is larger,
/// or the totals are equal and its identity is smaller.
pub open spec fn ranks_above(first: ClientTimeView, second: ClientTimeView) -> bool {
    first.total_time_connected > second.total_time_connected || (first.total_time_connected
        == second.total_time_connected && first.id < second.id)
}

/// Whether `lines` is the report of `ledger`: one line for every client, none
/// for anyone else, and each line above all that follow it.
pub open spec fn is_ranking(ledger: Map<u32, ClientView>, lines: Seq<ClientTimeView>) -> bool {
    &&& forall|i: int| 0 <= i < lines.len() ==> is_line_of(ledger, #[trigger] lines[i])
    &&& forall|id: u32| #[trigger]
        ledger.contains_key(id) ==> exists|i: int| 0 <= i < lines.len() && (#[trigger] lines[i]).id == id
    &&& forall|i: int, j: int|
        0 <= i < j < lines.len() ==> ranks_above(#[trigger] lines[i], #[trigger] lines[j])
}

/// A ledger has at most one report.
pub proof fn lemma_ranking_is_unique(
    ledger: Map<u32, ClientView>,
    one: Seq<ClientTimeView>,
    other: Seq<ClientTimeView>,
)
    requires
        is_ranking(ledger, one),
        is_ranking(ledger, other),
    ensures
        one == other,
{
    if one.len() <= other.len() {
        lemma_rankings_agree(ledger, one, other, one.len() as int);
        lemma_ranking_is_no_longer(ledger, one, other);
    } else {
        lemma_rankings_agree(ledger, other, one, other.len() as int);
        lemma_ranking_is_no_longer(ledger, other, one);
    }
    assert(one =~= other);
}

/// Two reports of a ledger agree on their first `upto` lines.
proof fn lemma_rankings_agree(
    ledger: Map<u32, ClientView>,
    one: Seq<ClientTimeView>,
    other: Seq<ClientTimeView>,
    upto: int,
)
    requires
        is_ranking(ledger, one),
        is_ranking(ledger, other),
        0 <= upto <= one.len(),
        0 <= upto <= other.len(),
    ensures
        forall|i: int| 0 <= i < upto ==> one[i] == other[i],
    decreases upto,
{
    if upto > 0 {
        lemma_rankings_agree(ledger, one, other, upto - 1);
        let at = upto - 1;
        let mine = one[at];
        let yours = other[at];
        assert(is_line_of(ledger, mine) && is_line_of(ledger, yours));
        if mine.id != yours.id {
            // Each of the two lines stands further down in the other report,
            // so each would stand above the other.
            let i = choose|i: int| 0 <= i < other.len() && (#[trigger] other[i]).id == mine.id;
            let j = choose|j: int| 0 <= j < one.len() && (#[trigger] one[j]).id == yours.id;
            assert(is_line_of(ledger, other[i]) && is_line_of(ledger, one[j]));
            if i < at {
                assert(one[i] == other[i]);
                assert(ranks_above(one[i], one[at]));
            }
            if j < at {
                assert(one[j] == other[j]);
                assert(ranks_above(other[j], other[at]));
            }
            assert(ranks_above(other[at], other[i]));
            assert(ranks_above(one[at], one[j]));
        }
    }
}

/// Of two reports of a ledger that agree as far as the first reaches, the
/// second reaches no further.
proof fn lemma_ranking_is_no_longer(
    ledger: Map<u32, ClientView>,
    one: Seq<ClientTimeView>,
    other: Seq<ClientTimeView>,
)
    requires
        is_ranking(ledger, one),
        is_ranking(ledger, other),
        one.len() <= other.len(),
        forall|i: int| 0 <= i < one.len() ==> one[i] == other[i],
    ensures
        one.len() == other.len(),
{
    if one.len() < other.len() {
        let extra = other[one.len() as int];
        assert(is_line_of(ledger, extra));
        let i = choose|i: int| 0 <= i < one.len() && (#[trigger] one[i]).id == extra.id;
        assert(one[i] == other[i]);
        assert(ranks_above(other[i], other[one.len() as int]));
    }
}

/// The report of the ledger.
pub fn sort_client_times(db: &ClientDatabase) -> (lines: Vec<ClientTime>)
    ensures
        is_ranking(db@, line_views(lines@)),
        lines@.len() == db@.dom().len(),
        forall|i: int, j: int|
            0 <= i < j < lines@.len() ==> (#[trigger] lines@[i]).total_time_connected
                >= (#[trigger] lines@[j]).total_time_connected,
{
    let ids = db.ids();
    proof {
        ids@.unique_seq_to_set();
    }
    // By identity first: among equal totals the smaller identity stays ahead.
    let mut id_keys: Vec<i64> = Vec::new();
    let mut i: usize = 0;
    while i < ids.len()
        invariant
            i <= ids@.len(),
            id_keys@.len() == i,
            forall|k: int| 0 <= k < i ==> id_keys@[k] == ids@[k],
        decreases ids@.len() - i,
    {
        id_keys.push(ids[i] as i64);
        i = i + 1;
    }
    let by_id = sort_order(&id_keys);
    let ghost id_order = positions(by_id@);
    let mut entries: Vec<ClientTime> = Vec::new();
    let mut total_keys: Vec<i64> = Vec::new();
    let mut k: usize = 0;
    while k < by_id.len()
        invariant
            k <= by_id@.len() == ids@.len() == id_keys@.len(),
            ids@.to_set() == db@.dom(),
            ids@.no_duplicates(),
            forall|n: int| 0 <= n < ids@.len() ==> id_keys@[n] == ids@[n],
            id_order == positions(by_id@),
            is_ascending_order(id_keys@, id_order),
            entries@.len() == k,
            total_keys@.len() == k,
            forall|n: int|
                0 <= n < k ==> {
                    &&& (#[trigger] entries@[n]).id == ids@[id_order[n]]
                    &&& is_line_of(db@, entries@[n]@)
                    &&& total_keys@[n] == -1 - entries@[n].total_time_connected
                },
        decreases by_id@.len() - k,
    {
        let at = by_id[k];
        assert(0 <= id_order[k as int] < id_keys@.len());
        let id = ids[at];
        assert(ids@.to_set().contains(id));
        match db.client(id) {
            Some(client) => {
                entries.push(
                    ClientTime {
                        id,
                        name: client.name.clone(),
                        total_time_connected: client.total_time_connected,
                    },
                );
                total_keys.push(-1 - client.total_time_connected);
            },
            None => {
                // Every identity that `ids` lists has a record.
                proof {
                    assert(false);
                }
            },
        }
        k = k + 1;
    }
    let by_total = sort_order(&total_keys);
    let ghost total_order = positions(by_total@);
    let mut lines: Vec<ClientTime> = Vec::new();
    let mut m: usize = 0;
    while m < by_total.len()
        invariant
            m <= by_total@.len() == entries@.len() == total_keys@.len(),
            total_order == positions(by_total@),
            is_ascending_order(total_keys@, total_order),
            lines@.len() == m,
            forall|n: int| 0 <= n < m ==> (#[trigger] lines@[n])@ == entries@[total_order[n]]@,
        decreases by_total@.len() - m,
    {
        let at = by_total[m];
        assert(0 <= total_order[m as int] < total_keys@.len());
        let entry = &entries[at];
        lines.push(
            ClientTime {
                id: entry.id,
                name: entry.name.clone(),
                total_time_connected: entry.total_time_connected,
            },
        );
        m = m + 1;
    }
    proof {
        let shown = line_views(lines@);
        assert forall|i: int| 0 <= i < shown.len() implies is_line_of(db@, #[trigger] shown[i]) by {
            assert(0 <= total_order[i] < entries@.len());
            assert(lines@[i]@ == entries@[total_order[i]]@);
        }
        assert forall|i: int, j: int| 0 <= i < j < shown.len() implies ranks_above(
            #[trigger] shown[i],
            #[trigger] shown[j],
        ) by {
            let a = total_order[i];
            let b = total_order[j];
            assert(0 <= a < entries@.len() && 0 <= b < entries@.len());
            assert(lines@[i]@ == entries@[a]@ && lines@[j]@ == entries@[b]@);
            assert(comes_before(total_keys@, a, b));
            if a < b {
                assert(0 <= id_order[a] < ids@.len() && 0 <= id_order[b] < ids@.len());
                assert(comes_before(id_keys@, id_order[a], id_order[b]));
            }
        }
        assert forall|id: u32| #[trigger] db@.contains_key(id) implies exists|i: int|
            0 <= i < shown.len() && (#[trigger] shown[i]).id == id by {
            assert(ids@.to_set().contains(id));
            let listed = choose|listed: int| 0 <= listed < ids@.len() && ids@[listed] == id;
            lemma_order_names_each(id_keys@, id_order, listed);
            let entered = choose|entered: int|
                0 <= entered < id_order.len() && id_order[entered] == listed;
            assert(entries@[entered].id == id);
            lemma_order_names_each(total_keys@, total_order, entered);
            let shown_at = choose|shown_at: int|
                0 <= shown_at < total_order.len() && total_order[shown_at] == entered;
            assert(lines@[shown_at]@ == entries@[entered]@);
            assert(shown[shown_at].id == id);
        }
        assert forall|i: int, j: int| 0 <= i < j < lines@.len() implies (
        #[trigger] lines@[i]).total_time_connected >= (#[trigger] lines@[j]).total_time_connected by {
            assert(ranks_above(shown[i], shown[j]));
        }
    }
    lines
}

/// How a line of the report is written: the total in base ten, a tab, the
/// alias.
pub open spec fn line_text(line: ClientTimeView) -> Seq<char> {
    decimal_text(line.total_time_connected) + seq!['\t'] + line.name
}

/// Writes a line of the report.
pub fn format_client_time(line: &ClientTime) -> (text: String)
    ensures
        text@ == line_text(line@),
{
    let mut text = format_i64(line.total_time_connected);
    proof {
        reveal_strlit("\t");
    }
    text.append("\t");
    text.append(line.name.as_str());
    assert(text@ =~= line_text(line@));
    text
}

} // verus!
