//! The tournament: a catalog and a ledger that agree with each other, the
//! resolver that commits a decided match to both, and what is left to play
//! in a round.

use vstd::prelude::*;
use crate::catalog::{Catalog, Item, has_id, ids_valid, live_ids};
use crate::error::EngineError;
use crate::history::{
    admissible, history_ok, ids_of, in_play, lemma_admissible_prefix, lemma_history_chained,
    lemma_history_push, lemma_same_prefix, waiting,
};
use crate::ledger::{
    Ledger, MatchRecord, continues, latest_round, lemma_rounds_ascend, lemma_wins_bounded,
    lost_before, paired_before, round_after, wins_of,
};

verus! {

/// What the presentation layer reports of a pairing that it has shown.
#[derive(Debug, Clone, Copy, PartialEq, Eq, Hash, Structural)]
pub enum Decision {
    /// The first participant was chosen.
    WinnerIsA,
    /// The second participant was chosen.
    WinnerIsB,
    /// The first participant could not be shown.
    AFailedToRender,
    /// The second participant could not be shown.
    BFailedToRender,
    /// Neither participant could be shown.
    BothFailedToRender,
}

/// Two items to be shown against each other, or one item and nobody
/// (`b == 0`) for a bye.
#[derive(Debug, Clone, Copy, PartialEq, Eq, Hash, Structural)]
pub struct Pairing {
    /// The first participant.
    pub a: u64,
    /// The second participant, or zero.
    pub b: u64,
}

/// Whether catalog, ledger and the mark of a finished tournament describe
/// a state that the engine can have reached.
///
/// Every record could be written when it was written, an item is out of
/// play exactly when the ledger shows it losing, no rating exceeds the
/// pairings won, and a tournament is only marked as over when nobody waits
/// for a match and at most one item is in play.
pub open spec fn consistent(items: Seq<Item>, records: Seq<MatchRecord>, over: bool) -> bool {
    &&& ids_valid(items)
    &&& history_ok(ids_of(items), records)
    &&& forall|i: int|
        0 <= i < items.len() ==> (#[trigger] items[i]).eliminated == lost_before(
            records,
            items[i].id,
            records.len() as int,
        )
    &&& forall|i: int|
        0 <= i < items.len() ==> (#[trigger] items[i]).rating <= wins_of(records, items[i].id)
    &&& over ==> settled(ids_of(items), records)
}

/// Whether nobody waits for a match and at most one item is in play.
pub open spec fn settled(ids: Seq<u64>, records: Seq<MatchRecord>) -> bool {
    &&& forall|id: u64| !#[trigger] waiting(ids, records, id, records.len() as int)
    &&& forall|x: u64, y: u64|
        #[trigger] in_play(ids, records, x, records.len() as int) && #[trigger] in_play(
            ids,
            records,
            y,
            records.len() as int,
        ) ==> x == y
}

/// The ids of the items that are in play and not paired in the given round,
/// in catalog order.
pub open spec fn pending_ids(items: Seq<Item>, records: Seq<MatchRecord>, round: u64) -> Seq<u64>
    decreases items.len(),
{
    if items.len() == 0 {
        Seq::empty()
    } else if !items.last().eliminated && !paired_before(
        records,
        items.last().id,
        round,
        records.len() as int,
    ) {
        pending_ids(items.drop_last(), records, round).push(items.last().id)
    } else {
        pending_ids(items.drop_last(), records, round)
    }
}

/// The record that a decision on a pairing leaves in the ledger.
pub open spec fn decided_record(round: u64, pairing: Pairing, decision: Decision) -> MatchRecord {
    MatchRecord {
        round_number: round,
        participant_a: pairing.a,
        participant_b: pairing.b,
        winner: match decision {
            Decision::WinnerIsA | Decision::BFailedToRender => pairing.a,
            Decision::WinnerIsB | Decision::AFailedToRender => pairing.b,
            Decision::BothFailedToRender => 0,
        },
    }
}

/// The item whose rating a decision raises, or zero. Only a choice between
/// two items that were both shown earns a point: a bye and an advance past
/// an item that could not be shown earn none.
pub open spec fn rewarded(pairing: Pairing, decision: Decision) -> u64 {
    match decision {
        Decision::WinnerIsA => if pairing.b != 0 {
            pairing.a
        } else {
            0
        },
        Decision::WinnerIsB => pairing.b,
        _ => 0,
    }
}

/// Whether the decision speaks of the second participant as of an item.
pub open spec fn needs_opponent(decision: Decision) -> bool {
    decision == Decision::WinnerIsB || decision == Decision::BFailedToRender || decision
        == Decision::BothFailedToRender
}

/// An item after a match has been committed: out of play if it lost, one
/// point richer if it is the rewarded item.
pub open spec fn item_after(item: Item, record: MatchRecord, rewarded: u64) -> Item {
    Item {
        rating: if rewarded != 0 && item.id == rewarded {
            (item.rating + 1) as u64
        } else {
            item.rating
        },
        eliminated: item.eliminated || record.loses(item.id),
        ..item
    }
}

/// The catalog after a match has been committed.
pub open spec fn items_after(items: Seq<Item>, record: MatchRecord, rewarded: u64) -> Seq<Item> {
    Seq::new(items.len(), |i: int| item_after(items[i], record, rewarded))
}

/// Why a decision on a pairing cannot be committed, if it cannot.
///
/// `NotFound` when a participant is not in the catalog, or when the
/// decision speaks of an opponent that a bye does not have; `InvalidMatch`
/// when the record could not be written after the ledger as it stands.
pub open spec fn refusal(
    items: Seq<Item>,
    records: Seq<MatchRecord>,
    pairing: Pairing,
    decision: Decision,
) -> Option<EngineError> {
    let record = decided_record(round_after(records, records.len() as int), pairing, decision);
    if !has_id(items, pairing.a) {
        Some(EngineError::NotFound)
    } else if pairing.b != 0 && !has_id(items, pairing.b) {
        Some(EngineError::NotFound)
    } else if pairing.b == 0 && needs_opponent(decision) {
        Some(EngineError::NotFound)
    } else if !admissible(ids_of(items), records.push(record), records.len() as int) {
        Some(EngineError::InvalidMatch)
    } else {
        None
    }
}

/// An id is among `ids_of(items)` exactly when an item carries it.
pub proof fn lemma_ids_contain(items: Seq<Item>, id: u64)
    ensures
        ids_of(items).contains(id) == has_id(items, id),
{
    if ids_of(items).contains(id) {
        let i = choose|i: int| 0 <= i < ids_of(items).len() && ids_of(items)[i] == id;
        assert(items[i].id == id);
    }
    if has_id(items, id) {
        let i = choose|i: int| 0 <= i < items.len() && (#[trigger] items[i]).id == id;
        assert(ids_of(items)[i] == id);
    }
}

/// The pending ids are the ids of the items that are in play and not
/// paired in the round, each once.
pub proof fn lemma_pending_ids(items: Seq<Item>, records: Seq<MatchRecord>, round: u64)
    requires
        ids_valid(items),
    ensures
        pending_ids(items, records, round).no_duplicates(),
        forall|id: u64|
            pending_ids(items, records, round).contains(id) <==> exists|i: int|
                0 <= i < items.len() && (#[trigger] items[i]).id == id && !items[i].eliminated
                    && !paired_before(records, id, round, records.len() as int),
    decreases items.len(),
{
    let all = pending_ids(items, records, round);
    if items.len() > 0 {
        let front = items.drop_last();
        let rest = pending_ids(front, records, round);
        let last = items.last();
        lemma_pending_ids(front, records, round);
        let taken = !last.eliminated && !paired_before(
            records,
            last.id,
            round,
            records.len() as int,
        );
        assert forall|id: u64| all.contains(id) <==> exists|i: int|
            0 <= i < items.len() && (#[trigger] items[i]).id == id && !items[i].eliminated
                && !paired_before(records, id, round, records.len() as int) by {
            if all.contains(id) {
                let k = choose|k: int| 0 <= k < all.len() && all[k] == id;
                if taken && k == all.len() - 1 {
                    assert(items[items.len() - 1].id == id);
                } else {
                    assert(rest[k] == id);
                    assert(rest.contains(id));
                    let i = choose|i: int|
                        0 <= i < front.len() && (#[trigger] front[i]).id == id
                            && !front[i].eliminated && !paired_before(
                            records,
                            id,
                            round,
                            records.len() as int,
                        );
                    assert(items[i].id == id);
                }
            }
            if exists|i: int|
                0 <= i < items.len() && (#[trigger] items[i]).id == id && !items[i].eliminated
                    && !paired_before(records, id, round, records.len() as int) {
                let i = choose|i: int|
                    0 <= i < items.len() && (#[trigger] items[i]).id == id && !items[i].eliminated
                        && !paired_before(records, id, round, records.len() as int);
                if i == items.len() - 1 {
                    assert(all[all.len() - 1] == id);
                } else {
                    assert(front[i].id == id);
                    assert(rest.contains(id));
                    let k = choose|k: int| 0 <= k < rest.len() && rest[k] == id;
                    assert(all[k] == id);
                }
            }
        }
        if taken {
            assert(!rest.contains(last.id)) by {
                if rest.contains(last.id) {
                    let i = choose|i: int|
                        0 <= i < front.len() && (#[trigger] front[i]).id == last.id;
                    assert(items[i].id == items[items.len() - 1].id);
                }
            }
            assert forall|p: int, q: int| 0 <= p < all.len() && 0 <= q < all.len() && p != q implies all[p]
                != all[q] by {
                if p == all.len() - 1 {
                    assert(rest[q] == all[q]);
                    assert(rest.contains(all[q]));
                } else if q == all.len() - 1 {
                    assert(rest[p] == all[p]);
                    assert(rest.contains(all[p]));
                } else {
                    assert(rest[p] == all[p] && rest[q] == all[q]);
                }
            }
        }
    }
}

/// No pending id is zero.
pub proof fn lemma_pending_never_zero(items: Seq<Item>, records: Seq<MatchRecord>, round: u64)
    requires
        ids_valid(items),
    ensures
        forall|i: int|
            0 <= i < pending_ids(items, records, round).len() ==> pending_ids(
                items,
                records,
                round,
            )[i] != 0,
{
    let pending = pending_ids(items, records, round);
    lemma_pending_ids(items, records, round);
    assert forall|i: int| 0 <= i < pending.len() implies pending[i] != 0 by {
        assert(pending.contains(pending[i]));
    }
}

/// The live ids are the ids of the items that are not out of play, each
/// once.
pub proof fn lemma_live_ids(items: Seq<Item>)
    requires
        ids_valid(items),
    ensures
        live_ids(items).no_duplicates(),
        forall|id: u64|
            live_ids(items).contains(id) <==> exists|i: int|
                0 <= i < items.len() && (#[trigger] items[i]).id == id && !items[i].eliminated,
    decreases items.len(),
{
    let all = live_ids(items);
    if items.len() > 0 {
        let front = items.drop_last();
        let rest = live_ids(front);
        let last = items.last();
        lemma_live_ids(front);
        assert forall|id: u64| all.contains(id) <==> exists|i: int|
            0 <= i < items.len() && (#[trigger] items[i]).id == id && !items[i].eliminated by {
            if all.contains(id) {
                let k = choose|k: int| 0 <= k < all.len() && all[k] == id;
                if !last.eliminated && k == all.len() - 1 {
                    assert(items[items.len() - 1].id == id);
                } else {
                    assert(rest[k] == id);
                    assert(rest.contains(id));
                    let i = choose|i: int|
                        0 <= i < front.len() && (#[trigger] front[i]).id == id
                            && !front[i].eliminated;
                    assert(items[i].id == id);
                }
            }
            if exists|i: int|
                0 <= i < items.len() && (#[trigger] items[i]).id == id && !items[i].eliminated {
                let i = choose|i: int|
                    0 <= i < items.len() && (#[trigger] items[i]).id == id && !items[i].eliminated;
                if i == items.len() - 1 {
                    assert(all[all.len() - 1] == id);
                } else {
                    assert(front[i].id == id);
                    assert(rest.contains(id));
                    let k = choose|k: int| 0 <= k < rest.len() && rest[k] == id;
                    assert(all[k] == id);
                }
            }
        }
        if !last.eliminated {
            assert(!rest.contains(last.id)) by {
                if rest.contains(last.id) {
                    let i = choose|i: int|
                        0 <= i < front.len() && (#[trigger] front[i]).id == last.id;
                    assert(items[i].id == items[items.len() - 1].id);
                }
            }
            assert forall|p: int, q: int| 0 <= p < all.len() && 0 <= q < all.len() && p != q implies all[p]
                != all[q] by {
                if p == all.len() - 1 {
                    assert(rest[q] == all[q]);
                    assert(rest.contains(all[q]));
                } else if q == all.len() - 1 {
                    assert(rest[p] == all[p]);
                    assert(rest.contains(all[p]));
                } else {
                    assert(rest[p] == all[p] && rest[q] == all[q]);
                }
            }
        }
    }
}

/// Whether nobody waits for a match in the round in progress.
pub open spec fn round_complete(ids: Seq<u64>, records: Seq<MatchRecord>) -> bool {
    forall|id: u64| !#[trigger] waiting(ids, records, id, records.len() as int)
}

/// Whether at least two items are in play.
pub open spec fn contested(ids: Seq<u64>, records: Seq<MatchRecord>) -> bool {
    exists|x: u64, y: u64|
        x != y && #[trigger] in_play(ids, records, x, records.len() as int) && #[trigger] in_play(
            ids,
            records,
            y,
            records.len() as int,
        )
}

/// The marker that opens the given round.
pub open spec fn marker_of(round: int) -> MatchRecord {
    MatchRecord { round_number: round as u64, participant_a: 0, participant_b: 0, winner: 0 }
}

/// The one item in play, if exactly one is.
pub open spec fn sole_survivor(items: Seq<Item>) -> Option<u64> {
    if live_ids(items).len() == 1 {
        Some(live_ids(items)[0])
    } else {
        None
    }
}

/// In a consistent state the items in play are the live items of the
/// catalog: two of them are in play exactly when two are live.
pub proof fn lemma_in_play_is_live(items: Seq<Item>, records: Seq<MatchRecord>, over: bool)
    requires
        consistent(items, records, over),
    ensures
        forall|id: u64|
            in_play(ids_of(items), records, id, records.len() as int) == live_ids(items).contains(
                id,
            ),
        contested(ids_of(items), records) == (live_ids(items).len() >= 2),
{
    let ids = ids_of(items);
    let live = live_ids(items);
    let count = records.len() as int;
    lemma_live_ids(items);
    assert forall|id: u64| in_play(ids, records, id, count) == live.contains(id) by {
        lemma_ids_contain(items, id);
        if in_play(ids, records, id, count) {
            let i = choose|i: int| 0 <= i < items.len() && (#[trigger] items[i]).id == id;
            assert(!items[i].eliminated);
        }
        if live.contains(id) {
            let i = choose|i: int|
                0 <= i < items.len() && (#[trigger] items[i]).id == id && !items[i].eliminated;
            assert(items[i].eliminated == lost_before(records, id, count));
        }
    }
    if contested(ids, records) {
        let (x, y) = choose|x: u64, y: u64|
            x != y && #[trigger] in_play(ids, records, x, count) && #[trigger] in_play(
                ids,
                records,
                y,
                count,
            );
        assert(live.contains(x) && live.contains(y));
        let p = choose|p: int| 0 <= p < live.len() && live[p] == x;
        let q = choose|q: int| 0 <= q < live.len() && live[q] == y;
        assert(p != q);
    }
    if live.len() >= 2 {
        assert(live.contains(live[0]) && live.contains(live[1]));
        assert(in_play(ids, records, live[0], count) && in_play(ids, records, live[1], count));
        assert(live[0] != live[1]);
    }
}

/// In a consistent state the ids pending in the round in progress are the
/// ids that wait for a match.
pub proof fn lemma_pending_is_waiting(items: Seq<Item>, records: Seq<MatchRecord>, over: bool)
    requires
        consistent(items, records, over),
    ensures
        forall|id: u64|
            pending_ids(items, records, round_after(records, records.len() as int)).contains(id)
                == waiting(ids_of(items), records, id, records.len() as int),
        (pending_ids(items, records, round_after(records, records.len() as int)).len() == 0)
            == round_complete(ids_of(items), records),
{
    let ids = ids_of(items);
    let count = records.len() as int;
    let round = round_after(records, count);
    let pending = pending_ids(items, records, round);
    lemma_pending_ids(items, records, round);
    assert forall|id: u64| pending.contains(id) == waiting(ids, records, id, count) by {
        lemma_ids_contain(items, id);
        if pending.contains(id) {
            let i = choose|i: int|
                0 <= i < items.len() && (#[trigger] items[i]).id == id && !items[i].eliminated
                    && !paired_before(records, id, round, count);
            assert(items[i].eliminated == lost_before(records, id, count));
        }
        if waiting(ids, records, id, count) {
            let i = choose|i: int| 0 <= i < items.len() && (#[trigger] items[i]).id == id;
            assert(!items[i].eliminated);
        }
    }
    if pending.len() > 0 {
        assert(pending.contains(pending[0]));
    } else {
        assert forall|id: u64| !#[trigger] waiting(ids, records, id, count) by {
            assert(!pending.contains(id));
        }
    }
}

/// In a round that no record belongs to yet, every live item is pending.
pub proof fn lemma_fresh_round(items: Seq<Item>, records: Seq<MatchRecord>, round: u64)
    requires
        forall|i: int| 0 <= i < records.len() && (#[trigger] records[i]).round_number == round
            ==> records[i].is_marker(),
    ensures
        pending_ids(items, records, round) == live_ids(items),
    decreases items.len(),
{
    if items.len() > 0 {
        lemma_fresh_round(items.drop_last(), records, round);
        let id = items.last().id;
        if paired_before(records, id, round, records.len() as int) {
            let i = choose|i: int|
                0 <= i < records.len() && i < records.len() && (#[trigger] records[i]).round_number
                    == round && records[i].takes_part(id);
            assert(records[i].is_marker());
        }
    }
}

/// What the ledger says of an item once one more record is written.
pub proof fn lemma_record_added(records: Seq<MatchRecord>, record: MatchRecord, id: u64)
    ensures
        lost_before(records.push(record), id, records.len() as int + 1) == (lost_before(
            records,
            id,
            records.len() as int,
        ) || record.loses(id)),
        forall|round: u64|
            paired_before(records.push(record), id, round, records.len() as int + 1) == (paired_before(
                records,
                id,
                round,
                records.len() as int,
            ) || (record.round_number == round && record.takes_part(id))),
        wins_of(records.push(record), id) == wins_of(records, id) + if record.winner == id
            && record.participant_b != 0 {
            1nat
        } else {
            0nat
        },
{
    let longer = records.push(record);
    let count = records.len() as int;
    assert(longer.drop_last() =~= records);
    lemma_same_prefix(longer, records, count);
    if lost_before(longer, id, count + 1) {
        let i = choose|i: int| 0 <= i < count + 1 && i < longer.len() && (#[trigger] longer[i]).loses(id);
        if i < count {
            assert(records[i].loses(id));
        }
    }
    if lost_before(records, id, count) {
        let i = choose|i: int| 0 <= i < count && i < records.len() && (#[trigger] records[i]).loses(id);
        assert(longer[i].loses(id));
    }
    if record.loses(id) {
        assert(longer[count].loses(id));
    }
    assert forall|round: u64|
        paired_before(longer, id, round, count + 1) == (paired_before(records, id, round, count) || (
        record.round_number == round && record.takes_part(id))) by {
        if paired_before(longer, id, round, count + 1) {
            let i = choose|i: int|
                0 <= i < count + 1 && i < longer.len() && (#[trigger] longer[i]).round_number
                    == round && longer[i].takes_part(id);
            if i < count {
                assert(records[i].round_number == round && records[i].takes_part(id));
            }
        }
        if paired_before(records, id, round, count) {
            let i = choose|i: int|
                0 <= i < count && i < records.len() && (#[trigger] records[i]).round_number
                    == round && records[i].takes_part(id);
            assert(longer[i].round_number == round && longer[i].takes_part(id));
        }
        if record.round_number == round && record.takes_part(id) {
            assert(longer[count].round_number == round && longer[count].takes_part(id));
        }
    }
}

/// Committing an admissible match keeps catalog and ledger consistent.
pub proof fn lemma_commit_consistent(
    items: Seq<Item>,
    records: Seq<MatchRecord>,
    record: MatchRecord,
    rewarded: u64,
)
    requires
        consistent(items, records, false),
        admissible(ids_of(items), records.push(record), records.len() as int),
        rewarded != 0 ==> record.winner == rewarded && record.participant_b != 0,
        forall|i: int|
            0 <= i < items.len() && (#[trigger] items[i]).id == rewarded ==> items[i].rating
                < u64::MAX,
    ensures
        consistent(items_after(items, record, rewarded), records.push(record), false),
{
    let after = items_after(items, record, rewarded);
    let longer = records.push(record);
    assert(ids_of(after) =~= ids_of(items));
    lemma_history_push(ids_of(items), records, record);
    assert forall|i: int| 0 <= i < after.len() implies (#[trigger] after[i]).eliminated
        == lost_before(longer, after[i].id, longer.len() as int) && after[i].rating <= wins_of(
        longer,
        after[i].id,
    ) by {
        lemma_record_added(records, record, items[i].id);
        assert(items[i].eliminated == lost_before(records, items[i].id, records.len() as int));
        assert(items[i].rating <= wins_of(records, items[i].id));
    }
}

/// Where a tournament that is taken up again stands.
#[derive(Debug, Clone, PartialEq, Eq)]
pub enum ResumePoint {
    /// The tournament is over.
    Finished,
    /// The tournament is in the given round, and the given items wait for
    /// a match in it.
    InRound { round_number: u64, pending: Vec<u64> },
}

/// A tournament in progress or finished.
#[derive(Debug, Clone, PartialEq, Eq)]
pub struct Tournament {
    catalog: Catalog,
    ledger: Ledger,
}

impl Tournament {
    /// The items, in catalog order.
    pub closed spec fn items(&self) -> Seq<Item> {
        self.catalog@
    }

    /// The records, in the order in which they were written.
    pub closed spec fn records(&self) -> Seq<MatchRecord> {
        self.ledger@
    }

    /// Whether the tournament is marked as over.
    pub closed spec fn over(&self) -> bool {
        self.ledger.finished()
    }

    /// The invariant of a tournament: catalog and ledger are consistent.
    pub open spec fn wf(&self) -> bool {
        consistent(self.items(), self.records(), self.over())
    }

    /// The round in progress.
    pub open spec fn round(&self) -> u64 {
        round_after(self.records(), self.records().len() as int)
    }

    /// The catalog.
    pub fn catalog(&self) -> (catalog: &Catalog)
        ensures
            catalog@ == self.items(),
    {
        &self.catalog
    }

    /// The ledger.
    pub fn ledger(&self) -> (ledger: &Ledger)
        ensures
            ledger@ == self.records(),
            ledger.finished() == self.over(),
    {
        &self.ledger
    }

    /// The number of the round in progress: the highest round number on
    /// record, or one before the first match.
    pub fn current_round(&self) -> (round: u64)
        requires
            self.wf(),
        ensures
            round == self.round(),
            round == latest_round(self.records()),
    {
        proof {
            lemma_history_chained(ids_of(self.items()), self.records());
        }
        self.ledger.latest_round_number()
    }

    /// Whether the item is in play and not yet paired in the round in
    /// progress.
    pub fn is_pending(&self, id: u64) -> (pending: bool)
        requires
            self.wf(),
        ensures
            pending == waiting(
                ids_of(self.items()),
                self.records(),
                id,
                self.records().len() as int,
            ),
    {
        proof {
            lemma_ids_contain(self.items(), id);
        }
        let round = self.current_round();
        match self.catalog.get(id) {
            Some(item) => !item.eliminated && !self.ledger.has_paired(id, round),
            None => false,
        }
    }

    /// The items that are in play and not paired in the given round, in
    /// catalog order.
    pub fn pending(&self, round_number: u64) -> (pending: Vec<u64>)
        ensures
            pending@ == pending_ids(self.items(), self.records(), round_number),
    {
        let mut pending: Vec<u64> = Vec::new();
        let count = self.catalog.len();
        let mut index: usize = 0;
        while index < count
            invariant
                index <= count == self.catalog@.len(),
                pending@ == pending_ids(
                    self.catalog@.take(index as int),
                    self.ledger@,
                    round_number,
                ),
            decreases count - index,
        {
            proof {
                assert(self.catalog@.take(index + 1).drop_last() =~= self.catalog@.take(
                    index as int,
                ));
            }
            let item = self.catalog.item(index);
            if !item.eliminated && !self.ledger.has_paired(item.id, round_number) {
                pending.push(item.id);
            }
            index += 1;
        }
        proof {
            assert(self.catalog@.take(index as int) =~= self.catalog@);
        }
        pending
    }

    /// Whether no item but `except` is in play and not yet paired in the
    /// round in progress.
    pub fn nobody_pending_but(&self, except: u64) -> (nobody: bool)
        requires
            self.wf(),
        ensures
            nobody == forall|id: u64| #[trigger]
                waiting(ids_of(self.items()), self.records(), id, self.records().len() as int)
                    ==> id == except,
    {
        let round = self.current_round();
        let count = self.catalog.len();
        let mut index: usize = 0;
        while index < count
            invariant
                self.wf(),
                index <= count == self.catalog@.len(),
                round == self.round(),
                forall|k: int|
                    0 <= k < index && (#[trigger] self.catalog@[k]).id != except ==> !waiting(
                        ids_of(self.items()),
                        self.records(),
                        self.catalog@[k].id,
                        self.records().len() as int,
                    ),
            decreases count - index,
        {
            let item = self.catalog.item(index);
            if item.id != except && !item.eliminated && !self.ledger.has_paired(item.id, round) {
                proof {
                    lemma_ids_contain(self.items(), item.id);
                    assert(waiting(
                        ids_of(self.items()),
                        self.records(),
                        item.id,
                        self.records().len() as int,
                    ));
                }
                return false;
            }
            index += 1;
        }
        proof {
            assert forall|id: u64| #[trigger]
                waiting(
                    ids_of(self.items()),
                    self.records(),
                    id,
                    self.records().len() as int,
                ) implies id == except by {
                lemma_ids_contain(self.items(), id);
                let k = choose|k: int| 0 <= k < self.items().len() && (#[trigger] self.items()[k]).id == id;
                assert(self.catalog@[k].id == id);
            }
        }
        true
    }

    /// Commits a decision on a pairing: the loser leaves play, the winner
    /// of a choice between two shown items earns a point, and the match is
    /// written to the ledger, all of it or nothing.
    ///
    /// With `pairing.b == 0` the pairing is a bye. It is given only to the
    /// one item left waiting, and earns no point.
    pub fn resolve(&mut self, pairing: Pairing, decision: Decision) -> (outcome: Result<
        (),
        EngineError,
    >)
        requires
            old(self).wf(),
        ensures
            final(self).wf(),
            final(self).over() == old(self).over(),
            match outcome {
                Ok(()) => {
                    &&& refusal(old(self).items(), old(self).records(), pairing, decision) is None
                    &&& final(self).records() == old(self).records().push(
                        decided_record(old(self).round(), pairing, decision),
                    )
                    &&& final(self).items() == items_after(
                        old(self).items(),
                        decided_record(old(self).round(), pairing, decision),
                        rewarded(pairing, decision),
                    )
                },
                Err(e) => {
                    &&& refusal(old(self).items(), old(self).records(), pairing, decision) == Some(e)
                    &&& final(self).items() == old(self).items()
                    &&& final(self).records() == old(self).records()
                },
            },
    {
        let round = self.current_round();
        let a = pairing.a;
        let b = pairing.b;
        let ghost ids = ids_of(self.items());
        let ghost before = self.records();
        let ghost count = before.len() as int;
        let ghost record = decided_record(round, pairing, decision);
        proof {
            lemma_ids_contain(self.items(), a);
            lemma_ids_contain(self.items(), b);
            lemma_same_prefix(before.push(record), before, count);
        }
        if self.catalog.position(a).is_none() {
            return Err(EngineError::NotFound);
        }
        if b != 0 && self.catalog.position(b).is_none() {
            return Err(EngineError::NotFound);
        }
        let (winner, a_loses, b_loses, reward) = match decision {
            Decision::WinnerIsA => (a, false, b != 0, if b != 0 { a } else { 0 }),
            Decision::WinnerIsB => (b, true, false, b),
            Decision::AFailedToRender => (b, true, false, 0),
            Decision::BFailedToRender => (a, false, true, 0),
            Decision::BothFailedToRender => (0, true, true, 0),
        };
        let with_opponent = match decision {
            Decision::WinnerIsB | Decision::BFailedToRender | Decision::BothFailedToRender => true,
            _ => false,
        };
        if b == 0 && with_opponent {
            return Err(EngineError::NotFound);
        }
        let fits = a != b && self.is_pending(a) && (if b != 0 {
            self.is_pending(b)
        } else {
            self.nobody_pending_but(a)
        });
        if !fits {
            return Err(EngineError::InvalidMatch);
        }
        let made = MatchRecord { round_number: round, participant_a: a, participant_b: b, winner };
        assert(made == record);
        assert(admissible(ids, before.push(record), count));
        assert(!self.over());
        proof {
            lemma_history_chained(ids, before);
        }
        let appended = self.ledger.append(made);
        assert(appended is Ok);
        let written = self.ledger.len();
        proof {
            assert forall|i: int|
                0 <= i < self.catalog@.len() implies (#[trigger] self.catalog@[i]).rating
                < u64::MAX by {
                lemma_wins_bounded(before, self.catalog@[i].id);
            }
        }
        if a_loses {
            let lost = self.catalog.record_loss(a);
            assert(lost is Ok);
        }
        if b_loses {
            proof {
                let k = choose|k: int|
                    0 <= k < old(self).items().len() && (#[trigger] old(self).items()[k]).id == b;
                assert(self.catalog@[k].id == b);
            }
            let lost = self.catalog.record_loss(b);
            assert(lost is Ok);
        }
        if reward != 0 {
            proof {
                let k = choose|k: int|
                    0 <= k < old(self).items().len() && (#[trigger] old(self).items()[k]).id
                        == reward;
                assert(self.catalog@[k].id == reward);
            }
            let won = self.catalog.record_win(reward);
            assert(won is Ok);
        }
        proof {
            assert(self.catalog@ =~= items_after(old(self).items(), record, reward));
            lemma_commit_consistent(old(self).items(), before, record, reward);
        }
        Ok(())
    }

    /// The one item in play, if exactly one is.
    pub fn champion(&self) -> (champion: Option<u64>)
        ensures
            champion == sole_survivor(self.items()),
    {
        let live = self.catalog.list_live_items();
        if live.len() == 1 {
            Some(live[0])
        } else {
            None
        }
    }

    /// Closes the round in progress and opens the next one, when nobody is
    /// left waiting in it and at least two items are in play. Returns the
    /// number of the round so opened.
    pub fn close_round(&mut self) -> (outcome: Result<u64, EngineError>)
        requires
            old(self).wf(),
        ensures
            final(self).wf(),
            final(self).items() == old(self).items(),
            final(self).over() == old(self).over(),
            match outcome {
                Ok(round) => {
                    &&& !old(self).over()
                    &&& round_complete(ids_of(old(self).items()), old(self).records())
                    &&& contested(ids_of(old(self).items()), old(self).records())
                    &&& round == old(self).round() + 1
                    &&& final(self).round() == round
                    &&& final(self).records() == old(self).records().push(marker_of(round as int))
                    &&& pending_ids(final(self).items(), final(self).records(), round) == live_ids(
                        old(self).items(),
                    )
                },
                Err(e) => {
                    &&& e == EngineError::InvalidMatch
                    &&& final(self).records() == old(self).records()
                    &&& old(self).over() || !round_complete(
                        ids_of(old(self).items()),
                        old(self).records(),
                    ) || !contested(ids_of(old(self).items()), old(self).records())
                },
            },
    {
        let ghost ids = ids_of(self.items());
        let ghost before = self.records();
        let ghost count = before.len() as int;
        proof {
            lemma_in_play_is_live(self.items(), before, self.over());
            lemma_history_chained(ids, before);
            assert(!ids.contains(0)) by {
                lemma_ids_contain(self.items(), 0);
            }
        }
        if self.ledger.is_tournament_finished() {
            return Err(EngineError::InvalidMatch);
        }
        if !self.nobody_pending_but(0) {
            return Err(EngineError::InvalidMatch);
        }
        let live = self.catalog.list_live_items();
        if live.len() < 2 {
            return Err(EngineError::InvalidMatch);
        }
        proof {
            // A live item that waits for nothing is paired, so the round has a record.
            assert(live@.contains(live@[0]));
            assert(in_play(ids, before, live@[0], count));
            assert(!waiting(ids, before, live@[0], count));
            assert(count > 0);
        }
        let opened = self.ledger.open_next_round();
        assert(opened is Ok);
        let round = opened.unwrap();
        proof {
            let marker = marker_of(round as int);
            let after = before.push(marker);
            lemma_same_prefix(after, before, count);
            assert(admissible(ids, after, count));
            lemma_history_push(ids, before, marker);
            assert forall|i: int| 0 <= i < self.items().len() implies (#[trigger] self.items()[i]).eliminated
                == lost_before(after, self.items()[i].id, after.len() as int) && self.items()[i].rating
                <= wins_of(after, self.items()[i].id) by {
                lemma_record_added(before, marker, self.items()[i].id);
            }
            assert forall|i: int| 0 <= i < after.len() && (#[trigger] after[i]).round_number
                == round implies after[i].is_marker() by {
                if i < count {
                    lemma_rounds_ascend(before, i, count - 1);
                }
            }
            lemma_fresh_round(self.items(), after, round);
        }
        Ok(round)
    }

    /// Marks the tournament as over, when nobody is left waiting and at
    /// most one item is in play. Says whether the tournament is over.
    pub fn conclude(&mut self) -> (over: bool)
        requires
            old(self).wf(),
        ensures
            final(self).wf(),
            final(self).items() == old(self).items(),
            final(self).records() == old(self).records(),
            final(self).over() == over,
            over == (old(self).over() || settled(ids_of(old(self).items()), old(self).records())),
    {
        let ghost ids = ids_of(self.items());
        proof {
            lemma_in_play_is_live(self.items(), self.records(), self.over());
            lemma_live_ids(self.items());
            assert(!ids.contains(0)) by {
                lemma_ids_contain(self.items(), 0);
            }
        }
        if self.ledger.is_tournament_finished() {
            return true;
        }
        if !self.nobody_pending_but(0) {
            return false;
        }
        let live = self.catalog.list_live_items();
        if live.len() >= 2 {
            proof {
                assert(live@.contains(live@[0]) && live@.contains(live@[1]));
            }
            return false;
        }
        proof {
            assert forall|x: u64, y: u64|
                #[trigger] in_play(ids, self.records(), x, self.records().len() as int)
                    && #[trigger] in_play(
                    ids,
                    self.records(),
                    y,
                    self.records().len() as int,
                ) implies x == y by {
                assert(live@.contains(x) && live@.contains(y));
            }
        }
        self.ledger.mark_finished();
        true
    }

    /// Takes up a tournament from a catalog and a ledger as they were
    /// persisted, provided that they are consistent with each other.
    ///
    /// The ledger is played through once more from a catalog in which
    /// every item is in play. Each record must be one that the engine
    /// could have written at that point; after the last one the catalog
    /// must show out of play exactly the items that the ledger shows
    /// losing, no rating may exceed the pairings won, and the mark of a
    /// finished tournament must be justified.
    pub fn resume(catalog: Catalog, ledger: Ledger) -> (outcome: Result<Tournament, EngineError>)
        requires
            catalog.wf(),
            ledger.wf(),
        ensures
            match outcome {
                Ok(tournament) => {
                    &&& consistent(catalog@, ledger@, ledger.finished())
                    &&& tournament.wf()
                    &&& tournament.items() == catalog@
                    &&& tournament.records() == ledger@
                    &&& tournament.over() == ledger.finished()
                },
                Err(e) => e == EngineError::LedgerCorrupt && !consistent(
                    catalog@,
                    ledger@,
                    ledger.finished(),
                ),
            },
    {
        let ghost ids = ids_of(catalog@);
        let ghost records = ledger@;
        let item_count = catalog.len();
        let mut blank: Vec<Item> = Vec::new();
        let mut position: usize = 0;
        while position < item_count
            invariant
                position <= item_count == catalog@.len(),
                blank@.len() == position,
                forall|i: int|
                    0 <= i < position ==> (#[trigger] blank@[i]).id == catalog@[i].id
                        && !blank@[i].eliminated && blank@[i].rating == 0,
            decreases item_count - position,
        {
            blank.push(
                Item {
                    id: catalog.item(position).id,
                    reference: String::new(),
                    rating: 0,
                    eliminated: false,
                },
            );
            position += 1;
        }
        proof {
            assert(ids_of(blank@) =~= ids);
            assert(ids_valid(blank@));
        }
        let mut replay = match Catalog::from_items(blank) {
            Ok(fresh) => Tournament { catalog: fresh, ledger: Ledger::new() },
            Err(_) => {
                return Err(EngineError::LedgerCorrupt);
            },
        };
        proof {
            assert(records.take(0) =~= replay.records());
        }
        let record_count = ledger.len();
        let mut index: usize = 0;
        while index < record_count
            invariant
                index <= record_count == records.len(),
                records == ledger@,
                ledger.wf(),
                replay.wf(),
                !replay.over(),
                replay.records() == records.take(index as int),
                ids_of(replay.items()) == ids,
                ids == ids_of(catalog@),
            decreases record_count - index,
        {
            let record = ledger.record(index);
            let ghost played = replay.records();
            proof {
                assert(continues(records, index as int));
                lemma_same_prefix(records, played, index as int);
                lemma_admissible_prefix(ids, records, played.push(record), index as int);
            }
            if record.names_nobody() {
                match replay.close_round() {
                    Ok(_) => {},
                    Err(_) => {
                        proof {
                            assert(!admissible(ids, records, index as int));
                        }
                        return Err(EngineError::LedgerCorrupt);
                    },
                }
            } else {
                let pairing = Pairing { a: record.participant_a, b: record.participant_b };
                let decision = if record.winner == 0 {
                    if record.participant_b == 0 {
                        Decision::AFailedToRender
                    } else {
                        Decision::BothFailedToRender
                    }
                } else if record.winner == record.participant_a {
                    if record.participant_b == 0 {
                        Decision::WinnerIsA
                    } else {
                        Decision::BFailedToRender
                    }
                } else {
                    Decision::AFailedToRender
                };
                proof {
                    assert(decided_record(replay.round(), pairing, decision) == record);
                    assert(rewarded(pairing, decision) == 0);
                    lemma_ids_contain(replay.items(), record.participant_a);
                    lemma_ids_contain(replay.items(), record.participant_b);
                }
                match replay.resolve(pairing, decision) {
                    Ok(()) => {
                        proof {
                            assert(ids_of(replay.items()) =~= ids);
                        }
                    },
                    Err(_) => {
                        proof {
                            assert(!admissible(ids, records, index as int));
                        }
                        return Err(EngineError::LedgerCorrupt);
                    },
                }
            }
            proof {
                assert(replay.records() =~= records.take(index + 1));
            }
            index += 1;
        }
        proof {
            assert(records.take(index as int) =~= records);
        }
        position = 0;
        while position < item_count
            invariant
                position <= item_count == catalog@.len(),
                replay.wf(),
                replay.records() == records,
                records == ledger@,
                ids_of(replay.items()) == ids,
                ids == ids_of(catalog@),
                forall|i: int|
                    0 <= i < position ==> (#[trigger] catalog@[i]).eliminated == lost_before(
                        records,
                        catalog@[i].id,
                        records.len() as int,
                    ) && catalog@[i].rating <= wins_of(records, catalog@[i].id),
            decreases item_count - position,
        {
            let item = catalog.item(position);
            proof {
                assert(ids_of(replay.items()).len() == ids.len());
                assert(ids_of(replay.items())[position as int] == ids[position as int]);
                assert(replay.items()[position as int].id == item.id);
            }
            let replayed = replay.catalog.item(position);
            proof {
                assert(replayed.eliminated == lost_before(
                    records,
                    replay.items()[position as int].id,
                    records.len() as int,
                ));
            }
            if item.eliminated != replayed.eliminated {
                return Err(EngineError::LedgerCorrupt);
            }
            let wins = ledger.wins(item.id);
            if item.rating > wins as u64 {
                return Err(EngineError::LedgerCorrupt);
            }
            position += 1;
        }
        if ledger.is_tournament_finished() {
            if !replay.conclude() {
                return Err(EngineError::LedgerCorrupt);
            }
        }
        Ok(Tournament { catalog, ledger })
    }

    /// Where a tournament that is taken up again stands: over, or in the
    /// round in progress with the items that still wait for a match in it.
    pub fn resume_point(&self) -> (point: ResumePoint)
        requires
            self.wf(),
        ensures
            match point {
                ResumePoint::Finished => self.over(),
                ResumePoint::InRound { round_number, pending } => {
                    &&& !self.over()
                    &&& round_number == self.round()
                    &&& pending@ == pending_ids(self.items(), self.records(), round_number)
                },
            },
    {
        if self.ledger.is_tournament_finished() {
            ResumePoint::Finished
        } else {
            let round_number = self.current_round();
            ResumePoint::InRound { round_number, pending: self.pending(round_number) }
        }
    }

    /// Gives the catalog and the ledger back, to be persisted.
    pub fn into_parts(self) -> (parts: (Catalog, Ledger))
        ensures
            parts.0@ == self.items(),
            parts.1@ == self.records(),
            parts.1.finished() == self.over(),
    {
        (self.catalog, self.ledger)
    }

    /// Begins a tournament on the given catalog, with an empty ledger. The
    /// catalog must be fresh: every item in play, every rating zero.
    pub fn new(catalog: Catalog) -> (outcome: Result<Tournament, EngineError>)
        requires
            catalog.wf(),
        ensures
            match outcome {
                Ok(tournament) => {
                    &&& consistent(catalog@, Seq::empty(), false)
                    &&& tournament.wf()
                    &&& tournament.items() == catalog@
                    &&& tournament.records() == Seq::<MatchRecord>::empty()
                    &&& !tournament.over()
                },
                Err(e) => e == EngineError::LedgerCorrupt && !consistent(
                    catalog@,
                    Seq::empty(),
                    false,
                ),
            },
    {
        Tournament::resume(catalog, Ledger::new())
    }
}

} // verus!
