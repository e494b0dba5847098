//! What holds of every tournament that the engine can reach.

use vstd::prelude::*;
use crate::catalog::{Item, has_id};
use crate::history::{admissible, ids_of, lemma_history_chained, waiting};
use crate::ledger::{MatchRecord, lemma_rounds_ascend, lost_before, paired_before, round_after};
use crate::scheduler::{Schedule, scheduled};
use crate::tournament::{
    Decision, Pairing, Tournament, consistent, decided_record, items_after, lemma_ids_contain,
    lemma_pending_is_waiting, pending_ids, rewarded,
};

verus! {

/// Whether the ledger holds the marker that closes the given round.
pub open spec fn round_closed(records: Seq<MatchRecord>, round: u64) -> bool {
    exists|m: int|
        0 <= m < records.len() && (#[trigger] records[m]).is_marker() && records[m].round_number
            == round + 1
}

/// Whether the item is in play when the given round begins: no record of
/// an earlier round shows it losing.
pub open spec fn live_at_start(records: Seq<MatchRecord>, id: u64, round: u64) -> bool {
    forall|i: int|
        0 <= i < records.len() && (#[trigger] records[i]).round_number < round ==> !records[i].loses(
            id,
        )
}

/// Whether the record at `index` is a match of the given round in which
/// the item takes part.
pub open spec fn plays_at(records: Seq<MatchRecord>, id: u64, round: u64, index: int) -> bool {
    0 <= index < records.len() && records[index].round_number == round
        && records[index].takes_part(id)
}

/// Whether the decision is a choice of the item between two items shown.
pub open spec fn chosen_over_opponent(pairing: Pairing, decision: Decision, id: u64) -> bool {
    id != 0 && pairing.b != 0 && ((decision == Decision::WinnerIsA && id == pairing.a) || (decision
        == Decision::WinnerIsB && id == pairing.b))
}

/// Elimination is monotonic: an item that is out of play stays out of play
/// in every later state of the same tournament, that is in every
/// consistent state over the same items whose ledger begins with the
/// ledger of the earlier state.
pub proof fn law_elimination_is_monotonic(
    earlier_items: Seq<Item>,
    earlier_records: Seq<MatchRecord>,
    earlier_over: bool,
    later_items: Seq<Item>,
    later_records: Seq<MatchRecord>,
    later_over: bool,
    position: int,
)
    requires
        consistent(earlier_items, earlier_records, earlier_over),
        consistent(later_items, later_records, later_over),
        ids_of(earlier_items) == ids_of(later_items),
        earlier_records.len() <= later_records.len(),
        later_records.take(earlier_records.len() as int) == earlier_records,
        0 <= position < earlier_items.len(),
        earlier_items[position].eliminated,
    ensures
        later_items[position].eliminated,
{
    let id = earlier_items[position].id;
    assert(ids_of(earlier_items).len() == earlier_items.len());
    assert(ids_of(later_items).len() == later_items.len());
    assert(ids_of(earlier_items)[position] == id);
    assert(ids_of(later_items)[position] == later_items[position].id);
    assert(lost_before(earlier_records, id, earlier_records.len() as int));
    let i = choose|i: int|
        0 <= i < earlier_records.len() && i < earlier_records.len() && (
        #[trigger] earlier_records[i]).loses(id);
    assert(later_records.take(earlier_records.len() as int)[i] == later_records[i]);
    assert(later_records[i].loses(id));
    assert(lost_before(later_records, id, later_records.len() as int));
}

/// A committed match never lowers a rating. It raises the rating of an
/// item by exactly one when the item was chosen over an opponent that was
/// shown too, and leaves it as it is otherwise: after a bye, after an
/// advance past an item that could not be shown, and for every item that
/// did not win.
pub proof fn law_rating_moves_by_wins(
    items: Seq<Item>,
    round: u64,
    pairing: Pairing,
    decision: Decision,
    position: int,
)
    requires
        0 <= position < items.len(),
        items[position].rating < u64::MAX,
    ensures
        ({
            let after = items_after(
                items,
                decided_record(round, pairing, decision),
                rewarded(pairing, decision),
            );
            &&& after.len() == items.len()
            &&& after[position].id == items[position].id
            &&& after[position].rating >= items[position].rating
            &&& after[position].rating == items[position].rating + if chosen_over_opponent(
                pairing,
                decision,
                items[position].id,
            ) {
                1int
            } else {
                0int
            }
        }),
{
}

/// Round completeness: once a round is closed, every item that was in play
/// when the round began takes part in exactly one match of that round.
pub proof fn law_round_completeness(
    items: Seq<Item>,
    records: Seq<MatchRecord>,
    over: bool,
    round: u64,
    id: u64,
)
    requires
        consistent(items, records, over),
        round_closed(records, round),
        has_id(items, id),
        live_at_start(records, id, round),
    ensures
        exists|j: int|
            #[trigger] plays_at(records, id, round, j) && forall|k: int|
                plays_at(records, id, round, k) ==> k == j,
{
    let ids = ids_of(items);
    lemma_ids_contain(items, id);
    lemma_history_chained(ids, records);
    let m = choose|m: int|
        0 <= m < records.len() && (#[trigger] records[m]).is_marker() && records[m].round_number
            == round + 1;
    assert(admissible(ids, records, m));
    assert(!waiting(ids, records, id, m));
    assert(round_after(records, m) == round);
    let j = if paired_before(records, id, round, m) {
        choose|j: int|
            0 <= j < m && j < records.len() && (#[trigger] records[j]).round_number == round
                && records[j].takes_part(id)
    } else {
        let i = choose|i: int| 0 <= i < m && i < records.len() && (#[trigger] records[i]).loses(id);
        lemma_rounds_ascend(records, i, m - 1);
        i
    };
    assert(plays_at(records, id, round, j));
    assert forall|k: int| plays_at(records, id, round, k) implies k == j by {
        if k != j {
            let (first, second) = if j < k {
                (j, k)
            } else {
                (k, j)
            };
            assert(admissible(ids, records, second));
            assert(!records[second].is_marker());
            assert(waiting(ids, records, id, second));
            assert(records[first].round_number == round_after(records, second));
            assert(paired_before(records, id, round_after(records, second), second));
        }
    }
}

/// What is pending in a round depends on catalog and ledger alone: asked
/// twice with no change between, the answer is the same.
pub proof fn law_pending_is_repeatable(
    items: Seq<Item>,
    records: Seq<MatchRecord>,
    round: u64,
    first: Seq<u64>,
    second: Seq<u64>,
)
    requires
        first == pending_ids(items, records, round),
        second == pending_ids(items, records, round),
    ensures
        first == second,
{
}

/// Scheduling is repeatable: asked again with the same seed and nothing
/// resolved in between, the scheduler changes nothing more and reports the
/// same: the same end and champion, or the same round and pairings.
pub proof fn law_schedule_is_repeatable(
    before: Tournament,
    between: Tournament,
    after: Tournament,
    first: Schedule,
    second: Schedule,
    seed: u64,
)
    requires
        between.wf(),
        scheduled(before, between, first, seed),
        scheduled(between, after, second, seed),
    ensures
        after.items() == between.items(),
        after.records() == between.records(),
        after.over() == between.over(),
        match (first, second) {
            (Schedule::Finished { champion: one }, Schedule::Finished { champion: other }) => one
                == other,
            (
                Schedule::Round { round_number: one, pairings: these },
                Schedule::Round { round_number: other, pairings: those },
            ) => one == other && these@ == those@,
            _ => false,
        },
{
    lemma_pending_is_waiting(between.items(), between.records(), between.over());
}

} // verus!
