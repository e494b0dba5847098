//! What a ledger says about the items of a catalog: who has lost, who is
//! paired in a round, who is still waiting for a match, and whether each
//! record could be written when it was written.

use vstd::prelude::*;
use crate::catalog::Item;
use crate::ledger::{MatchRecord, round_after, continues, chained, lost_before, paired_before};

verus! {

/// The ids of the items, in catalog order.
pub open spec fn ids_of(items: Seq<Item>) -> Seq<u64> {
    items.map_values(|item: Item| item.id)
}

/// Whether the item is known and has not lost among the first `count`
/// records.
pub open spec fn in_play(ids: Seq<u64>, records: Seq<MatchRecord>, id: u64, count: int) -> bool {
    ids.contains(id) && !lost_before(records, id, count)
}

/// Whether, once the first `count` records are written, the item is in play
/// and not yet paired in the round in progress.
pub open spec fn waiting(ids: Seq<u64>, records: Seq<MatchRecord>, id: u64, count: int) -> bool {
    in_play(ids, records, id, count) && !paired_before(
        records,
        id,
        round_after(records, count),
        count,
    )
}

/// Whether the record at `index` could be written after the records before
/// it.
///
/// A match needs participants that are waiting; a bye is only given to the
/// one item left waiting. A marker closes a round in which nobody is left
/// waiting while at least two items are in play.
pub open spec fn admissible(ids: Seq<u64>, records: Seq<MatchRecord>, index: int) -> bool {
    let record = records[index];
    &&& continues(records, index)
    &&& if record.is_marker() {
        &&& forall|id: u64| !#[trigger] waiting(ids, records, id, index)
        &&& exists|x: u64, y: u64|
            x != y && #[trigger] in_play(ids, records, x, index) && #[trigger] in_play(
                ids,
                records,
                y,
                index,
            )
    } else {
        &&& waiting(ids, records, record.participant_a, index)
        &&& record.participant_b != 0 ==> waiting(ids, records, record.participant_b, index)
        &&& record.participant_b == 0 ==> forall|id: u64| #[trigger]
            waiting(ids, records, id, index) ==> id == record.participant_a
    }
}

/// Whether every record could be written after the records before it.
pub open spec fn history_ok(ids: Seq<u64>, records: Seq<MatchRecord>) -> bool {
    forall|j: int| 0 <= j < records.len() ==> #[trigger] admissible(ids, records, j)
}

/// What two ledgers that agree on their first `count` records say about
/// those records is the same.
pub proof fn lemma_same_prefix(
    first: Seq<MatchRecord>,
    second: Seq<MatchRecord>,
    count: int,
)
    requires
        0 <= count <= first.len(),
        count <= second.len(),
        forall|i: int| 0 <= i < count ==> first[i] == second[i],
    ensures
        round_after(first, count) == round_after(second, count),
        forall|id: u64| lost_before(first, id, count) == lost_before(second, id, count),
        forall|id: u64, round: u64|
            paired_before(first, id, round, count) == paired_before(second, id, round, count),
        forall|ids: Seq<u64>, id: u64|
            in_play(ids, first, id, count) == in_play(ids, second, id, count),
        forall|ids: Seq<u64>, id: u64|
            waiting(ids, first, id, count) == waiting(ids, second, id, count),
{
    assert forall|id: u64| lost_before(first, id, count) == lost_before(second, id, count) by {
        if lost_before(first, id, count) {
            let i = choose|i: int|
                0 <= i < count && i < first.len() && (#[trigger] first[i]).loses(id);
            assert(second[i].loses(id));
        }
        if lost_before(second, id, count) {
            let i = choose|i: int|
                0 <= i < count && i < second.len() && (#[trigger] second[i]).loses(id);
            assert(first[i].loses(id));
        }
    }
    assert forall|id: u64, round: u64|
        paired_before(first, id, round, count) == paired_before(second, id, round, count) by {
        if paired_before(first, id, round, count) {
            let i = choose|i: int|
                0 <= i < count && i < first.len() && (#[trigger] first[i]).round_number == round
                    && first[i].takes_part(id);
            assert(second[i].round_number == round && second[i].takes_part(id));
        }
        if paired_before(second, id, round, count) {
            let i = choose|i: int|
                0 <= i < count && i < second.len() && (#[trigger] second[i]).round_number
                    == round && second[i].takes_part(id);
            assert(first[i].round_number == round && first[i].takes_part(id));
        }
    }
}

/// Whether a record could be written does not depend on the records after
/// it.
pub proof fn lemma_admissible_prefix(
    ids: Seq<u64>,
    first: Seq<MatchRecord>,
    second: Seq<MatchRecord>,
    index: int,
)
    requires
        0 <= index < first.len(),
        index < second.len(),
        forall|i: int| 0 <= i <= index ==> first[i] == second[i],
    ensures
        admissible(ids, first, index) == admissible(ids, second, index),
{
    lemma_same_prefix(first, second, index);
    assert(first[index] == second[index]);
    assert(continues(first, index) == continues(second, index));
}

/// A history stays sound when a record that could be written is added, and
/// only then.
pub proof fn lemma_history_push(ids: Seq<u64>, records: Seq<MatchRecord>, record: MatchRecord)
    ensures
        history_ok(ids, records.push(record)) <==> history_ok(ids, records) && admissible(
            ids,
            records.push(record),
            records.len() as int,
        ),
{
    let longer = records.push(record);
    assert forall|j: int| 0 <= j < records.len() implies admissible(ids, longer, j) == admissible(
        ids,
        records,
        j,
    ) by {
        lemma_admissible_prefix(ids, longer, records, j);
    }
    if history_ok(ids, longer) {
        assert forall|j: int| 0 <= j < records.len() implies #[trigger] admissible(
            ids,
            records,
            j,
        ) by {
            assert(admissible(ids, longer, j));
        }
    }
    if history_ok(ids, records) && admissible(ids, longer, records.len() as int) {
        assert forall|j: int| 0 <= j < longer.len() implies #[trigger] admissible(ids, longer, j) by {
            if j < records.len() {
                assert(admissible(ids, records, j));
            }
        }
    }
}

/// A sound history is chained.
pub proof fn lemma_history_chained(ids: Seq<u64>, records: Seq<MatchRecord>)
    requires
        history_ok(ids, records),
    ensures
        chained(records),
{
    assert forall|j: int| 0 <= j < records.len() implies #[trigger] continues(records, j) by {
        assert(admissible(ids, records, j));
    }
}

} // verus!
