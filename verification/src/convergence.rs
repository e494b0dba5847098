//! How the field of a tournament shrinks from round to round, and how many
//! rounds a tournament can take.

use vstd::prelude::*;
use vstd::set_lib::lemma_len_subset;
use crate::catalog::{Item, has_id, ids_valid};
use crate::history::{admissible, history_ok, ids_of, in_play, lemma_history_chained, waiting};
use crate::laws::{law_round_completeness, live_at_start, plays_at, round_closed};
use crate::ledger::{
    MatchRecord, chained, continues, lemma_rounds_ascend, lost_before, paired_before, round_after,
};
use crate::rounds::{
    lemma_remaining_fades, lemma_rounds_needed_suffice, remaining_after, rounds_needed,
};
use crate::tournament::{consistent, lemma_ids_contain};

verus! {

/// The items in play when the given round begins.
pub open spec fn alive(items: Seq<Item>, records: Seq<MatchRecord>, round: u64) -> Set<u64> {
    Set::new(|id: u64| has_id(items, id) && live_at_start(records, id, round))
}

/// Whether the record is a decided pairing or a bye of the given round.
pub open spec fn is_match_of(record: MatchRecord, round: u64) -> bool {
    record.round_number == round && !record.is_marker()
}

/// The number of matches of the round among the first `count` records.
pub open spec fn matches_played(records: Seq<MatchRecord>, round: u64, count: int) -> nat
    decreases count,
{
    if count <= 0 {
        0
    } else if is_match_of(records[count - 1], round) {
        matches_played(records, round, count - 1) + 1
    } else {
        matches_played(records, round, count - 1)
    }
}

/// The number of byes of the round among the first `count` records.
pub open spec fn byes_played(records: Seq<MatchRecord>, round: u64, count: int) -> nat
    decreases count,
{
    if count <= 0 {
        0
    } else if is_match_of(records[count - 1], round) && records[count - 1].participant_b == 0 {
        byes_played(records, round, count - 1) + 1
    } else {
        byes_played(records, round, count - 1)
    }
}

/// The participants of the matches of the round among the first `count`
/// records.
pub open spec fn players(records: Seq<MatchRecord>, round: u64, count: int) -> Set<u64>
    decreases count,
{
    if count <= 0 {
        Set::empty()
    } else if !is_match_of(records[count - 1], round) {
        players(records, round, count - 1)
    } else if records[count - 1].participant_b == 0 {
        players(records, round, count - 1).insert(records[count - 1].participant_a)
    } else {
        players(records, round, count - 1).insert(records[count - 1].participant_a).insert(
            records[count - 1].participant_b,
        )
    }
}

/// The winners of the matches of the round among the first `count`
/// records.
pub open spec fn winners(records: Seq<MatchRecord>, round: u64, count: int) -> Set<u64>
    decreases count,
{
    if count <= 0 {
        Set::empty()
    } else if is_match_of(records[count - 1], round) && records[count - 1].winner != 0 {
        winners(records, round, count - 1).insert(records[count - 1].winner)
    } else {
        winners(records, round, count - 1)
    }
}

/// The participants of a round are the items paired in it, and each match
/// brings two of them, or one if it is a bye.
pub proof fn lemma_players(ids: Seq<u64>, records: Seq<MatchRecord>, round: u64, count: int)
    requires
        history_ok(ids, records),
        0 <= count <= records.len(),
    ensures
        players(records, round, count).finite(),
        forall|id: u64|
            players(records, round, count).contains(id) == paired_before(records, id, round, count),
        players(records, round, count).len() + byes_played(records, round, count) == 2
            * matches_played(records, round, count),
    decreases count,
{
    if count > 0 {
        lemma_players(ids, records, round, count - 1);
        let record = records[count - 1];
        let before = players(records, round, count - 1);
        let now = players(records, round, count);
        assert(admissible(ids, records, count - 1));
        assert forall|id: u64| now.contains(id) == paired_before(records, id, round, count) by {
            if paired_before(records, id, round, count) {
                let i = choose|i: int|
                    0 <= i < count && i < records.len() && (#[trigger] records[i]).round_number
                        == round && records[i].takes_part(id);
                if i < count - 1 {
                    assert(paired_before(records, id, round, count - 1));
                }
            }
            if paired_before(records, id, round, count - 1) {
                let i = choose|i: int|
                    0 <= i < count - 1 && i < records.len() && (#[trigger] records[i]).round_number
                        == round && records[i].takes_part(id);
                assert(records[i].round_number == round && records[i].takes_part(id));
            }
            if is_match_of(record, round) && record.takes_part(id) {
                assert(records[count - 1].round_number == round && records[count - 1].takes_part(
                    id,
                ));
            }
        }
        if is_match_of(record, round) {
            assert(waiting(ids, records, record.participant_a, count - 1));
            assert(!before.contains(record.participant_a));
            if record.participant_b != 0 {
                assert(waiting(ids, records, record.participant_b, count - 1));
                assert(!before.contains(record.participant_b));
            }
        }
    }
}

/// The winners of a round are the items that won a match of it, and there
/// are no more of them than matches.
pub proof fn lemma_winners(records: Seq<MatchRecord>, round: u64, count: int)
    requires
        0 <= count <= records.len(),
    ensures
        winners(records, round, count).finite(),
        forall|id: u64|
            winners(records, round, count).contains(id) == (id != 0 && exists|i: int|
                0 <= i < count && is_match_of(#[trigger] records[i], round) && records[i].winner
                    == id),
        winners(records, round, count).len() <= matches_played(records, round, count),
    decreases count,
{
    if count > 0 {
        lemma_winners(records, round, count - 1);
        let record = records[count - 1];
        let now = winners(records, round, count);
        assert forall|id: u64|
            now.contains(id) == (id != 0 && exists|i: int|
                0 <= i < count && is_match_of(#[trigger] records[i], round) && records[i].winner
                    == id) by {
            if id != 0 && exists|i: int|
                0 <= i < count && is_match_of(#[trigger] records[i], round) && records[i].winner
                    == id {
                let i = choose|i: int|
                    0 <= i < count && is_match_of(#[trigger] records[i], round)
                        && records[i].winner == id;
                if i < count - 1 {
                    assert(winners(records, round, count - 1).contains(id));
                }
            }
            if winners(records, round, count - 1).contains(id) {
                let i = choose|i: int|
                    0 <= i < count - 1 && is_match_of(#[trigger] records[i], round)
                        && records[i].winner == id;
                assert(is_match_of(records[i], round) && records[i].winner == id);
            }
            if is_match_of(record, round) && record.winner == id && id != 0 {
                assert(is_match_of(records[count - 1], round) && records[count - 1].winner == id);
            }
        }
    }
}

/// An item that waits for a match waited for it at every earlier moment of
/// the same round.
pub proof fn lemma_waited_before(
    ids: Seq<u64>,
    records: Seq<MatchRecord>,
    id: u64,
    earlier: int,
    later: int,
)
    requires
        0 <= earlier <= later <= records.len(),
        round_after(records, earlier) == round_after(records, later),
        waiting(ids, records, id, later),
    ensures
        waiting(ids, records, id, earlier),
{
    let round = round_after(records, earlier);
    if lost_before(records, id, earlier) {
        let i = choose|i: int|
            0 <= i < earlier && i < records.len() && (#[trigger] records[i]).loses(id);
        assert(records[i].loses(id));
    }
    if paired_before(records, id, round, earlier) {
        let i = choose|i: int|
            0 <= i < earlier && i < records.len() && (#[trigger] records[i]).round_number == round
                && records[i].takes_part(id);
        assert(records[i].round_number == round && records[i].takes_part(id));
    }
}

/// A round has at most one bye.
pub proof fn lemma_single_bye(ids: Seq<u64>, records: Seq<MatchRecord>, round: u64, count: int)
    requires
        history_ok(ids, records),
        0 <= count <= records.len(),
    ensures
        byes_played(records, round, count) <= 1,
        byes_played(records, round, count) == 1 ==> exists|j: int|
            0 <= j < count && is_match_of(#[trigger] records[j], round) && records[j].participant_b
                == 0,
    decreases count,
{
    if count > 0 {
        lemma_single_bye(ids, records, round, count - 1);
        let last = count - 1;
        let record = records[last];
        if is_match_of(record, round) {
            assert(admissible(ids, records, last));
            if byes_played(records, round, last) == 1 {
                let j = choose|j: int|
                    0 <= j < last && is_match_of(#[trigger] records[j], round)
                        && records[j].participant_b == 0;
                assert(admissible(ids, records, j));
                assert(waiting(ids, records, record.participant_a, last));
                lemma_waited_before(ids, records, record.participant_a, j, last);
                assert(record.participant_a == records[j].participant_a);
                assert(records[j].round_number == round && records[j].takes_part(
                    record.participant_a,
                ));
                assert(paired_before(records, record.participant_a, round, last));
                assert(false);
            }
            if record.participant_b == 0 {
                assert(is_match_of(records[last], round) && records[last].participant_b == 0);
            }
        }
        if byes_played(records, round, count) == 1 && byes_played(records, round, last) == 1 {
            let j = choose|j: int|
                0 <= j < last && is_match_of(#[trigger] records[j], round)
                    && records[j].participant_b == 0;
            assert(is_match_of(records[j], round) && records[j].participant_b == 0);
        }
    }
}

/// A record of a round after the first comes after the marker that opens
/// the round: the round before it is closed.
pub proof fn lemma_marker_opens_round(records: Seq<MatchRecord>, index: int)
    requires
        chained(records),
        0 <= index < records.len(),
        records[index].round_number >= 2,
    ensures
        round_closed(records, (records[index].round_number - 1) as u64),
    decreases index,
{
    assert(continues(records, index));
    if records[index].is_marker() {
        assert(records[index].is_marker() && records[index].round_number == (
        records[index].round_number - 1) as u64 + 1);
    } else {
        lemma_marker_opens_round(records, index - 1);
    }
}

/// When the first round begins, every item of the catalog is in play.
pub proof fn lemma_everyone_starts(items: Seq<Item>, records: Seq<MatchRecord>)
    requires
        ids_valid(items),
        chained(records),
    ensures
        alive(items, records, 1).finite(),
        alive(items, records, 1).len() == items.len(),
{
    let ids = ids_of(items);
    assert forall|i: int, j: int| 0 <= i < ids.len() && 0 <= j < ids.len() && i != j implies ids[i]
        != ids[j] by {
        if i < j {
            assert(items[i].id != items[j].id);
        } else {
            assert(items[j].id != items[i].id);
        }
    }
    ids.unique_seq_to_set();
    vstd::seq_lib::seq_to_set_is_finite(ids);
    assert forall|id: u64| alive(items, records, 1).contains(id) == ids.to_set().contains(id) by {
        lemma_ids_contain(items, id);
        assert forall|i: int|
            0 <= i < records.len() && (#[trigger] records[i]).round_number < 1 implies !records[i].loses(
            id,
        ) by {
            lemma_rounds_ascend(records, i, i);
        }
    }
    assert(alive(items, records, 1) =~= ids.to_set());
}

/// A round that a marker opens begins with at least two items in play.
pub proof fn lemma_round_begins_contested(
    items: Seq<Item>,
    records: Seq<MatchRecord>,
    over: bool,
    round: u64,
)
    requires
        consistent(items, records, over),
        round_closed(records, round),
        alive(items, records, (round + 1) as u64).finite(),
    ensures
        alive(items, records, (round + 1) as u64).len() >= 2,
{
    let ids = ids_of(items);
    lemma_history_chained(ids, records);
    let m = choose|m: int|
        0 <= m < records.len() && (#[trigger] records[m]).is_marker() && records[m].round_number
            == round + 1;
    let next = (round + 1) as u64;
    assert(admissible(ids, records, m));
    let (x, y) = choose|x: u64, y: u64|
        x != y && #[trigger] in_play(ids, records, x, m) && #[trigger] in_play(ids, records, y, m);
    let field = alive(items, records, next);
    assert forall|id: u64| in_play(ids, records, id, m) implies field.contains(id) by {
        lemma_ids_contain(items, id);
        assert forall|i: int|
            0 <= i < records.len() && (#[trigger] records[i]).round_number < next implies !records[i].loses(
            id,
        ) by {
            if records[i].loses(id) {
                if i >= m {
                    lemma_rounds_ascend(records, m, i);
                }
                assert(lost_before(records, id, m));
            }
        }
    }
    let pair = Set::<u64>::empty().insert(x).insert(y);
    assert(pair.subset_of(field));
    lemma_len_subset(pair, field);
    assert(pair.len() == 2);
}

/// A closed round at least halves the field: of the items in play when
/// the round began, at most half, rounded up, are in play when the next
/// round begins, and no others are. They are fewer than before, and still
/// at least two.
pub proof fn law_round_halves_the_field(
    items: Seq<Item>,
    records: Seq<MatchRecord>,
    over: bool,
    round: u64,
)
    requires
        consistent(items, records, over),
        round_closed(records, round),
    ensures
        round < u64::MAX,
        alive(items, records, round).finite(),
        alive(items, records, (round + 1) as u64).subset_of(alive(items, records, round)),
        alive(items, records, (round + 1) as u64).len() <= (alive(items, records, round).len() + 1)
            / 2,
        2 <= alive(items, records, (round + 1) as u64).len() < alive(items, records, round).len(),
{
    let ids = ids_of(items);
    lemma_history_chained(ids, records);
    let m = choose|m: int|
        0 <= m < records.len() && (#[trigger] records[m]).is_marker() && records[m].round_number
            == round + 1;
    let next = (round + 1) as u64;
    assert(admissible(ids, records, m));
    assert(round_after(records, m) == round);
    lemma_players(ids, records, round, m);
    lemma_winners(records, round, m);
    lemma_single_bye(ids, records, round, m);
    let field = alive(items, records, round);
    let rest = alive(items, records, next);
    let played = players(records, round, m);
    let won = winners(records, round, m);
    assert forall|id: u64| field.contains(id) implies played.contains(id) by {
        law_round_completeness(items, records, over, round, id);
        let j = choose|j: int|
            #[trigger] plays_at(records, id, round, j) && forall|k: int|
                plays_at(records, id, round, k) ==> k == j;
        if j >= m {
            lemma_rounds_ascend(records, m, j);
        }
        assert(records[j].round_number == round && records[j].takes_part(id));
        assert(paired_before(records, id, round, m));
    }
    assert forall|id: u64| played.contains(id) implies field.contains(id) by {
        assert(paired_before(records, id, round, m));
        let j = choose|j: int|
            0 <= j < m && j < records.len() && (#[trigger] records[j]).round_number == round
                && records[j].takes_part(id);
        assert(admissible(ids, records, j));
        assert(waiting(ids, records, id, j));
        lemma_ids_contain(items, id);
        assert forall|i: int|
            0 <= i < records.len() && (#[trigger] records[i]).round_number < round implies !records[i].loses(
            id,
        ) by {
            if records[i].loses(id) {
                if i >= j {
                    lemma_rounds_ascend(records, j, i);
                }
                assert(lost_before(records, id, j));
            }
        }
    }
    assert(field =~= played);
    assert forall|id: u64| rest.contains(id) implies field.contains(id) && won.contains(id) by {
        assert forall|i: int|
            0 <= i < records.len() && (#[trigger] records[i]).round_number < round implies !records[i].loses(
            id,
        ) by {
            assert(records[i].round_number < next);
        }
        assert(field.contains(id));
        law_round_completeness(items, records, over, round, id);
        let j = choose|j: int|
            #[trigger] plays_at(records, id, round, j) && forall|k: int|
                plays_at(records, id, round, k) ==> k == j;
        if j >= m {
            lemma_rounds_ascend(records, m, j);
        }
        assert(records[j].round_number < next);
        assert(!records[j].loses(id));
        assert(is_match_of(records[j], round) && records[j].winner == id);
    }
    lemma_len_subset(rest, won);
    assert(rest.subset_of(field));
    lemma_round_begins_contested(items, records, over, round);
}

/// The field after a number of closed rounds is no larger than repeated
/// halving of the catalog allows.
pub proof fn law_field_after_rounds(
    items: Seq<Item>,
    records: Seq<MatchRecord>,
    over: bool,
    rounds: u64,
)
    requires
        consistent(items, records, over),
        rounds >= 1,
        round_closed(records, rounds),
    ensures
        rounds < u64::MAX,
        alive(items, records, (rounds + 1) as u64).finite(),
        alive(items, records, (rounds + 1) as u64).len() <= remaining_after(
            items.len(),
            rounds as nat,
        ),
    decreases rounds,
{
    let ids = ids_of(items);
    lemma_history_chained(ids, records);
    law_round_halves_the_field(items, records, over, rounds);
    lemma_len_subset(
        alive(items, records, (rounds + 1) as u64),
        alive(items, records, rounds),
    );
    if rounds == 1 {
        lemma_everyone_starts(items, records);
        assert(remaining_after(items.len(), 1) == (remaining_after(items.len(), 0) + 1) / 2);
    } else {
        let m = choose|m: int|
            0 <= m < records.len() && (#[trigger] records[m]).is_marker() && records[m].round_number
                == rounds + 1;
        assert(continues(records, m));
        lemma_marker_opens_round(records, m - 1);
        law_field_after_rounds(items, records, over, (rounds - 1) as u64);
    }
}

/// Convergence: a tournament of `N` items never goes beyond round
/// `rounds_needed(N)`, the least `k` with `2^k >= N`. With a single item
/// or none it stays in the first round.
pub proof fn law_rounds_suffice(items: Seq<Item>, records: Seq<MatchRecord>, over: bool)
    requires
        consistent(items, records, over),
    ensures
        round_after(records, records.len() as int) <= 1 || round_after(
            records,
            records.len() as int,
        ) <= rounds_needed(items.len()),
{
    let ids = ids_of(items);
    let count = records.len() as int;
    let current = round_after(records, count);
    lemma_history_chained(ids, records);
    if current >= 2 {
        let before = (current - 1) as u64;
        lemma_marker_opens_round(records, count - 1);
        law_round_halves_the_field(items, records, over, before);
        law_field_after_rounds(items, records, over, before);
        if before >= rounds_needed(items.len()) {
            lemma_remaining_fades(items.len(), rounds_needed(items.len()), before as nat);
            lemma_rounds_needed_suffice(items.len());
        }
    }
}

} // verus!
