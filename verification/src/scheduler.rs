//! The bracket scheduler: what is to be played next, in which order.

use vstd::prelude::*;
use vstd::seq_lib::{to_multiset_contains, to_multiset_len};
use rand::rngs::StdRng;
use rand::seq::SliceRandom;
use rand::SeedableRng;
use crate::history::ids_of;
use crate::tournament::{
    Pairing, Tournament, lemma_in_play_is_live, lemma_pending_is_waiting,
    lemma_pending_never_zero, marker_of, pending_ids, settled, sole_survivor,
};

verus! {

/// The order into which the seed shuffles the ids, with the version of
/// `rand` that the crate is built with.
pub uninterp spec fn seeded_shuffle(seed: u64, ids: Seq<u64>) -> Seq<u64>;

/// Shuffles the ids with `rand`: a `StdRng` made by
/// `SeedableRng::seed_from_u64` from the seed drives `SliceRandom::shuffle`.
///
/// Not proved here, and taken from the source of `rand`: the shuffle only
/// swaps elements, so the outcome holds the same ids as often as the input;
/// and the generator is a function of the seed alone and draws indices in
/// 32 bits wherever they fit, so equal seeds and equal inputs give equal
/// orders on every machine. Another version of `rand` may shuffle
/// otherwise.
#[verifier::external_body]
fn shuffle_with_seed(ids: &mut Vec<u64>, seed: u64)
    ensures
        final(ids)@ == seeded_shuffle(seed, old(ids)@),
        final(ids)@.to_multiset() == old(ids)@.to_multiset(),
{
    let mut generator = StdRng::seed_from_u64(seed);
    ids.shuffle(&mut generator);
}

/// Draws a seed with `rand::random`, which asks the generator of the
/// running thread. Nothing is known of the number drawn.
#[verifier::external_body]
fn draw_seed() -> (seed: u64) {
    rand::random::<u64>()
}

/// The pairings that an order of ids gives: the ids are taken two at a
/// time, and an id left over at the end has a bye.
pub open spec fn pairings_of(order: Seq<u64>) -> Seq<Pairing> {
    Seq::new(
        ((order.len() + 1) / 2) as nat,
        |k: int|
            Pairing {
                a: order[2 * k],
                b: if 2 * k + 1 < order.len() {
                    order[2 * k + 1]
                } else {
                    0
                },
            },
    )
}

/// Pairs the ids in the order given, two at a time; an id left over at the
/// end has a bye.
pub fn pair_up(order: &Vec<u64>) -> (pairings: Vec<Pairing>)
    ensures
        pairings@ == pairings_of(order@),
{
    let mut pairings: Vec<Pairing> = Vec::new();
    let count = order.len();
    let mut index: usize = 0;
    while index < count
        invariant
            count == order@.len(),
            index <= count,
            index % 2 == 0 || index == count,
            pairings@.len() == (index + 1) / 2,
            forall|k: int| 0 <= k < pairings@.len() ==> pairings@[k] == pairings_of(order@)[k],
        decreases count - index,
    {
        if index + 1 < count {
            pairings.push(Pairing { a: order[index], b: order[index + 1] });
            index += 2;
        } else {
            pairings.push(Pairing { a: order[index], b: 0 });
            index = count;
        }
    }
    proof {
        assert(pairings@ =~= pairings_of(order@));
    }
    pairings
}

/// The participants of the pairings, in order: of each pairing the first,
/// and the second if there is one.
pub open spec fn participants_of(pairings: Seq<Pairing>) -> Seq<u64>
    decreases pairings.len(),
{
    if pairings.len() == 0 {
        Seq::empty()
    } else if pairings.last().b == 0 {
        participants_of(pairings.drop_last()).push(pairings.last().a)
    } else {
        participants_of(pairings.drop_last()).push(pairings.last().a).push(pairings.last().b)
    }
}

/// The pairings of an order of ids hold the ids of the order, each where it
/// stood: nobody is left out and nobody is added.
pub proof fn lemma_pairings_hold_the_order(order: Seq<u64>)
    requires
        forall|i: int| 0 <= i < order.len() ==> order[i] != 0,
    ensures
        participants_of(pairings_of(order)) == order,
    decreases order.len(),
{
    let count = order.len() as int;
    let pairings = pairings_of(order);
    if count == 0 {
        assert(participants_of(pairings) =~= order);
    } else if count % 2 == 1 {
        let front = order.take(count - 1);
        lemma_pairings_hold_the_order(front);
        assert(pairings.drop_last() =~= pairings_of(front));
        assert(participants_of(pairings) =~= order);
    } else {
        let front = order.take(count - 2);
        lemma_pairings_hold_the_order(front);
        assert(pairings.drop_last() =~= pairings_of(front));
        assert(pairings.last().b == order[count - 1]);
        assert(participants_of(pairings) =~= order);
    }
}

/// Shuffles the ids with the given seed and pairs them in the resulting
/// order. The pairings hold the ids given, each as often as it was given,
/// provided that none of them is zero, which stands for nobody.
pub fn draw_pairings(ids: Vec<u64>, seed: u64) -> (pairings: Vec<Pairing>)
    ensures
        pairings@ == pairings_of(seeded_shuffle(seed, ids@)),
        pairings@.len() == (ids@.len() + 1) / 2,
        !ids@.contains(0) ==> participants_of(pairings@).to_multiset() == ids@.to_multiset(),
{
    let mut order = ids;
    shuffle_with_seed(&mut order, seed);
    proof {
        to_multiset_len(order@);
        to_multiset_len(ids@);
        if !ids@.contains(0) {
            assert forall|i: int| 0 <= i < order@.len() implies order@[i] != 0 by {
                assert(order@.contains(order@[i]));
                to_multiset_contains(order@, order@[i]);
                to_multiset_contains(ids@, order@[i]);
            }
            lemma_pairings_hold_the_order(order@);
        }
    }
    pair_up(&order)
}

/// What the scheduler reports.
#[derive(Debug, Clone, PartialEq, Eq)]
pub enum Schedule {
    /// The tournament is over. The champion is the one item left in play;
    /// there is none when the last items left play together.
    Finished { champion: Option<u64> },
    /// The pairings left to play in the round in progress.
    Round { round_number: u64, pairings: Vec<Pairing> },
}

/// Whether `plan` is what the scheduler reports of the tournament `before`
/// under the given seed, and `after` the tournament it leaves.
///
/// A tournament that is marked as over, or in which nobody waits while at
/// most one item is in play, is finished. Otherwise the items pending in
/// the round in progress are shuffled and paired; when none is pending, the
/// round is closed first and the next one opened. The pairings hold every
/// pending item once and nobody else.
pub open spec fn scheduled(before: Tournament, after: Tournament, plan: Schedule, seed: u64) -> bool {
    let waiting_now = pending_ids(before.items(), before.records(), before.round());
    &&& after.items() == before.items()
    &&& match plan {
        Schedule::Finished { champion } => {
            &&& before.over() || settled(ids_of(before.items()), before.records())
            &&& after.over()
            &&& after.records() == before.records()
            &&& champion == sole_survivor(before.items())
        },
        Schedule::Round { round_number, pairings } => {
            &&& !before.over()
            &&& !after.over()
            &&& !settled(ids_of(before.items()), before.records())
            &&& after.records() == if waiting_now.len() > 0 {
                before.records()
            } else {
                before.records().push(marker_of(before.round() + 1))
            }
            &&& round_number == after.round()
            &&& pending_ids(after.items(), after.records(), round_number).len() > 0
            &&& pairings@ == pairings_of(
                seeded_shuffle(seed, pending_ids(after.items(), after.records(), round_number)),
            )
            &&& participants_of(pairings@).to_multiset() == pending_ids(
                after.items(),
                after.records(),
                round_number,
            ).to_multiset()
            &&& pairings@.len() > 0
        },
    }
}

impl Tournament {
    /// Reports what is to be played next, shuffling with the given seed.
    /// Equal seeds on equal tournaments give equal pairings.
    pub fn schedule_with_seed(&mut self, seed: u64) -> (plan: Schedule)
        requires
            old(self).wf(),
        ensures
            final(self).wf(),
            scheduled(*old(self), *final(self), plan, seed),
    {
        proof {
            lemma_pending_is_waiting(self.items(), self.records(), self.over());
            lemma_in_play_is_live(self.items(), self.records(), self.over());
            lemma_pending_never_zero(self.items(), self.records(), self.round());
        }
        if self.conclude() {
            return Schedule::Finished { champion: self.champion() };
        }
        let round = self.current_round();
        let waiting_now = self.pending(round);
        proof {
            assert(!waiting_now@.contains(0));
        }
        if waiting_now.len() > 0 {
            let pairings = draw_pairings(waiting_now, seed);
            return Schedule::Round { round_number: round, pairings };
        }
        match self.close_round() {
            Ok(next) => {
                proof {
                    lemma_pending_never_zero(self.items(), self.records(), next);
                }
                let waiting_next = self.pending(next);
                proof {
                    assert(!waiting_next@.contains(0));
                }
                let pairings = draw_pairings(waiting_next, seed);
                Schedule::Round { round_number: next, pairings }
            },
            Err(_) => {
                proof {
                    assert(false);
                }
                Schedule::Finished { champion: None }
            },
        }
    }

    /// Reports what is to be played next, shuffling with a seed drawn for
    /// the occasion.
    pub fn schedule(&mut self) -> (plan: Schedule)
        requires
            old(self).wf(),
        ensures
            final(self).wf(),
            exists|seed: u64| scheduled(*old(self), *final(self), plan, seed),
    {
        let seed = draw_seed();
        self.schedule_with_seed(seed)
    }
}

} // verus!
