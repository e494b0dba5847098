//! The participants of a round while the presentation layer loads their
//! images, and the decisions that follow from what was loaded and chosen.

use vstd::prelude::*;
use crate::tournament::{Decision, Pairing};

verus! {

/// What the loader reports of an image that was asked of it.
#[derive(Debug, Clone, Copy, PartialEq, Eq, Hash, Structural)]
pub enum LoadOutcome {
    /// The image is not there yet.
    Pending,
    /// The image is ready to be shown.
    Loaded,
    /// The image cannot be shown.
    Failed,
}

/// One participant of a round and the state of its image.
#[derive(Debug, Clone, Copy, PartialEq, Eq, Hash, Structural)]
pub struct ParticipantInfo {
    /// The id of the item.
    pub id: u64,
    /// Whether the image was asked of the loader.
    pub requested: bool,
    /// Whether the image is ready to be shown.
    pub loaded: bool,
    /// Whether the image cannot be shown.
    pub errored: bool,
}

/// The participant after its image was asked of the loader, or found
/// impossible to ask for.
pub open spec fn after_request(participant: ParticipantInfo, impossible: bool) -> ParticipantInfo {
    ParticipantInfo {
        requested: !impossible,
        errored: participant.errored || impossible,
        ..participant
    }
}

/// The participant after the loader has reported on its image. A report on
/// an image that was never asked for changes nothing.
pub open spec fn after_report(participant: ParticipantInfo, outcome: LoadOutcome) -> ParticipantInfo {
    if !participant.requested {
        participant
    } else {
        match outcome {
            LoadOutcome::Loaded => ParticipantInfo { loaded: true, ..participant },
            LoadOutcome::Failed => ParticipantInfo { errored: true, ..participant },
            LoadOutcome::Pending => participant,
        }
    }
}

/// The positions of the participants whose image is ready, in order.
pub open spec fn loaded_positions(participants: Seq<ParticipantInfo>) -> Seq<usize>
    decreases participants.len(),
{
    if participants.len() == 0 {
        Seq::empty()
    } else if participants.last().loaded {
        loaded_positions(participants.drop_last()).push((participants.len() - 1) as usize)
    } else {
        loaded_positions(participants.drop_last())
    }
}

/// The ready positions among the first participants begin the ready
/// positions among all.
pub proof fn lemma_loaded_positions_grow(participants: Seq<ParticipantInfo>, fewer: int, more: int)
    requires
        0 <= fewer <= more <= participants.len(),
    ensures
        loaded_positions(participants.take(fewer)).len() <= loaded_positions(
            participants.take(more),
        ).len(),
        loaded_positions(participants.take(more)).take(
            loaded_positions(participants.take(fewer)).len() as int,
        ) == loaded_positions(participants.take(fewer)),
    decreases more,
{
    let short = loaded_positions(participants.take(fewer));
    let long = loaded_positions(participants.take(more));
    if fewer == more {
        assert(long.take(short.len() as int) =~= short);
    } else {
        lemma_loaded_positions_grow(participants, fewer, more - 1);
        assert(participants.take(more).drop_last() =~= participants.take(more - 1));
        let middle = loaded_positions(participants.take(more - 1));
        assert(long.take(short.len() as int) =~= middle.take(short.len() as int));
    }
}

/// What the presentation layer does next with a pairing.
#[derive(Debug, Clone, Copy, PartialEq, Eq, Hash, Structural)]
pub enum Presentation {
    /// Nothing yet: an image is neither ready nor known to be unshowable.
    Wait,
    /// Show the participants at the two positions and ask for a choice.
    Show { first: usize, second: usize },
    /// Commit the decision without asking.
    Decide { decision: Decision },
}

/// The position, from `from` on, of the first participant with the id.
pub open spec fn first_with(participants: Seq<ParticipantInfo>, id: u64, from: int) -> Option<int>
    decreases participants.len() - from,
{
    if from < 0 || from >= participants.len() {
        None
    } else if participants[from].id == id {
        Some(from)
    } else {
        first_with(participants, id, from + 1)
    }
}

/// Whether the image of the participant is ready or known to be
/// unshowable.
pub open spec fn image_known(participant: ParticipantInfo) -> bool {
    participant.loaded || participant.errored
}

/// What is done next with a pairing, given the participants and the state
/// of their images.
///
/// A bye is decided as soon as the state of the image is known: the item
/// advances if it can be shown and leaves play if it cannot. A pairing of
/// two waits until the state of both images is known; then it is decided
/// at once if an image cannot be shown, and shown otherwise. A pairing
/// whose participants are not among those held waits.
pub open spec fn presentation_of(participants: Seq<ParticipantInfo>, pairing: Pairing) -> Presentation {
    match first_with(participants, pairing.a, 0) {
        None => Presentation::Wait,
        Some(first) => {
            let a = participants[first];
            if pairing.b == 0 {
                if a.errored {
                    Presentation::Decide { decision: Decision::AFailedToRender }
                } else if a.loaded {
                    Presentation::Decide { decision: Decision::WinnerIsA }
                } else {
                    Presentation::Wait
                }
            } else {
                match first_with(participants, pairing.b, 0) {
                    None => Presentation::Wait,
                    Some(second) => {
                        let b = participants[second];
                        if !image_known(a) || !image_known(b) {
                            Presentation::Wait
                        } else if a.errored && b.errored {
                            Presentation::Decide { decision: Decision::BothFailedToRender }
                        } else if a.errored {
                            Presentation::Decide { decision: Decision::AFailedToRender }
                        } else if b.errored {
                            Presentation::Decide { decision: Decision::BFailedToRender }
                        } else {
                            Presentation::Show { first: first as usize, second: second as usize }
                        }
                    },
                }
            }
        },
    }
}

/// The participants of a round, in the order in which they are shown.
#[derive(Debug, Clone, PartialEq, Eq)]
pub struct ParticipantsDeque {
    /// The participants, the next to be shown first.
    pub participants_deque: Vec<ParticipantInfo>,
}

impl ParticipantsDeque {
    /// No participants.
    pub fn new() -> (deque: ParticipantsDeque)
        ensures
            deque.participants_deque@ == Seq::<ParticipantInfo>::empty(),
    {
        ParticipantsDeque { participants_deque: Vec::new() }
    }

    /// Adds a participant whose image has not been asked for yet.
    pub fn push_back(&mut self, id: u64)
        ensures
            final(self).participants_deque@ == old(self).participants_deque@.push(
                ParticipantInfo { id, requested: false, loaded: false, errored: false },
            ),
    {
        self.participants_deque.push(
            ParticipantInfo { id, requested: false, loaded: false, errored: false },
        );
    }

    /// Adds the participants of a pairing: the first, and the second if
    /// there is one.
    pub fn push_pairing(&mut self, pairing: Pairing)
        ensures
            final(self).participants_deque@ == if pairing.b == 0 {
                old(self).participants_deque@.push(
                    ParticipantInfo { id: pairing.a, requested: false, loaded: false, errored: false },
                )
            } else {
                old(self).participants_deque@.push(
                    ParticipantInfo { id: pairing.a, requested: false, loaded: false, errored: false },
                ).push(
                    ParticipantInfo { id: pairing.b, requested: false, loaded: false, errored: false },
                )
            },
    {
        self.push_back(pairing.a);
        if pairing.b != 0 {
            self.push_back(pairing.b);
        }
    }

    /// The position of the first participant with the given id.
    pub fn position_of(&self, id: u64) -> (found: Option<usize>)
        ensures
            match found {
                Some(index) => first_with(self.participants_deque@, id, 0) == Some(index as int)
                    && index < self.participants_deque@.len(),
                None => first_with(self.participants_deque@, id, 0) is None,
            },
    {
        let mut index: usize = 0;
        while index < self.participants_deque.len()
            invariant
                index <= self.participants_deque@.len(),
                first_with(self.participants_deque@, id, 0) == first_with(
                    self.participants_deque@,
                    id,
                    index as int,
                ),
            decreases self.participants_deque@.len() - index,
        {
            if self.participants_deque[index].id == id {
                return Some(index);
            }
            index += 1;
        }
        None
    }

    /// What is done next with the pairing.
    pub fn next_step(&self, pairing: Pairing) -> (step: Presentation)
        ensures
            step == presentation_of(self.participants_deque@, pairing),
    {
        let first = match self.position_of(pairing.a) {
            Some(first) => first,
            None => {
                return Presentation::Wait;
            },
        };
        let a = self.participants_deque[first];
        if pairing.b == 0 {
            return if a.errored {
                Presentation::Decide { decision: Decision::AFailedToRender }
            } else if a.loaded {
                Presentation::Decide { decision: Decision::WinnerIsA }
            } else {
                Presentation::Wait
            };
        }
        let second = match self.position_of(pairing.b) {
            Some(second) => second,
            None => {
                return Presentation::Wait;
            },
        };
        let b = self.participants_deque[second];
        if !(a.loaded || a.errored) || !(b.loaded || b.errored) {
            Presentation::Wait
        } else {
            match decision_for_failures(a.errored, b.errored) {
                Some(decision) => Presentation::Decide { decision },
                None => Presentation::Show { first, second },
            }
        }
    }

    /// Drops the participants of a pairing once it is decided. The others
    /// keep their order.
    pub fn remove_pairing(&mut self, pairing: Pairing)
        ensures
            final(self).participants_deque@ == old(self).participants_deque@.filter(
                |p: ParticipantInfo| p.id != pairing.a && p.id != pairing.b,
            ),
    {
        let ghost others = |p: ParticipantInfo| p.id != pairing.a && p.id != pairing.b;
        let mut kept: Vec<ParticipantInfo> = Vec::new();
        let mut index: usize = 0;
        proof {
            assert(self.participants_deque@.take(0).filter(others) =~= Seq::<
                ParticipantInfo,
            >::empty());
        }
        while index < self.participants_deque.len()
            invariant
                index <= self.participants_deque@.len(),
                self.participants_deque@ == old(self).participants_deque@,
                others == |p: ParticipantInfo| p.id != pairing.a && p.id != pairing.b,
                kept@ == self.participants_deque@.take(index as int).filter(others),
            decreases self.participants_deque@.len() - index,
        {
            proof {
                self.participants_deque@.lemma_take_succ_push(index as int);
                self.participants_deque@.take(index as int).lemma_filter_push(
                    self.participants_deque@[index as int],
                    others,
                );
            }
            let participant = self.participants_deque[index];
            if participant.id != pairing.a && participant.id != pairing.b {
                kept.push(participant);
            }
            index += 1;
        }
        proof {
            assert(self.participants_deque@.take(index as int) =~= self.participants_deque@);
        }
        self.participants_deque = kept;
    }

    /// Notes for every participant with the given id that its image was
    /// asked of the loader, or, with `impossible`, that it cannot be asked
    /// for and so cannot be shown.
    pub fn mark_requested(&mut self, id: u64, impossible: bool)
        ensures
            final(self).participants_deque@ == Seq::new(
                old(self).participants_deque@.len(),
                |i: int|
                    if old(self).participants_deque@[i].id == id {
                        after_request(old(self).participants_deque@[i], impossible)
                    } else {
                        old(self).participants_deque@[i]
                    },
            ),
    {
        let count = self.participants_deque.len();
        let mut index: usize = 0;
        while index < count
            invariant
                index <= count == self.participants_deque@.len(),
                count == old(self).participants_deque@.len(),
                forall|i: int|
                    0 <= i < index ==> self.participants_deque@[i] == if old(
                        self,
                    ).participants_deque@[i].id == id {
                        after_request(old(self).participants_deque@[i], impossible)
                    } else {
                        old(self).participants_deque@[i]
                    },
                forall|i: int|
                    index <= i < count ==> self.participants_deque@[i] == old(
                        self,
                    ).participants_deque@[i],
            decreases count - index,
        {
            let participant = self.participants_deque[index];
            if participant.id == id {
                self.participants_deque.set(
                    index,
                    ParticipantInfo {
                        id: participant.id,
                        requested: !impossible,
                        loaded: participant.loaded,
                        errored: participant.errored || impossible,
                    },
                );
            }
            index += 1;
        }
        proof {
            assert(self.participants_deque@ =~= Seq::new(
                old(self).participants_deque@.len(),
                |i: int|
                    if old(self).participants_deque@[i].id == id {
                        after_request(old(self).participants_deque@[i], impossible)
                    } else {
                        old(self).participants_deque@[i]
                    },
            ));
        }
    }

    /// Notes what the loader reports of the image of the participant at
    /// the given position.
    pub fn record_report(&mut self, index: usize, outcome: LoadOutcome)
        requires
            index < old(self).participants_deque@.len(),
        ensures
            final(self).participants_deque@ == old(self).participants_deque@.update(
                index as int,
                after_report(old(self).participants_deque@[index as int], outcome),
            ),
    {
        let participant = self.participants_deque[index];
        if participant.requested {
            match outcome {
                LoadOutcome::Loaded => {
                    self.participants_deque.set(
                        index,
                        ParticipantInfo {
                            id: participant.id,
                            requested: participant.requested,
                            loaded: true,
                            errored: participant.errored,
                        },
                    );
                },
                LoadOutcome::Failed => {
                    self.participants_deque.set(
                        index,
                        ParticipantInfo {
                            id: participant.id,
                            requested: participant.requested,
                            loaded: participant.loaded,
                            errored: true,
                        },
                    );
                },
                LoadOutcome::Pending => {},
            }
        }
        proof {
            assert(self.participants_deque@ =~= old(self).participants_deque@.update(
                index as int,
                after_report(old(self).participants_deque@[index as int], outcome),
            ));
        }
    }

    /// The positions of the first `wanted` participants whose image is
    /// ready, when there are as many.
    pub fn find_first_loaded_indices(&self, wanted: usize) -> (found: Option<Vec<usize>>)
        ensures
            match found {
                Some(indices) => wanted <= loaded_positions(self.participants_deque@).len()
                    && indices@ == loaded_positions(self.participants_deque@).take(wanted as int),
                None => loaded_positions(self.participants_deque@).len() < wanted,
            },
    {
        let count = self.participants_deque.len();
        let mut indices: Vec<usize> = Vec::new();
        let mut index: usize = 0;
        while index < count && indices.len() < wanted
            invariant
                index <= count == self.participants_deque@.len(),
                indices@ == loaded_positions(self.participants_deque@.take(index as int)),
                indices@.len() <= wanted,
            decreases count - index,
        {
            proof {
                assert(self.participants_deque@.take(index + 1).drop_last()
                    =~= self.participants_deque@.take(index as int));
            }
            if self.participants_deque[index].loaded {
                indices.push(index);
            }
            index += 1;
        }
        proof {
            lemma_loaded_positions_grow(self.participants_deque@, index as int, count as int);
            assert(self.participants_deque@.take(count as int) =~= self.participants_deque@);
        }
        if indices.len() == wanted {
            Some(indices)
        } else {
            None
        }
    }

    /// The ids of the participants that cannot be shown, in order.
    pub fn errored_ids(&self) -> (ids: Vec<u64>)
        ensures
            ids@ == self.participants_deque@.filter(|p: ParticipantInfo| p.errored).map_values(
                |p: ParticipantInfo| p.id,
            ),
    {
        let ghost failed = |p: ParticipantInfo| p.errored;
        let ghost id_of = |p: ParticipantInfo| p.id;
        let mut ids: Vec<u64> = Vec::new();
        let mut index: usize = 0;
        proof {
            assert(self.participants_deque@.take(0).filter(failed).map_values(id_of)
                =~= Seq::<u64>::empty());
        }
        while index < self.participants_deque.len()
            invariant
                index <= self.participants_deque@.len(),
                failed == |p: ParticipantInfo| p.errored,
                id_of == |p: ParticipantInfo| p.id,
                ids@ == self.participants_deque@.take(index as int).filter(failed).map_values(
                    id_of,
                ),
            decreases self.participants_deque@.len() - index,
        {
            proof {
                let seen = self.participants_deque@.take(index as int);
                let next = self.participants_deque@[index as int];
                self.participants_deque@.lemma_take_succ_push(index as int);
                seen.lemma_filter_push(next, failed);
                if next.errored {
                    assert(seen.filter(failed).push(next).map_values(id_of) =~= seen.filter(
                        failed,
                    ).map_values(id_of).push(next.id));
                }
            }
            if self.participants_deque[index].errored {
                ids.push(self.participants_deque[index].id);
            }
            index += 1;
        }
        proof {
            assert(self.participants_deque@.take(index as int) =~= self.participants_deque@);
        }
        ids
    }

    /// Drops the participants that cannot be shown. The others keep their
    /// order.
    pub fn remove_errored(&mut self)
        ensures
            final(self).participants_deque@ == old(self).participants_deque@.filter(
                |p: ParticipantInfo| !p.errored,
            ),
    {
        let ghost shown = |p: ParticipantInfo| !p.errored;
        let mut kept: Vec<ParticipantInfo> = Vec::new();
        let mut index: usize = 0;
        proof {
            assert(self.participants_deque@.take(0).filter(shown) =~= Seq::<
                ParticipantInfo,
            >::empty());
        }
        while index < self.participants_deque.len()
            invariant
                index <= self.participants_deque@.len(),
                self.participants_deque@ == old(self).participants_deque@,
                shown == |p: ParticipantInfo| !p.errored,
                kept@ == self.participants_deque@.take(index as int).filter(shown),
            decreases self.participants_deque@.len() - index,
        {
            proof {
                self.participants_deque@.lemma_take_succ_push(index as int);
                self.participants_deque@.take(index as int).lemma_filter_push(
                    self.participants_deque@[index as int],
                    shown,
                );
            }
            if !self.participants_deque[index].errored {
                kept.push(self.participants_deque[index]);
            }
            index += 1;
        }
        proof {
            assert(self.participants_deque@.take(index as int) =~= self.participants_deque@);
        }
        self.participants_deque = kept;
    }
}

/// The decision that follows without asking anybody when an image of a
/// pairing cannot be shown; none when both can.
pub fn decision_for_failures(a_errored: bool, b_errored: bool) -> (decision: Option<Decision>)
    ensures
        decision == if a_errored && b_errored {
            Some(Decision::BothFailedToRender)
        } else if a_errored {
            Some(Decision::AFailedToRender)
        } else if b_errored {
            Some(Decision::BFailedToRender)
        } else {
            None::<Decision>
        },
{
    if a_errored && b_errored {
        Some(Decision::BothFailedToRender)
    } else if a_errored {
        Some(Decision::AFailedToRender)
    } else if b_errored {
        Some(Decision::BFailedToRender)
    } else {
        None
    }
}

/// The decision that the choice of an item means for a pairing; none when
/// the item chosen is not of the pairing.
pub fn decision_for_choice(pairing: Pairing, chosen: u64) -> (decision: Option<Decision>)
    ensures
        decision == if chosen != 0 && chosen == pairing.a {
            Some(Decision::WinnerIsA)
        } else if chosen != 0 && chosen == pairing.b {
            Some(Decision::WinnerIsB)
        } else {
            None::<Decision>
        },
{
    if chosen != 0 && chosen == pairing.a {
        Some(Decision::WinnerIsA)
    } else if chosen != 0 && chosen == pairing.b {
        Some(Decision::WinnerIsB)
    } else {
        None
    }
}

} // verus!
