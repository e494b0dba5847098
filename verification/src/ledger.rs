//! The match ledger: the append-only record of every decided match and of
//! every round that was closed.

use vstd::prelude::*;
use crate::error::EngineError;

verus! {

/// The id that stands for "no item".
pub const NO_ITEM: u64 = 0;

/// One entry of the ledger.
///
/// A decided pairing names two participants and a winner among them, or no
/// winner when neither could be shown. A bye names one participant and no
/// second one. A round marker names nobody: it is the first record of a
/// round after the first, and says that the round before is closed.
#[derive(Debug, Clone, Copy, PartialEq, Eq, Hash, Structural)]
pub struct MatchRecord {
    /// The round the record belongs to, counted from one.
    pub round_number: u64,
    /// The first participant, or `NO_ITEM`.
    pub participant_a: u64,
    /// The second participant, or `NO_ITEM`.
    pub participant_b: u64,
    /// The participant that advances, or `NO_ITEM`.
    pub winner: u64,
}

impl MatchRecord {
    /// Whether the record names nobody.
    pub open spec fn is_marker(self) -> bool {
        self.participant_a == 0 && self.participant_b == 0 && self.winner == 0
    }

    /// Whether the record has the shape of a decided pairing or of a bye.
    pub open spec fn is_match(self) -> bool {
        &&& self.participant_a != 0
        &&& self.participant_a != self.participant_b
        &&& (self.winner == self.participant_a || self.winner == self.participant_b || self.winner
            == 0)
    }

    /// Whether the item `id` is one of the participants.
    pub open spec fn takes_part(self, id: u64) -> bool {
        id != 0 && (self.participant_a == id || self.participant_b == id)
    }

    /// Whether the item `id` takes part and does not advance.
    pub open spec fn loses(self, id: u64) -> bool {
        self.takes_part(id) && self.winner != id
    }

    /// The marker that opens the given round.
    pub fn round_marker(round_number: u64) -> (record: MatchRecord)
        ensures
            record == (MatchRecord { round_number, participant_a: 0, participant_b: 0, winner: 0 }),
    {
        MatchRecord { round_number, participant_a: NO_ITEM, participant_b: NO_ITEM, winner: NO_ITEM }
    }

    /// The record of a bye: `participant` advances without an opponent.
    pub fn bye(round_number: u64, participant: u64) -> (record: MatchRecord)
        ensures
            record == (MatchRecord {
                round_number,
                participant_a: participant,
                participant_b: 0,
                winner: participant,
            }),
    {
        MatchRecord {
            round_number,
            participant_a: participant,
            participant_b: NO_ITEM,
            winner: participant,
        }
    }

    /// Whether the record names nobody.
    pub fn names_nobody(&self) -> (marker: bool)
        ensures
            marker == self.is_marker(),
    {
        self.participant_a == NO_ITEM && self.participant_b == NO_ITEM && self.winner == NO_ITEM
    }

    /// Whether the record has the shape of a decided pairing or of a bye.
    pub fn names_a_match(&self) -> (shaped: bool)
        ensures
            shaped == self.is_match(),
    {
        self.participant_a != NO_ITEM && self.participant_a != self.participant_b && (self.winner
            == self.participant_a || self.winner == self.participant_b || self.winner == NO_ITEM)
    }

    /// Whether the item `id` is one of the participants.
    pub fn involves(&self, id: u64) -> (involved: bool)
        ensures
            involved == self.takes_part(id),
    {
        id != NO_ITEM && (self.participant_a == id || self.participant_b == id)
    }
}

/// The round in progress once the first `count` records are written.
pub open spec fn round_after(records: Seq<MatchRecord>, count: int) -> u64 {
    if count <= 0 {
        1
    } else {
        records[count - 1].round_number
    }
}

/// Whether the record at `index` continues the records before it: a match
/// stays in the round in progress, a marker opens the next one and is never
/// the first record.
pub open spec fn continues(records: Seq<MatchRecord>, index: int) -> bool {
    let record = records[index];
    if record.is_marker() {
        index > 0 && record.round_number == round_after(records, index) + 1
    } else {
        record.is_match() && record.round_number == round_after(records, index)
    }
}

/// Whether every record continues the records before it.
pub open spec fn chained(records: Seq<MatchRecord>) -> bool {
    forall|j: int| 0 <= j < records.len() ==> #[trigger] continues(records, j)
}

/// The highest round number on record, or one for an empty ledger.
pub open spec fn latest_round(records: Seq<MatchRecord>) -> u64
    decreases records.len(),
{
    if records.len() == 0 {
        1
    } else if records.last().round_number > latest_round(records.drop_last()) {
        records.last().round_number
    } else {
        latest_round(records.drop_last())
    }
}

/// In a chained ledger a record at position `j` has a round number between
/// one and `j + 1`, and round numbers never fall.
pub proof fn lemma_rounds_ascend(records: Seq<MatchRecord>, i: int, j: int)
    requires
        chained(records),
        0 <= i <= j < records.len(),
    ensures
        1 <= records[i].round_number <= records[j].round_number <= j + 1,
    decreases j,
{
    assert(continues(records, j));
    if j > 0 {
        if i < j {
            lemma_rounds_ascend(records, i, j - 1);
        } else {
            lemma_rounds_ascend(records, j - 1, j - 1);
        }
    }
}

/// In a chained ledger the highest round number is that of the last record.
pub proof fn lemma_latest_round_is_last(records: Seq<MatchRecord>)
    requires
        chained(records),
    ensures
        latest_round(records) == round_after(records, records.len() as int),
    decreases records.len(),
{
    if records.len() > 0 {
        let front = records.drop_last();
        assert forall|j: int| 0 <= j < front.len() implies #[trigger] continues(front, j) by {
            assert(continues(records, j));
        }
        lemma_latest_round_is_last(front);
        if front.len() > 0 {
            lemma_rounds_ascend(records, front.len() - 1, records.len() - 1);
        } else {
            lemma_rounds_ascend(records, 0, 0);
        }
    }
}

/// A chained ledger stays chained when a record that continues it is added,
/// and only then.
pub proof fn lemma_chained_push(records: Seq<MatchRecord>, record: MatchRecord)
    ensures
        chained(records.push(record)) <==> chained(records) && continues(
            records.push(record),
            records.len() as int,
        ),
{
    let longer = records.push(record);
    if chained(longer) {
        assert forall|j: int| 0 <= j < records.len() implies #[trigger] continues(records, j) by {
            assert(continues(longer, j));
        }
    }
    if chained(records) && continues(longer, records.len() as int) {
        assert forall|j: int| 0 <= j < longer.len() implies #[trigger] continues(longer, j) by {
            if j < records.len() {
                assert(continues(records, j));
            }
        }
    }
}

/// Whether the item has lost a match among the first `count` records.
pub open spec fn lost_before(records: Seq<MatchRecord>, id: u64, count: int) -> bool {
    exists|i: int| 0 <= i < count && i < records.len() && (#[trigger] records[i]).loses(id)
}

/// Whether the item takes part in a record of the given round among the
/// first `count` records.
pub open spec fn paired_before(records: Seq<MatchRecord>, id: u64, round: u64, count: int) -> bool {
    exists|i: int|
        0 <= i < count && i < records.len() && (#[trigger] records[i]).round_number == round
            && records[i].takes_part(id)
}

/// The number of decided pairings, byes left aside, that the item has won.
pub open spec fn wins_of(records: Seq<MatchRecord>, id: u64) -> nat
    decreases records.len(),
{
    if records.len() == 0 {
        0
    } else if records.last().winner == id && records.last().participant_b != 0 {
        wins_of(records.drop_last(), id) + 1
    } else {
        wins_of(records.drop_last(), id)
    }
}

/// Nobody has won more pairings than there are records.
pub proof fn lemma_wins_bounded(records: Seq<MatchRecord>, id: u64)
    ensures
        wins_of(records, id) <= records.len(),
    decreases records.len(),
{
    if records.len() > 0 {
        lemma_wins_bounded(records.drop_last(), id);
    }
}

/// The append-only ledger of a tournament, with the mark that says the
/// tournament is over.
#[derive(Debug, Clone, PartialEq, Eq)]
pub struct Ledger {
    records: Vec<MatchRecord>,
    finished: bool,
}

impl View for Ledger {
    type V = Seq<MatchRecord>;

    closed spec fn view(&self) -> Seq<MatchRecord> {
        self.records@
    }
}

impl Ledger {
    /// Whether the tournament is marked as over.
    pub closed spec fn finished(&self) -> bool {
        self.finished
    }

    /// The invariant of a ledger: every record continues the ones before.
    pub open spec fn wf(&self) -> bool {
        chained(self@)
    }

    /// A ledger without records, for a tournament that has not begun.
    pub fn new() -> (ledger: Ledger)
        ensures
            ledger@ == Seq::<MatchRecord>::empty(),
            !ledger.finished(),
            ledger.wf(),
    {
        Ledger { records: Vec::new(), finished: false }
    }

    /// Takes over persisted records, provided that each continues the ones
    /// before it.
    pub fn from_records(records: Vec<MatchRecord>, finished: bool) -> (made: Result<
        Ledger,
        EngineError,
    >)
        ensures
            match made {
                Ok(ledger) => chained(records@) && ledger@ == records@ && ledger.finished()
                    == finished && ledger.wf(),
                Err(e) => e == EngineError::LedgerCorrupt && !chained(records@),
            },
    {
        let mut index: usize = 0;
        let mut round: u64 = 1;
        while index < records.len()
            invariant
                index <= records@.len(),
                round == round_after(records@, index as int),
                forall|j: int| 0 <= j < index ==> #[trigger] continues(records@, j),
            decreases records@.len() - index,
        {
            let record = records[index];
            let fits = if record.names_nobody() {
                index > 0 && round < u64::MAX && record.round_number == round + 1
            } else {
                record.names_a_match() && record.round_number == round
            };
            if !fits {
                proof {
                    assert(!continues(records@, index as int));
                }
                return Err(EngineError::LedgerCorrupt);
            }
            round = record.round_number;
            index += 1;
        }
        Ok(Ledger { records, finished })
    }

    /// The number of records.
    pub fn len(&self) -> (n: usize)
        ensures
            n == self@.len(),
    {
        self.records.len()
    }

    /// The record at position `index`.
    pub fn record(&self, index: usize) -> (record: MatchRecord)
        requires
            index < self@.len(),
        ensures
            record == self@[index as int],
    {
        self.records[index]
    }

    /// Whether the tournament is marked as over.
    pub fn is_tournament_finished(&self) -> (over: bool)
        ensures
            over == self.finished(),
    {
        self.finished
    }

    /// Marks the tournament as over. The records stay as they are.
    pub fn mark_finished(&mut self)
        ensures
            final(self)@ == old(self)@,
            final(self).finished(),
    {
        self.finished = true;
    }

    /// The highest round number on record, or one for an empty ledger.
    pub fn latest_round_number(&self) -> (round: u64)
        requires
            self.wf(),
        ensures
            round == latest_round(self@),
            round == round_after(self@, self@.len() as int),
    {
        proof {
            lemma_latest_round_is_last(self.records@);
        }
        let n = self.records.len();
        if n == 0 {
            1
        } else {
            self.records[n - 1].round_number
        }
    }

    /// All records of the given round, in the order in which they were
    /// written.
    pub fn matches_in_round(&self, round_number: u64) -> (found: Vec<MatchRecord>)
        ensures
            found@ == self@.filter(|record: MatchRecord| record.round_number == round_number),
    {
        let ghost of_round = |record: MatchRecord| record.round_number == round_number;
        let mut found: Vec<MatchRecord> = Vec::new();
        let mut index: usize = 0;
        proof {
            assert(self.records@.take(0).filter(of_round) =~= Seq::<MatchRecord>::empty());
        }
        while index < self.records.len()
            invariant
                index <= self.records@.len(),
                of_round == |record: MatchRecord| record.round_number == round_number,
                found@ == self.records@.take(index as int).filter(of_round),
            decreases self.records@.len() - index,
        {
            proof {
                self.records@.lemma_take_succ_push(index as int);
                self.records@.take(index as int).lemma_filter_push(
                    self.records@[index as int],
                    of_round,
                );
            }
            if self.records[index].round_number == round_number {
                found.push(self.records[index]);
            }
            index += 1;
        }
        proof {
            assert(self.records@.take(index as int) =~= self.records@);
        }
        found
    }

    /// Whether the item has lost a match on record.
    pub fn has_lost(&self, id: u64) -> (lost: bool)
        ensures
            lost == lost_before(self@, id, self@.len() as int),
    {
        let mut index: usize = 0;
        while index < self.records.len()
            invariant
                index <= self.records@.len(),
                !lost_before(self.records@, id, index as int),
            decreases self.records@.len() - index,
        {
            let record = self.records[index];
            if record.involves(id) && record.winner != id {
                return true;
            }
            index += 1;
        }
        false
    }

    /// Whether the item takes part in a record of the given round.
    pub fn has_paired(&self, id: u64, round_number: u64) -> (paired: bool)
        ensures
            paired == paired_before(self@, id, round_number, self@.len() as int),
    {
        let mut index: usize = 0;
        while index < self.records.len()
            invariant
                index <= self.records@.len(),
                !paired_before(self.records@, id, round_number, index as int),
            decreases self.records@.len() - index,
        {
            let record = self.records[index];
            if record.round_number == round_number && record.involves(id) {
                return true;
            }
            index += 1;
        }
        false
    }

    /// The number of decided pairings, byes left aside, that the item has
    /// won.
    pub fn wins(&self, id: u64) -> (wins: usize)
        ensures
            wins == wins_of(self@, id),
    {
        let mut wins: usize = 0;
        let mut index: usize = 0;
        while index < self.records.len()
            invariant
                index <= self.records@.len(),
                wins == wins_of(self.records@.take(index as int), id),
                wins <= index,
            decreases self.records@.len() - index,
        {
            proof {
                assert(self.records@.take(index + 1).drop_last() =~= self.records@.take(
                    index as int,
                ));
            }
            let record = self.records[index];
            if record.winner == id && record.participant_b != NO_ITEM {
                wins += 1;
            }
            index += 1;
        }
        proof {
            assert(self.records@.take(index as int) =~= self.records@);
        }
        wins
    }

    /// Appends a record. It is taken when the tournament is not marked as
    /// over and the record continues the ledger; else the ledger stays as
    /// it is.
    pub fn append(&mut self, record: MatchRecord) -> (outcome: Result<(), EngineError>)
        requires
            old(self).wf(),
        ensures
            final(self).wf(),
            final(self).finished() == old(self).finished(),
            match outcome {
                Ok(()) => !old(self).finished() && continues(
                    old(self)@.push(record),
                    old(self)@.len() as int,
                ) && final(self)@ == old(self)@.push(record),
                Err(e) => e == EngineError::InvalidMatch && final(self)@ == old(self)@ && (old(
                    self,
                ).finished() || !continues(old(self)@.push(record), old(self)@.len() as int)),
            },
    {
        let round = self.latest_round_number();
        let fits = if record.names_nobody() {
            self.records.len() > 0 && round < u64::MAX && record.round_number == round + 1
        } else {
            record.names_a_match() && record.round_number == round
        };
        if self.finished || !fits {
            return Err(EngineError::InvalidMatch);
        }
        proof {
            lemma_chained_push(self.records@, record);
        }
        self.records.push(record);
        Ok(())
    }

    /// Closes the round in progress by writing the marker of the next one,
    /// and returns the number of the round so opened. A round without any
    /// record cannot be closed, nor one of a tournament marked as over.
    pub fn open_next_round(&mut self) -> (outcome: Result<u64, EngineError>)
        requires
            old(self).wf(),
        ensures
            final(self).wf(),
            final(self).finished() == old(self).finished(),
            match outcome {
                Ok(round) => {
                    &&& !old(self).finished()
                    &&& old(self)@.len() > 0
                    &&& round == latest_round(old(self)@) + 1
                    &&& final(self)@ == old(self)@.push(
                        MatchRecord { round_number: round, participant_a: 0, participant_b: 0, winner: 0 },
                    )
                },
                Err(e) => e == EngineError::InvalidMatch && final(self)@ == old(self)@ && (old(
                    self,
                ).finished() || old(self)@.len() == 0),
            },
    {
        let count = self.records.len();
        if self.finished || count == 0 {
            return Err(EngineError::InvalidMatch);
        }
        let round = self.latest_round_number();
        // The slot is taken before the marker is stamped: that the ledger
        // can grow by one record bounds the round number.
        self.records.push(MatchRecord::round_marker(round));
        let grown = self.records.len();
        proof {
            lemma_rounds_ascend(old(self)@, count - 1, count - 1);
            assert(round <= count < grown);
        }
        let next = round + 1;
        self.records.set(count, MatchRecord::round_marker(next));
        proof {
            let marker = MatchRecord { round_number: next, participant_a: 0, participant_b: 0, winner: 0 };
            assert(self.records@ =~= old(self)@.push(marker));
            lemma_chained_push(old(self)@, marker);
        }
        Ok(next)
    }
}

} // verus!
