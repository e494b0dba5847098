//! How a field of items shrinks from round to round: how many items are
//! left, how many matches a round has, how many rounds are needed.

use vstd::prelude::*;

verus! {

/// The number of items left of `total` when `rounds` rounds are played and
/// each round leaves one item of every pairing and the item with a bye.
pub open spec fn remaining_after(total: nat, rounds: nat) -> nat
    decreases rounds,
{
    if rounds == 0 {
        total
    } else {
        (remaining_after(total, (rounds - 1) as nat) + 1) / 2
    }
}

/// The number of rounds after which at most one of `total` items is left:
/// the least `k` with `2^k >= total`.
pub open spec fn rounds_needed(total: nat) -> nat
    decreases total,
{
    if total <= 1 {
        0
    } else {
        1 + rounds_needed((total + 1) / 2)
    }
}

/// The number of matches, a bye counted as one, in the given round of a
/// tournament of `total` items. A tournament of fewer than two items has
/// no matches, and there is no round zero.
pub open spec fn matches_in_round(total: nat, round: nat) -> nat {
    if round < 1 || total < 2 {
        0
    } else {
        (remaining_after(total, (round - 1) as nat) + 1) / 2
    }
}

/// The number of matches in the rounds up to and including the given one.
pub open spec fn matches_until(total: nat, round: nat) -> nat
    decreases round,
{
    if round == 0 {
        0
    } else {
        matches_until(total, (round - 1) as nat) + matches_in_round(total, round)
    }
}

/// Playing one round and then `rounds` more is playing `rounds + 1`.
pub proof fn lemma_remaining_shift(total: nat, rounds: nat)
    ensures
        remaining_after((total + 1) / 2, rounds) == remaining_after(total, rounds + 1),
    decreases rounds,
{
    assert(remaining_after(total, rounds + 1) == (remaining_after(total, rounds) + 1) / 2);
    if rounds > 0 {
        lemma_remaining_shift(total, (rounds - 1) as nat);
        assert(remaining_after(total, rounds) == (remaining_after(total, (rounds - 1) as nat) + 1)
            / 2);
    }
}

/// More rounds never leave more items.
pub proof fn lemma_remaining_fades(total: nat, fewer: nat, more: nat)
    requires
        fewer <= more,
    ensures
        remaining_after(total, more) <= remaining_after(total, fewer),
    decreases more,
{
    if more > fewer {
        lemma_remaining_fades(total, fewer, (more - 1) as nat);
    }
}

/// No more rounds are needed than there are items.
pub proof fn lemma_rounds_needed_bounded(total: nat)
    ensures
        rounds_needed(total) <= total,
    decreases total,
{
    if total > 1 {
        lemma_rounds_needed_bounded((total + 1) / 2);
    }
}

/// After the rounds needed, at most one item is left.
pub proof fn lemma_rounds_needed_suffice(total: nat)
    ensures
        remaining_after(total, rounds_needed(total)) <= 1,
    decreases total,
{
    if total > 1 {
        lemma_rounds_needed_suffice((total + 1) / 2);
        lemma_remaining_shift(total, rounds_needed((total + 1) / 2));
    }
}

/// Once a single item is left, a single item stays.
pub proof fn lemma_remaining_settles(total: nat, settled: nat, rounds: nat)
    requires
        settled <= rounds,
        remaining_after(total, settled) == 1,
    ensures
        remaining_after(total, rounds) == 1,
    decreases rounds,
{
    if rounds > settled {
        lemma_remaining_settles(total, settled, (rounds - 1) as nat);
    }
}

/// The number of rounds that a tournament of `total_images` items needs:
/// none for fewer than two items, else the least `k` with
/// `2^k >= total_images`.
pub fn get_total_number_of_rounds(total_images: u64) -> (rounds: u64)
    ensures
        rounds == rounds_needed(total_images as nat),
{
    let mut left: u64 = total_images;
    let mut rounds: u64 = 0;
    proof {
        lemma_rounds_needed_bounded(total_images as nat);
    }
    while left > 1
        invariant
            rounds + rounds_needed(left as nat) == rounds_needed(total_images as nat),
            rounds_needed(total_images as nat) <= total_images,
        decreases left,
    {
        left = left / 2 + left % 2;
        rounds += 1;
    }
    rounds
}

/// The number of matches, a bye counted as one, in the given round of a
/// tournament of `total_images` items.
pub fn get_number_of_matches(total_images: u64, round_number: u64) -> (matches: u64)
    ensures
        matches == matches_in_round(total_images as nat, round_number as nat),
        matches <= total_images,
{
    if round_number < 1 || total_images < 2 {
        return 0;
    }
    let mut remaining: u64 = total_images;
    let mut played: u64 = 1;
    while played < round_number && remaining > 1
        invariant
            1 <= played <= round_number,
            1 <= remaining <= total_images,
            remaining == remaining_after(total_images as nat, (played - 1) as nat),
        decreases round_number - played,
    {
        remaining = remaining / 2 + remaining % 2;
        played += 1;
    }
    proof {
        if played < round_number {
            lemma_remaining_settles(
                total_images as nat,
                (played - 1) as nat,
                (round_number - 1) as nat,
            );
        }
    }
    remaining / 2 + remaining % 2
}

/// Matches played and items left together never exceed the items at the
/// start by more than the number of rounds.
pub proof fn lemma_matches_until_bounded(total: nat, round: nat)
    ensures
        total < 2 ==> matches_until(total, round) == 0,
        matches_until(total, round) + remaining_after(total, round) <= total + round,
    decreases round,
{
    if round > 0 {
        lemma_matches_until_bounded(total, (round - 1) as nat);
    }
}

/// Once a single item is left, every further round counts one match.
pub proof fn lemma_matches_after_settling(total: nat, settled: nat, round: nat)
    requires
        total >= 2,
        settled <= round,
        remaining_after(total, settled) == 1,
    ensures
        matches_until(total, round) == matches_until(total, settled) + (round - settled),
    decreases round,
{
    if round > settled {
        lemma_matches_after_settling(total, settled, (round - 1) as nat);
        lemma_remaining_settles(total, settled, (round - 1) as nat);
    }
}

/// The number of matches, byes counted, in all rounds up to and including
/// the given one.
pub fn get_total_number_of_matches_until_now(total_images: u64, round_number: u64) -> (matches:
    u64)
    requires
        total_images + round_number <= u64::MAX,
    ensures
        matches == matches_until(total_images as nat, round_number as nat),
{
    if total_images < 2 {
        proof {
            lemma_matches_until_bounded(total_images as nat, round_number as nat);
        }
        return 0;
    }
    let mut remaining: u64 = total_images;
    let mut played: u64 = 0;
    let mut matches: u64 = 0;
    while played < round_number && remaining > 1
        invariant
            total_images >= 2,
            total_images + round_number <= u64::MAX,
            played <= round_number,
            1 <= remaining,
            remaining == remaining_after(total_images as nat, played as nat),
            matches == matches_until(total_images as nat, played as nat),
            matches + remaining <= total_images + played,
        decreases round_number - played,
    {
        proof {
            lemma_matches_until_bounded(total_images as nat, (played + 1) as nat);
        }
        let half = remaining / 2 + remaining % 2;
        matches += half;
        remaining = half;
        played += 1;
    }
    proof {
        if played < round_number {
            lemma_matches_after_settling(
                total_images as nat,
                played as nat,
                round_number as nat,
            );
        }
    }
    matches + (round_number - played)
}

} // verus!
