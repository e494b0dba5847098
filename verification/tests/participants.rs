use find_my_fav::catalog::Catalog;
use find_my_fav::ledger::MatchRecord;
use find_my_fav::participants::{
    decision_for_choice, decision_for_failures, LoadOutcome, ParticipantInfo, ParticipantsDeque,
    Presentation,
};
use find_my_fav::scheduler::Schedule;
use find_my_fav::tournament::{Decision, Pairing, Tournament};

fn participant(id: u64, requested: bool, loaded: bool, errored: bool) -> ParticipantInfo {
    ParticipantInfo { id, requested, loaded, errored }
}

fn deque_of(ids: &[u64]) -> ParticipantsDeque {
    let mut deque = ParticipantsDeque::new();
    for id in ids {
        deque.push_back(*id);
    }
    deque
}

#[test]
fn participants_start_without_images() {
    let mut deque = ParticipantsDeque::new();
    deque.push_pairing(Pairing { a: 4, b: 9 });
    deque.push_pairing(Pairing { a: 7, b: 0 });
    assert_eq!(
        deque.participants_deque,
        vec![
            participant(4, false, false, false),
            participant(9, false, false, false),
            participant(7, false, false, false),
        ]
    );
    assert_eq!(deque.position_of(9), Some(1));
    assert_eq!(deque.position_of(5), None);
}

#[test]
fn requests_and_reports_change_the_state_of_an_image() {
    let mut deque = deque_of(&[1, 2, 3]);
    deque.record_report(0, LoadOutcome::Loaded);
    assert_eq!(deque.participants_deque[0], participant(1, false, false, false));

    deque.mark_requested(1, false);
    deque.mark_requested(2, true);
    assert_eq!(deque.participants_deque[0], participant(1, true, false, false));
    assert_eq!(deque.participants_deque[1], participant(2, false, false, true));
    assert_eq!(deque.participants_deque[2], participant(3, false, false, false));

    deque.record_report(0, LoadOutcome::Pending);
    assert_eq!(deque.participants_deque[0], participant(1, true, false, false));
    deque.record_report(0, LoadOutcome::Loaded);
    assert_eq!(deque.participants_deque[0], participant(1, true, true, false));
    deque.mark_requested(3, false);
    deque.record_report(2, LoadOutcome::Failed);
    assert_eq!(deque.participants_deque[2], participant(3, true, false, true));
    assert_eq!(deque.errored_ids(), vec![2, 3]);
    deque.remove_errored();
    assert_eq!(deque.participants_deque, vec![participant(1, true, true, false)]);
}

#[test]
fn first_loaded_indices_are_found_in_order() {
    let mut deque = deque_of(&[1, 2, 3, 4, 5]);
    for id in [2, 4, 5] {
        deque.mark_requested(id, false);
    }
    deque.record_report(1, LoadOutcome::Loaded);
    deque.record_report(3, LoadOutcome::Loaded);
    assert_eq!(deque.find_first_loaded_indices(0), Some(vec![]));
    assert_eq!(deque.find_first_loaded_indices(1), Some(vec![1]));
    assert_eq!(deque.find_first_loaded_indices(2), Some(vec![1, 3]));
    assert_eq!(deque.find_first_loaded_indices(3), None);
    deque.record_report(4, LoadOutcome::Loaded);
    assert_eq!(deque.find_first_loaded_indices(2), Some(vec![1, 3]));
    assert_eq!(deque.find_first_loaded_indices(3), Some(vec![1, 3, 4]));
}

#[test]
fn next_step_waits_shows_or_decides() {
    let pairing = Pairing { a: 1, b: 2 };
    let mut deque = deque_of(&[3, 1, 2]);
    assert_eq!(deque.next_step(pairing), Presentation::Wait);
    assert_eq!(deque.next_step(Pairing { a: 8, b: 2 }), Presentation::Wait);
    assert_eq!(deque.next_step(Pairing { a: 1, b: 8 }), Presentation::Wait);

    deque.mark_requested(1, false);
    deque.mark_requested(2, false);
    deque.record_report(1, LoadOutcome::Loaded);
    assert_eq!(deque.next_step(pairing), Presentation::Wait);
    deque.record_report(2, LoadOutcome::Loaded);
    assert_eq!(deque.next_step(pairing), Presentation::Show { first: 1, second: 2 });
    assert_eq!(
        deque.next_step(Pairing { a: 2, b: 1 }),
        Presentation::Show { first: 2, second: 1 }
    );

    deque.record_report(2, LoadOutcome::Failed);
    assert_eq!(
        deque.next_step(pairing),
        Presentation::Decide { decision: Decision::BFailedToRender }
    );
    deque.record_report(1, LoadOutcome::Failed);
    assert_eq!(
        deque.next_step(pairing),
        Presentation::Decide { decision: Decision::BothFailedToRender }
    );

    let bye = Pairing { a: 3, b: 0 };
    assert_eq!(deque.next_step(bye), Presentation::Wait);
    deque.mark_requested(3, false);
    deque.record_report(0, LoadOutcome::Loaded);
    assert_eq!(deque.next_step(bye), Presentation::Decide { decision: Decision::WinnerIsA });
    deque.record_report(0, LoadOutcome::Failed);
    assert_eq!(
        deque.next_step(bye),
        Presentation::Decide { decision: Decision::AFailedToRender }
    );

    deque.remove_pairing(pairing);
    assert_eq!(deque.participants_deque.len(), 1);
    assert_eq!(deque.participants_deque[0].id, 3);
}

#[test]
fn decisions_follow_failures_and_choices() {
    assert_eq!(decision_for_failures(false, false), None);
    assert_eq!(decision_for_failures(true, false), Some(Decision::AFailedToRender));
    assert_eq!(decision_for_failures(false, true), Some(Decision::BFailedToRender));
    assert_eq!(decision_for_failures(true, true), Some(Decision::BothFailedToRender));

    let pairing = Pairing { a: 4, b: 9 };
    assert_eq!(decision_for_choice(pairing, 4), Some(Decision::WinnerIsA));
    assert_eq!(decision_for_choice(pairing, 9), Some(Decision::WinnerIsB));
    assert_eq!(decision_for_choice(pairing, 5), None);
    assert_eq!(decision_for_choice(Pairing { a: 4, b: 0 }, 0), None);
}

#[test]
fn closed_round_holds_every_live_item_exactly_once() {
    let mut catalog = Catalog::new();
    for number in 1..=7 {
        catalog.add_item(format!("{}.png", number));
    }
    let mut tournament = Tournament::new(catalog).unwrap();
    let mut live_at_start: Vec<Vec<u64>> = Vec::new();
    let mut seed = 0;
    loop {
        seed += 1;
        match tournament.schedule_with_seed(seed) {
            Schedule::Finished { .. } => break,
            Schedule::Round { round_number, pairings } => {
                assert_eq!(round_number as usize, live_at_start.len() + 1);
                live_at_start.push(tournament.catalog().list_live_items());
                for (index, pairing) in pairings.iter().enumerate() {
                    let decision = if pairing.b == 0 {
                        Decision::WinnerIsA
                    } else if index % 2 == 0 {
                        Decision::WinnerIsB
                    } else {
                        Decision::BFailedToRender
                    };
                    assert_eq!(tournament.resolve(*pairing, decision), Ok(()));
                }
            }
        }
    }
    let ledger = tournament.ledger();
    let records: Vec<MatchRecord> = (0..ledger.len()).map(|i| ledger.record(i)).collect();
    let closed_rounds = records
        .iter()
        .filter(|r| r.participant_a == 0 && r.participant_b == 0 && r.winner == 0)
        .count();
    assert_eq!(closed_rounds, 2);
    for round in 1..=closed_rounds {
        for id in &live_at_start[round - 1] {
            let appearances = records
                .iter()
                .filter(|r| r.round_number == round as u64)
                .filter(|r| r.participant_a == *id || r.participant_b == *id)
                .count();
            assert_eq!(appearances, 1);
        }
    }
    // An item out of play never comes back, and no rating ever falls.
    let mut out: Vec<u64> = Vec::new();
    let mut replay = {
        let mut catalog = Catalog::new();
        for number in 1..=7 {
            catalog.add_item(format!("{}.png", number));
        }
        Tournament::new(catalog).unwrap()
    };
    for record in &records {
        let ratings_before: Vec<u64> =
            (1..=7).map(|id| replay.catalog().get(id).unwrap().rating).collect();
        if record.participant_a == 0 {
            assert!(replay.close_round().is_ok());
        } else {
            let decision = if record.winner == record.participant_a {
                Decision::WinnerIsA
            } else if record.winner == 0 {
                Decision::BothFailedToRender
            } else {
                Decision::WinnerIsB
            };
            let pairing = Pairing { a: record.participant_a, b: record.participant_b };
            assert_eq!(replay.resolve(pairing, decision), Ok(()));
        }
        for id in 1..=7u64 {
            let item = replay.catalog().get(id).unwrap();
            assert!(item.rating >= ratings_before[(id - 1) as usize]);
            assert!(item.rating <= ratings_before[(id - 1) as usize] + 1);
            if out.contains(&id) {
                assert!(item.eliminated);
            } else if item.eliminated {
                out.push(id);
            }
        }
    }
}
