use find_my_fav::catalog::{Catalog, Item};
use find_my_fav::error::EngineError;
use find_my_fav::ledger::{Ledger, MatchRecord};
use find_my_fav::scheduler::{draw_pairings, pair_up, Schedule};
use find_my_fav::tournament::{Decision, Pairing, ResumePoint, Tournament};

fn catalog_of(count: u64) -> Catalog {
    let mut catalog = Catalog::new();
    for number in 1..=count {
        let id = catalog.add_item(format!("images/{}.png", number));
        assert_eq!(id, Some(number));
    }
    catalog
}

fn tournament_of(count: u64) -> Tournament {
    Tournament::new(catalog_of(count)).unwrap()
}

fn round_of(schedule: Schedule) -> (u64, Vec<Pairing>) {
    match schedule {
        Schedule::Round { round_number, pairings } => (round_number, pairings),
        Schedule::Finished { .. } => panic!("the tournament is not over"),
    }
}

fn rating_of(tournament: &Tournament, id: u64) -> u64 {
    tournament.catalog().get(id).unwrap().rating
}

fn is_out(tournament: &Tournament, id: u64) -> bool {
    tournament.catalog().get(id).unwrap().eliminated
}

fn records_of(ledger: &Ledger) -> Vec<MatchRecord> {
    (0..ledger.len()).map(|index| ledger.record(index)).collect()
}

fn items_of(catalog: &Catalog) -> Vec<Item> {
    (0..catalog.len()).map(|index| catalog.item(index).clone()).collect()
}

#[test]
fn odd_count_gives_two_pairings_and_a_bye() {
    let mut tournament = tournament_of(5);
    let (round, pairings) = round_of(tournament.schedule_with_seed(7));
    assert_eq!(round, 1);
    assert_eq!(pairings.len(), 3);
    assert!(pairings[0].b != 0);
    assert!(pairings[1].b != 0);
    assert_eq!(pairings[2].b, 0);
    let mut seen: Vec<u64> = pairings.iter().flat_map(|p| vec![p.a, p.b]).filter(|id| *id != 0).collect();
    seen.sort();
    assert_eq!(seen, vec![1, 2, 3, 4, 5]);

    for pairing in &pairings {
        assert_eq!(tournament.resolve(*pairing, Decision::WinnerIsA), Ok(()));
    }
    assert_eq!(tournament.ledger().len(), 3);
    assert_eq!(tournament.catalog().list_live_items().len(), 3);
    assert_eq!(rating_of(&tournament, pairings[2].a), 0);
    assert!(!is_out(&tournament, pairings[2].a));

    let (next_round, next_pairings) = round_of(tournament.schedule_with_seed(7));
    assert_eq!(next_round, 2);
    assert_eq!(next_pairings.len(), 2);
    let ledger = tournament.ledger();
    assert_eq!(ledger.len(), 4);
    assert_eq!(
        ledger.record(3),
        MatchRecord { round_number: 2, participant_a: 0, participant_b: 0, winner: 0 }
    );
    assert_eq!(ledger.latest_round_number(), 2);
    assert_eq!(tournament.pending(2).len(), 3);
}

#[test]
fn bye_is_refused_while_others_wait() {
    let mut tournament = tournament_of(3);
    assert_eq!(
        tournament.resolve(Pairing { a: 1, b: 0 }, Decision::WinnerIsA),
        Err(EngineError::InvalidMatch)
    );
    assert_eq!(tournament.resolve(Pairing { a: 2, b: 3 }, Decision::WinnerIsB), Ok(()));
    assert_eq!(tournament.resolve(Pairing { a: 1, b: 0 }, Decision::WinnerIsA), Ok(()));
    assert_eq!(
        tournament.ledger().record(1),
        MatchRecord { round_number: 1, participant_a: 1, participant_b: 0, winner: 1 }
    );
    assert_eq!(rating_of(&tournament, 1), 0);
    assert_eq!(rating_of(&tournament, 3), 1);
}

#[test]
fn mutual_render_failure_removes_both() {
    let mut tournament = tournament_of(4);
    assert_eq!(
        tournament.resolve(Pairing { a: 1, b: 2 }, Decision::BothFailedToRender),
        Ok(())
    );
    assert!(is_out(&tournament, 1));
    assert!(is_out(&tournament, 2));
    assert_eq!(rating_of(&tournament, 1), 0);
    assert_eq!(rating_of(&tournament, 2), 0);
    assert_eq!(
        tournament.ledger().record(0),
        MatchRecord { round_number: 1, participant_a: 1, participant_b: 2, winner: 0 }
    );
    assert_eq!(tournament.pending(1), vec![3, 4]);

    assert_eq!(tournament.resolve(Pairing { a: 3, b: 4 }, Decision::WinnerIsA), Ok(()));
    assert_eq!(tournament.pending(1), Vec::<u64>::new());
    assert_eq!(
        tournament.schedule_with_seed(1),
        Schedule::Finished { champion: Some(3) }
    );
    assert_eq!(tournament.pending(2), vec![3]);
    assert!(tournament.ledger().is_tournament_finished());
}

#[test]
fn render_failure_advances_without_a_point() {
    let mut tournament = tournament_of(4);
    assert_eq!(tournament.resolve(Pairing { a: 1, b: 2 }, Decision::AFailedToRender), Ok(()));
    assert_eq!(tournament.resolve(Pairing { a: 3, b: 4 }, Decision::BFailedToRender), Ok(()));
    assert!(is_out(&tournament, 1));
    assert!(!is_out(&tournament, 2));
    assert!(!is_out(&tournament, 3));
    assert!(is_out(&tournament, 4));
    assert_eq!(rating_of(&tournament, 2), 0);
    assert_eq!(rating_of(&tournament, 3), 0);
    assert_eq!(tournament.ledger().record(0).winner, 2);
    assert_eq!(tournament.ledger().record(1).winner, 3);
}

#[test]
fn normal_win_gives_exactly_one_point() {
    let mut tournament = tournament_of(2);
    assert_eq!(tournament.resolve(Pairing { a: 2, b: 1 }, Decision::WinnerIsA), Ok(()));
    assert_eq!(rating_of(&tournament, 2), 1);
    assert_eq!(rating_of(&tournament, 1), 0);
    assert!(is_out(&tournament, 1));
    assert!(!is_out(&tournament, 2));
    assert_eq!(
        tournament.ledger().record(0),
        MatchRecord { round_number: 1, participant_a: 2, participant_b: 1, winner: 2 }
    );
    assert_eq!(
        tournament.schedule_with_seed(3),
        Schedule::Finished { champion: Some(2) }
    );
}

#[test]
fn resolver_names_its_refusals() {
    let mut tournament = tournament_of(4);
    assert_eq!(
        tournament.resolve(Pairing { a: 9, b: 1 }, Decision::WinnerIsA),
        Err(EngineError::NotFound)
    );
    assert_eq!(
        tournament.resolve(Pairing { a: 1, b: 9 }, Decision::WinnerIsA),
        Err(EngineError::NotFound)
    );
    assert_eq!(
        tournament.resolve(Pairing { a: 0, b: 1 }, Decision::WinnerIsA),
        Err(EngineError::NotFound)
    );
    assert_eq!(
        tournament.resolve(Pairing { a: 1, b: 0 }, Decision::WinnerIsB),
        Err(EngineError::NotFound)
    );
    assert_eq!(
        tournament.resolve(Pairing { a: 1, b: 1 }, Decision::WinnerIsA),
        Err(EngineError::InvalidMatch)
    );
    assert_eq!(tournament.ledger().len(), 0);
    assert_eq!(tournament.resolve(Pairing { a: 1, b: 2 }, Decision::WinnerIsA), Ok(()));
    assert_eq!(
        tournament.resolve(Pairing { a: 1, b: 3 }, Decision::WinnerIsA),
        Err(EngineError::InvalidMatch)
    );
    assert_eq!(
        tournament.resolve(Pairing { a: 3, b: 2 }, Decision::WinnerIsA),
        Err(EngineError::InvalidMatch)
    );
    assert_eq!(tournament.ledger().len(), 1);
    assert_eq!(rating_of(&tournament, 1), 1);
    assert_eq!(rating_of(&tournament, 3), 0);
    assert!(!is_out(&tournament, 3));
}

#[test]
fn resume_mid_round_returns_the_unresolved_pairing() {
    let mut tournament = tournament_of(8);
    for pairing in [(1, 2), (3, 4), (5, 6), (7, 8)] {
        let pairing = Pairing { a: pairing.0, b: pairing.1 };
        assert_eq!(tournament.resolve(pairing, Decision::WinnerIsA), Ok(()));
    }
    let (round, pairings) = round_of(tournament.schedule_with_seed(11));
    assert_eq!(round, 2);
    assert_eq!(pairings.len(), 2);
    assert_eq!(tournament.resolve(pairings[0], Decision::WinnerIsB), Ok(()));

    let (catalog, ledger) = tournament.into_parts();
    let stored_items = items_of(&catalog);
    let stored_records = records_of(&ledger);
    let finished = ledger.is_tournament_finished();

    let catalog = Catalog::from_items(stored_items).unwrap();
    let ledger = Ledger::from_records(stored_records, finished).unwrap();
    let resumed = Tournament::resume(catalog, ledger).unwrap();
    let mut expected = vec![pairings[1].a, pairings[1].b];
    expected.sort();
    assert_eq!(
        resumed.resume_point(),
        ResumePoint::InRound { round_number: 2, pending: expected.clone() }
    );
    assert_eq!(resumed.pending(2), expected);
    assert_eq!(resumed.pending(2), resumed.pending(2));
}

#[test]
fn resume_refuses_an_inconsistent_store() {
    let item = |id: u64, rating: u64, eliminated: bool| Item {
        id,
        reference: format!("{}.png", id),
        rating,
        eliminated,
    };
    let record = |round_number, participant_a, participant_b, winner| MatchRecord {
        round_number,
        participant_a,
        participant_b,
        winner,
    };
    let attempt = |items: Vec<Item>, records: Vec<MatchRecord>, finished: bool| {
        let catalog = Catalog::from_items(items).unwrap();
        let ledger = Ledger::from_records(records, finished).unwrap();
        Tournament::resume(catalog, ledger).map(|_| ()).map_err(|e| e)
    };
    // A sound store.
    assert_eq!(
        attempt(vec![item(1, 1, false), item(2, 0, true)], vec![record(1, 1, 2, 1)], true),
        Ok(())
    );
    // The loser is still in play.
    assert_eq!(
        attempt(vec![item(1, 1, false), item(2, 0, false)], vec![record(1, 1, 2, 1)], false),
        Err(EngineError::LedgerCorrupt)
    );
    // An item is out of play without a record of a loss.
    assert_eq!(
        attempt(vec![item(1, 0, false), item(2, 0, true)], vec![], false),
        Err(EngineError::LedgerCorrupt)
    );
    // A rating above the pairings won.
    assert_eq!(
        attempt(vec![item(1, 2, false), item(2, 0, true)], vec![record(1, 1, 2, 1)], false),
        Err(EngineError::LedgerCorrupt)
    );
    // A participant that the catalog does not hold.
    assert_eq!(
        attempt(vec![item(1, 0, false), item(2, 0, false)], vec![record(1, 1, 3, 1)], false),
        Err(EngineError::LedgerCorrupt)
    );
    // An item paired twice in one round.
    assert_eq!(
        attempt(
            vec![item(1, 2, false), item(2, 0, true), item(3, 0, true)],
            vec![record(1, 1, 2, 1), record(1, 1, 3, 1)],
            false
        ),
        Err(EngineError::LedgerCorrupt)
    );
    // Marked as over while two items are in play.
    assert_eq!(
        attempt(vec![item(1, 0, false), item(2, 0, false)], vec![], true),
        Err(EngineError::LedgerCorrupt)
    );
    // A round closed while an item still waits.
    assert_eq!(
        attempt(
            vec![item(1, 1, false), item(2, 0, true), item(3, 0, false)],
            vec![record(1, 1, 2, 1), record(2, 0, 0, 0)],
            false
        ),
        Err(EngineError::LedgerCorrupt)
    );
}

#[test]
fn ledger_refuses_records_that_do_not_continue_it() {
    let record = |round_number, participant_a, participant_b, winner| MatchRecord {
        round_number,
        participant_a,
        participant_b,
        winner,
    };
    assert!(Ledger::from_records(vec![record(2, 1, 2, 1)], false).is_err());
    assert!(Ledger::from_records(vec![record(2, 0, 0, 0)], false).is_err());
    assert!(Ledger::from_records(vec![record(1, 1, 2, 3)], false).is_err());
    assert!(Ledger::from_records(vec![record(1, 1, 1, 1)], false).is_err());
    assert!(Ledger::from_records(vec![record(1, 1, 2, 1), record(3, 0, 0, 0)], false).is_err());
    assert_eq!(
        Ledger::from_records(vec![record(1, 0, 2, 2)], false).err(),
        Some(EngineError::LedgerCorrupt)
    );

    let mut ledger = Ledger::new();
    assert_eq!(ledger.latest_round_number(), 1);
    assert_eq!(ledger.open_next_round(), Err(EngineError::InvalidMatch));
    assert_eq!(ledger.append(record(1, 1, 2, 2)), Ok(()));
    assert_eq!(ledger.append(record(2, 3, 4, 3)), Err(EngineError::InvalidMatch));
    assert_eq!(ledger.append(record(1, 3, 4, 3)), Ok(()));
    assert_eq!(ledger.open_next_round(), Ok(2));
    assert_eq!(ledger.latest_round_number(), 2);
    assert_eq!(ledger.append(record(1, 5, 6, 5)), Err(EngineError::InvalidMatch));
    assert_eq!(ledger.append(record(2, 2, 3, 0)), Ok(()));
    assert_eq!(ledger.matches_in_round(1), vec![record(1, 1, 2, 2), record(1, 3, 4, 3)]);
    assert_eq!(ledger.matches_in_round(2), vec![record(2, 0, 0, 0), record(2, 2, 3, 0)]);
    assert_eq!(ledger.matches_in_round(3), vec![]);
    assert!(ledger.has_lost(1));
    assert!(!ledger.has_lost(2) || ledger.has_lost(3));
    assert!(ledger.has_paired(4, 1));
    assert!(!ledger.has_paired(4, 2));
    assert_eq!(ledger.wins(3), 1);
    assert_eq!(ledger.wins(1), 0);
    assert!(!ledger.is_tournament_finished());
    ledger.mark_finished();
    assert!(ledger.is_tournament_finished());
    assert_eq!(ledger.append(record(2, 7, 8, 7)), Err(EngineError::InvalidMatch));
    assert_eq!(ledger.len(), 4);
}

#[test]
fn equal_seeds_give_equal_pairings() {
    let first = round_of(tournament_of(9).schedule_with_seed(2024));
    let second = round_of(tournament_of(9).schedule_with_seed(2024));
    assert_eq!(first, second);
    assert_eq!(first.1.len(), 5);
}

#[test]
fn shuffle_moves_the_ids_and_keeps_them_all() {
    let ids: Vec<u64> = (1..=40).collect();
    let unshuffled = pair_up(&ids);
    let shuffled = draw_pairings(ids.clone(), 5);
    assert_eq!(shuffled.len(), 20);
    assert_ne!(shuffled, unshuffled);
    let mut seen: Vec<u64> = shuffled.iter().flat_map(|p| vec![p.a, p.b]).collect();
    seen.sort();
    assert_eq!(seen, ids);
    assert_eq!(draw_pairings(ids.clone(), 5), shuffled);
    assert_ne!(draw_pairings(ids, 6), shuffled);
}

#[test]
fn pair_up_takes_two_at_a_time() {
    assert_eq!(pair_up(&vec![]), vec![]);
    assert_eq!(pair_up(&vec![4]), vec![Pairing { a: 4, b: 0 }]);
    assert_eq!(pair_up(&vec![4, 9]), vec![Pairing { a: 4, b: 9 }]);
    assert_eq!(
        pair_up(&vec![4, 9, 2, 7, 5]),
        vec![Pairing { a: 4, b: 9 }, Pairing { a: 2, b: 7 }, Pairing { a: 5, b: 0 }]
    );
}

#[test]
fn unseeded_schedule_pairs_everyone() {
    let mut tournament = tournament_of(6);
    let (round, pairings) = round_of(tournament.schedule());
    assert_eq!(round, 1);
    let mut seen: Vec<u64> = pairings.iter().flat_map(|p| vec![p.a, p.b]).collect();
    seen.sort();
    assert_eq!(seen, vec![1, 2, 3, 4, 5, 6]);
}

#[test]
fn tournament_converges_within_the_rounds_needed() {
    for count in 1..=33u64 {
        let mut tournament = tournament_of(count);
        let mut rounds_seen = 0;
        let mut live_before = count as usize;
        let champion = loop {
            match tournament.schedule_with_seed(count) {
                Schedule::Finished { champion } => break champion,
                Schedule::Round { round_number, pairings } => {
                    if round_number > rounds_seen {
                        let live = tournament.catalog().list_live_items().len();
                        if rounds_seen > 0 {
                            assert!(live < live_before);
                            assert!(live <= (live_before + 1) / 2);
                        }
                        live_before = live;
                        rounds_seen = round_number;
                    }
                    for pairing in pairings {
                        assert_eq!(tournament.resolve(pairing, Decision::WinnerIsA), Ok(()));
                    }
                }
            }
        };
        assert!(champion.is_some());
        assert_eq!(tournament.catalog().list_live_items(), vec![champion.unwrap()]);
        let needed = find_my_fav::rounds::get_total_number_of_rounds(count);
        if count == 1 {
            assert_eq!(rounds_seen, 1);
        } else {
            assert_eq!(rounds_seen, needed);
        }
        assert_eq!(tournament.resume_point(), ResumePoint::Finished);
        assert_eq!(tournament.schedule_with_seed(0), Schedule::Finished { champion });
    }
}

#[test]
fn tournament_without_survivor_finishes_without_champion() {
    let mut tournament = tournament_of(2);
    assert_eq!(
        tournament.resolve(Pairing { a: 1, b: 2 }, Decision::BothFailedToRender),
        Ok(())
    );
    assert_eq!(tournament.schedule_with_seed(1), Schedule::Finished { champion: None });
    assert_eq!(tournament.champion(), None);

    let mut empty = Tournament::new(Catalog::new()).unwrap();
    assert_eq!(empty.schedule_with_seed(1), Schedule::Finished { champion: None });
}

#[test]
fn lone_item_that_cannot_be_shown_leaves_play() {
    let mut tournament = tournament_of(1);
    assert_eq!(tournament.resolve(Pairing { a: 1, b: 0 }, Decision::AFailedToRender), Ok(()));
    assert!(is_out(&tournament, 1));
    assert_eq!(
        tournament.ledger().record(0),
        MatchRecord { round_number: 1, participant_a: 1, participant_b: 0, winner: 0 }
    );
    assert_eq!(tournament.schedule_with_seed(1), Schedule::Finished { champion: None });
}

#[test]
fn close_round_and_conclude_say_when_they_apply() {
    let mut tournament = tournament_of(4);
    assert_eq!(tournament.close_round(), Err(EngineError::InvalidMatch));
    assert!(!tournament.conclude());
    assert!(tournament.is_pending(1));
    assert!(!tournament.is_pending(5));
    assert!(!tournament.nobody_pending_but(1));
    assert_eq!(tournament.resolve(Pairing { a: 1, b: 2 }, Decision::WinnerIsA), Ok(()));
    assert!(!tournament.is_pending(1));
    assert_eq!(tournament.close_round(), Err(EngineError::InvalidMatch));
    assert_eq!(tournament.resolve(Pairing { a: 3, b: 4 }, Decision::WinnerIsB), Ok(()));
    assert!(tournament.nobody_pending_but(0));
    assert!(!tournament.conclude());
    assert_eq!(tournament.current_round(), 1);
    assert_eq!(tournament.close_round(), Ok(2));
    assert_eq!(tournament.current_round(), 2);
    assert_eq!(tournament.pending(2), vec![1, 4]);
    assert_eq!(tournament.resolve(Pairing { a: 4, b: 1 }, Decision::WinnerIsA), Ok(()));
    assert_eq!(tournament.champion(), Some(4));
    assert_eq!(tournament.close_round(), Err(EngineError::InvalidMatch));
    assert!(tournament.conclude());
    assert!(tournament.conclude());
    assert_eq!(rating_of(&tournament, 4), 2);
    assert_eq!(
        tournament.resolve(Pairing { a: 4, b: 0 }, Decision::WinnerIsA),
        Err(EngineError::InvalidMatch)
    );
}

#[test]
fn new_tournament_needs_a_fresh_catalog() {
    let used = Catalog::from_items(vec![Item {
        id: 1,
        reference: String::from("a.png"),
        rating: 3,
        eliminated: false,
    }])
    .unwrap();
    assert_eq!(Tournament::new(used).err(), Some(EngineError::LedgerCorrupt));
    assert!(Tournament::new(catalog_of(3)).is_ok());
}

#[test]
fn match_records_know_their_shape() {
    let marker = MatchRecord::round_marker(3);
    assert_eq!(
        marker,
        MatchRecord { round_number: 3, participant_a: 0, participant_b: 0, winner: 0 }
    );
    assert!(marker.names_nobody());
    assert!(!marker.names_a_match());
    assert!(!marker.involves(0));

    let bye = MatchRecord::bye(2, 7);
    assert_eq!(bye, MatchRecord { round_number: 2, participant_a: 7, participant_b: 0, winner: 7 });
    assert!(!bye.names_nobody());
    assert!(bye.names_a_match());
    assert!(bye.involves(7));
    assert!(!bye.involves(0));
    assert!(!bye.involves(8));

    let odd = MatchRecord { round_number: 1, participant_a: 4, participant_b: 5, winner: 6 };
    assert!(!odd.names_a_match());
    assert!(!odd.names_nobody());
}
