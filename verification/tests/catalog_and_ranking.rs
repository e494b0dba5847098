use find_my_fav::catalog::{Catalog, Item};
use find_my_fav::error::EngineError;
use find_my_fav::ranking::{calculate_percentiles, export_selection, rank_order, Percentile};

fn item(id: u64, rating: u64, eliminated: bool) -> Item {
    Item { id, reference: format!("pictures/{}.jpg", id), rating, eliminated }
}

#[test]
fn catalog_assigns_ids_in_order() {
    let mut catalog = Catalog::new();
    assert_eq!(catalog.len(), 0);
    assert_eq!(catalog.add_item(String::from("a.png")), Some(1));
    assert_eq!(catalog.add_item(String::from("b.png")), Some(2));
    assert_eq!(catalog.len(), 2);
    assert_eq!(
        catalog.item(1),
        &Item { id: 2, reference: String::from("b.png"), rating: 0, eliminated: false }
    );
    assert_eq!(catalog.position(2), Some(1));
    assert_eq!(catalog.position(3), None);
    assert_eq!(catalog.get(1).map(|found| found.reference.clone()), Some(String::from("a.png")));
    assert!(catalog.get(0).is_none());

    let mut sparse = Catalog::from_items(vec![item(7, 0, false), item(3, 0, false)]).unwrap();
    assert_eq!(sparse.add_item(String::from("c.png")), Some(8));
    let mut full = Catalog::from_items(vec![item(u64::MAX, 0, false)]).unwrap();
    assert_eq!(full.add_item(String::from("d.png")), None);
    assert_eq!(full.len(), 1);
}

#[test]
fn catalog_refuses_bad_ids() {
    assert_eq!(
        Catalog::from_items(vec![item(1, 0, false), item(1, 0, false)]).err(),
        Some(EngineError::LedgerCorrupt)
    );
    assert_eq!(
        Catalog::from_items(vec![item(0, 0, false)]).err(),
        Some(EngineError::LedgerCorrupt)
    );
    assert!(Catalog::from_items(vec![]).is_ok());
}

#[test]
fn record_win_and_loss() {
    let mut catalog =
        Catalog::from_items(vec![item(1, 0, false), item(2, 5, false), item(3, 0, true)]).unwrap();
    assert_eq!(catalog.list_live_items(), vec![1, 2]);
    assert_eq!(catalog.record_win(2), Ok(()));
    assert_eq!(catalog.get(2).unwrap().rating, 6);
    assert_eq!(catalog.get(1).unwrap().rating, 0);
    assert_eq!(catalog.record_win(9), Err(EngineError::NotFound));
    assert_eq!(catalog.record_loss(9), Err(EngineError::NotFound));
    assert_eq!(catalog.record_loss(1), Ok(()));
    assert_eq!(catalog.record_loss(1), Ok(()));
    assert!(catalog.get(1).unwrap().eliminated);
    assert_eq!(catalog.get(1).unwrap().rating, 0);
    assert_eq!(catalog.list_live_items(), vec![2]);
}

#[test]
fn highest_rating_prefers_the_first_inserted() {
    let catalog = Catalog::from_items(vec![
        item(4, 1, false),
        item(9, 3, true),
        item(2, 3, false),
        item(5, 2, false),
    ])
    .unwrap();
    assert_eq!(catalog.item_with_highest_rating().unwrap().id, 9);
    assert_eq!(
        Catalog::new().item_with_highest_rating().err(),
        Some(EngineError::EmptyCatalog)
    );
}

#[test]
fn ranking_is_by_rating_then_insertion() {
    let catalog = Catalog::from_items(vec![
        item(4, 1, false),
        item(9, 3, true),
        item(2, 3, false),
        item(5, 0, true),
        item(7, 1, true),
    ])
    .unwrap();
    assert_eq!(rank_order(&catalog), vec![1, 2, 0, 4, 3]);
    let ranking = calculate_percentiles(&catalog).unwrap();
    let ids: Vec<u64> = ranking.iter().map(|line| line.id).collect();
    assert_eq!(ids, vec![9, 2, 4, 7, 5]);
    assert_eq!(ranking[0].reference, "pictures/9.jpg");
    assert_eq!(ranking[0].rating, 3);
    assert_eq!(ranking[0].percentile, Percentile { rank: 0, total: 5 });
    assert_eq!(ranking[4].percentile, Percentile { rank: 4, total: 5 });
    assert_eq!(ranking[0].percentile.whole(), 100);
    assert_eq!(ranking[1].percentile.whole(), 80);
    assert_eq!(ranking[4].percentile.whole(), 20);
    let selection = export_selection(&ranking);
    assert_eq!(selection.len(), 1);
    assert_eq!(selection[0], ranking[0]);
}

#[test]
fn ranking_of_an_empty_catalog_fails() {
    assert_eq!(
        calculate_percentiles(&Catalog::new()).err(),
        Some(EngineError::EmptyCatalog)
    );
    assert_eq!(rank_order(&Catalog::new()), Vec::<usize>::new());
}

#[test]
fn percentile_boundary_is_inclusive() {
    let items: Vec<Item> = (1..=20).map(|id| item(id, 100 - id, false)).collect();
    let catalog = Catalog::from_items(items).unwrap();
    let ranking = calculate_percentiles(&catalog).unwrap();
    assert_eq!(ranking.len(), 20);

    let third = ranking[2].percentile;
    assert_eq!((third.numerator(), third.total), (1800, 20));
    assert_eq!(third.whole(), 90);
    assert!(third.is_exported());

    let fourth = ranking[3].percentile;
    assert_eq!((fourth.numerator(), fourth.total), (1700, 20));
    assert_eq!(fourth.whole(), 85);
    assert!(fourth.is_exported());

    let fifth = ranking[4].percentile;
    assert_eq!((fifth.numerator(), fifth.total), (1600, 20));
    assert_eq!(fifth.whole(), 80);
    assert!(!fifth.is_exported());

    let selection = export_selection(&ranking);
    let ids: Vec<u64> = selection.iter().map(|line| line.id).collect();
    assert_eq!(ids, vec![1, 2, 3, 4]);
}

#[test]
fn percentile_with_rank_beyond_total_is_not_exported() {
    assert!(!Percentile { rank: 3, total: 2 }.is_exported());
    assert!(Percentile { rank: 0, total: 1 }.is_exported());
    assert!(Percentile { rank: 0, total: 0 }.is_exported());
}
