//! The final ranking: all items ordered by rating, each with its
//! percentile, and the selection of those that are exported.

use vstd::prelude::*;
use vstd::seq_lib::seq_to_set_is_finite;
use vstd::set_lib::{lemma_int_range, lemma_subset_equality, set_int_range};
use crate::catalog::{Catalog, Item};
use crate::error::EngineError;

verus! {

/// The percentile of the item at a rank index among `total` items:
/// `(1 - rank / total) * 100`, kept as the exact fraction
/// `100 * (total - rank) / total`.
#[derive(Debug, Clone, Copy, PartialEq, Eq, Hash, Structural)]
pub struct Percentile {
    /// The rank index, counted from zero for the best item.
    pub rank: usize,
    /// The number of items ranked.
    pub total: usize,
}

impl Percentile {
    /// The numerator of the percentile as a fraction over `total`.
    pub open spec fn scaled(self) -> int {
        100 * (self.total - self.rank)
    }

    /// Whether the percentile is at least 85.
    pub open spec fn exported(self) -> bool {
        self.scaled() >= 85 * self.total
    }

    /// The numerator of the percentile as a fraction over `total`.
    pub fn numerator(&self) -> (numerator: u128)
        requires
            self.rank <= self.total,
        ensures
            numerator == self.scaled(),
    {
        100u128 * ((self.total - self.rank) as u128)
    }

    /// Whether the percentile is at least 85.
    pub fn is_exported(&self) -> (exported: bool)
        ensures
            exported == self.exported(),
    {
        self.rank <= self.total && self.numerator() >= 85u128 * (self.total as u128)
    }

    /// The whole part of the percentile.
    pub fn whole(&self) -> (whole: u64)
        requires
            self.rank < self.total,
        ensures
            whole == self.scaled() / (self.total as int),
            whole <= 100,
    {
        let numerator = self.numerator();
        let denominator = self.total as u128;
        let quotient = numerator / denominator;
        proof {
            assert(self.scaled() <= 100 * self.total) by (nonlinear_arith)
                requires
                    self.scaled() == 100 * (self.total - self.rank),
                    0 <= self.rank,
            ;
            assert(self.scaled() / (self.total as int) <= 100) by (nonlinear_arith)
                requires
                    self.scaled() <= 100 * self.total,
                    self.total > 0,
            ;
        }
        quotient as u64
    }
}

/// One line of the ranking.
#[derive(Debug, Clone, PartialEq, Eq)]
pub struct RankedItem {
    /// The id of the item.
    pub id: u64,
    /// The locator of the item.
    pub reference: String,
    /// The final rating of the item.
    pub rating: u64,
    /// The percentile of the item.
    pub percentile: Percentile,
}

/// Whether the item at position `x` of the catalog is ranked before the one
/// at position `y`: by higher rating, and among equal ratings by earlier
/// insertion.
pub open spec fn precedes(items: Seq<Item>, x: int, y: int) -> bool {
    items[x].rating > items[y].rating || (items[x].rating == items[y].rating && x < y)
}

/// Whether `order` lists the first `count` positions of the catalog, each
/// once, best first.
pub open spec fn orders(items: Seq<Item>, order: Seq<usize>, count: int) -> bool {
    &&& order.len() == count
    &&& forall|p: int| 0 <= p < order.len() ==> 0 <= #[trigger] order[p] < count
    &&& forall|p: int, q: int|
        0 <= p < q < order.len() ==> precedes(items, #[trigger] order[p] as int, #[trigger] order[q] as int)
}

/// The line of the ranking for the item at `position` of the catalog, when
/// it has rank index `rank`.
pub open spec fn line_of(items: Seq<Item>, position: int, rank: int) -> RankedItem {
    RankedItem {
        id: items[position].id,
        reference: items[position].reference,
        rating: items[position].rating,
        percentile: Percentile { rank: rank as usize, total: items.len() as usize },
    }
}

/// Whether `ranking` lists all items by `order`, each with its percentile.
pub open spec fn ranked_by(items: Seq<Item>, order: Seq<usize>, ranking: Seq<RankedItem>) -> bool {
    &&& orders(items, order, items.len() as int)
    &&& ranking.len() == items.len()
    &&& forall|p: int|
        0 <= p < ranking.len() ==> #[trigger] ranking[p] == line_of(items, order[p] as int, p)
}

/// Whether `ranking` lists all items best first, each with its percentile.
pub open spec fn is_ranking(items: Seq<Item>, ranking: Seq<RankedItem>) -> bool {
    exists|order: Seq<usize>| #[trigger] ranked_by(items, order, ranking)
}

/// Every position of the catalog occurs in an order of the whole catalog.
pub proof fn lemma_order_is_complete(items: Seq<Item>, order: Seq<usize>, position: int)
    requires
        orders(items, order, items.len() as int),
        0 <= position < items.len(),
    ensures
        exists|q: int| 0 <= q < order.len() && #[trigger] order[q] == position,
{
    let count = items.len() as int;
    let places = order.map_values(|x: usize| x as int);
    assert forall|p: int, q: int|
        0 <= p < places.len() && 0 <= q < places.len() && p != q implies places[p] != places[q] by {
        if p < q {
            assert(precedes(items, order[p] as int, order[q] as int));
        } else {
            assert(precedes(items, order[q] as int, order[p] as int));
        }
    }
    places.unique_seq_to_set();
    seq_to_set_is_finite(places);
    lemma_int_range(0, count);
    assert forall|x: int| places.to_set().contains(x) implies set_int_range(0, count).contains(x) by {
        let q = choose|q: int| 0 <= q < places.len() && places[q] == x;
        assert(0 <= order[q] < count);
    }
    lemma_subset_equality(places.to_set(), set_int_range(0, count));
    assert(set_int_range(0, count).contains(position));
    assert(places.contains(position));
    let q = choose|q: int| 0 <= q < places.len() && places[q] == position;
    assert(order[q] == position);
}

/// Two orders of the whole catalog agree up to any rank index.
pub proof fn lemma_orders_agree(items: Seq<Item>, first: Seq<usize>, second: Seq<usize>, rank: int)
    requires
        orders(items, first, items.len() as int),
        orders(items, second, items.len() as int),
        0 <= rank < items.len(),
    ensures
        forall|p: int| 0 <= p <= rank ==> first[p] == second[p],
    decreases rank,
{
    if rank > 0 {
        lemma_orders_agree(items, first, second, rank - 1);
    }
    let x = first[rank];
    let y = second[rank];
    if x != y {
        lemma_order_is_complete(items, second, x as int);
        let q = choose|q: int| 0 <= q < second.len() && #[trigger] second[q] == x as int;
        if q < rank {
            assert(first[q] == second[q]);
            assert(precedes(items, first[q] as int, first[rank] as int));
        }
        assert(precedes(items, second[rank] as int, second[q] as int));
        lemma_order_is_complete(items, first, y as int);
        let r = choose|r: int| 0 <= r < first.len() && #[trigger] first[r] == y as int;
        if r < rank {
            assert(first[r] == second[r]);
            assert(precedes(items, second[r] as int, second[rank] as int));
        }
        assert(precedes(items, first[rank] as int, first[r] as int));
    }
}

/// The ranking is determined: a catalog has one order by rating and
/// insertion, and so one ranking.
pub proof fn law_ranking_is_unique(
    items: Seq<Item>,
    first: Seq<RankedItem>,
    second: Seq<RankedItem>,
)
    requires
        is_ranking(items, first),
        is_ranking(items, second),
    ensures
        first == second,
{
    let one = choose|order: Seq<usize>| #[trigger] ranked_by(items, order, first);
    let other = choose|order: Seq<usize>| #[trigger] ranked_by(items, order, second);
    assert forall|p: int| 0 <= p < first.len() implies first[p] == second[p] by {
        lemma_orders_agree(items, one, other, p);
    }
    assert(first =~= second);
}

/// The positions of the catalog, best first: by rating from high to low,
/// items of equal rating in the order of their insertion.
pub fn rank_order(catalog: &Catalog) -> (order: Vec<usize>)
    ensures
        orders(catalog@, order@, catalog@.len() as int),
{
    let count = catalog.len();
    let mut order: Vec<usize> = Vec::new();
    let mut next: usize = 0;
    while next < count
        invariant
            next <= count == catalog@.len(),
            orders(catalog@, order@, next as int),
        decreases count - next,
    {
        let rating = catalog.item(next).rating;
        let mut place: usize = 0;
        while place < order.len() && catalog.item(order[place]).rating >= rating
            invariant
                next < count == catalog@.len(),
                orders(catalog@, order@, next as int),
                place <= order@.len(),
                rating == catalog@[next as int].rating,
                forall|q: int| 0 <= q < place ==> catalog@[order@[q] as int].rating >= rating,
            decreases order@.len() - place,
        {
            place += 1;
        }
        let ghost before = order@;
        order.insert(place, next);
        proof {
            assert forall|p: int, q: int| 0 <= p < q < order@.len() implies precedes(
                catalog@,
                #[trigger] order@[p] as int,
                #[trigger] order@[q] as int,
            ) by {
                if q < place {
                    assert(order@[p] == before[p] && order@[q] == before[q]);
                } else if q == place {
                    assert(order@[p] == before[p]);
                } else if p < place {
                    assert(order@[p] == before[p] && order@[q] == before[q - 1]);
                } else if p == place {
                    assert(order@[q] == before[q - 1]);
                    if place < q - 1 {
                        assert(precedes(catalog@, before[place as int] as int, before[q - 1] as int));
                    }
                } else {
                    assert(order@[p] == before[p - 1] && order@[q] == before[q - 1]);
                }
            }
            assert forall|p: int| 0 <= p < order@.len() implies 0 <= #[trigger] order@[p] < next
                + 1 by {
                if p < place {
                    assert(order@[p] == before[p]);
                } else if p > place {
                    assert(order@[p] == before[p - 1]);
                }
            }
        }
        next += 1;
    }
    order
}

/// Ranks all items of the catalog, live or not, best first, and gives each
/// its percentile. A catalog without items has no ranking.
pub fn calculate_percentiles(catalog: &Catalog) -> (outcome: Result<Vec<RankedItem>, EngineError>)
    ensures
        match outcome {
            Ok(ranking) => catalog@.len() > 0 && is_ranking(catalog@, ranking@),
            Err(e) => e == EngineError::EmptyCatalog && catalog@.len() == 0,
        },
{
    let total = catalog.len();
    if total == 0 {
        return Err(EngineError::EmptyCatalog);
    }
    let order = rank_order(catalog);
    let mut ranking: Vec<RankedItem> = Vec::new();
    let mut rank: usize = 0;
    while rank < total
        invariant
            0 < total,
            rank <= total == catalog@.len(),
            orders(catalog@, order@, total as int),
            ranking@.len() == rank,
            forall|p: int|
                0 <= p < rank ==> #[trigger] ranking@[p] == line_of(catalog@, order@[p] as int, p),
        decreases total - rank,
    {
        let item = catalog.item(order[rank]);
        ranking.push(
            RankedItem {
                id: item.id,
                reference: item.reference.clone(),
                rating: item.rating,
                percentile: Percentile { rank, total },
            },
        );
        rank += 1;
    }
    proof {
        assert(ranked_by(catalog@, order@, ranking@));
        assert(is_ranking(catalog@, ranking@));
    }
    Ok(ranking)
}

/// The lines of a ranking whose percentile is at least 85, in the order of
/// the ranking.
pub fn export_selection(ranking: &Vec<RankedItem>) -> (selection: Vec<RankedItem>)
    ensures
        selection@ == ranking@.filter(|line: RankedItem| line.percentile.exported()),
{
    let ghost chosen = |line: RankedItem| line.percentile.exported();
    let mut selection: Vec<RankedItem> = Vec::new();
    let mut index: usize = 0;
    proof {
        assert(ranking@.take(0).filter(chosen) =~= Seq::<RankedItem>::empty());
    }
    while index < ranking.len()
        invariant
            index <= ranking@.len(),
            chosen == |line: RankedItem| line.percentile.exported(),
            selection@ == ranking@.take(index as int).filter(chosen),
        decreases ranking@.len() - index,
    {
        proof {
            ranking@.lemma_take_succ_push(index as int);
            ranking@.take(index as int).lemma_filter_push(ranking@[index as int], chosen);
        }
        let line = &ranking[index];
        if line.percentile.is_exported() {
            selection.push(
                RankedItem {
                    id: line.id,
                    reference: line.reference.clone(),
                    rating: line.rating,
                    percentile: line.percentile,
                },
            );
        }
        index += 1;
    }
    proof {
        assert(ranking@.take(index as int) =~= ranking@);
    }
    selection
}

} // verus!
