//! The catalog store: the candidate items, their ratings and whether they
//! are still in play.

use vstd::prelude::*;
use crate::error::EngineError;

verus! {

/// One candidate.
#[derive(Debug, Clone, PartialEq, Eq)]
pub struct Item {
    /// Identity of the item; never zero, never shared by two items.
    pub id: u64,
    /// Locator handed to the presentation layer; never interpreted here.
    pub reference: String,
    /// Number of decided pairings the item has won.
    pub rating: u64,
    /// Whether the item has left the bracket.
    pub eliminated: bool,
}

/// Whether some item of `items` carries `id`.
pub open spec fn has_id(items: Seq<Item>, id: u64) -> bool {
    exists|i: int| 0 <= i < items.len() && (#[trigger] items[i]).id == id
}

/// Whether no id is zero and no id occurs twice.
pub open spec fn ids_valid(items: Seq<Item>) -> bool {
    &&& forall|i: int| 0 <= i < items.len() ==> (#[trigger] items[i]).id != 0
    &&& forall|i: int, j: int|
        0 <= i < j < items.len() ==> (#[trigger] items[i]).id != (#[trigger] items[j]).id
}

/// The ids of the items still in play, in catalog order.
pub open spec fn live_ids(items: Seq<Item>) -> Seq<u64>
    decreases items.len(),
{
    if items.len() == 0 {
        Seq::empty()
    } else if items.last().eliminated {
        live_ids(items.drop_last())
    } else {
        live_ids(items.drop_last()).push(items.last().id)
    }
}

/// The catalog after the item `id` has won once more.
pub open spec fn with_win(items: Seq<Item>, id: u64) -> Seq<Item> {
    Seq::new(
        items.len(),
        |i: int|
            if items[i].id == id {
                Item { rating: (items[i].rating + 1) as u64, ..items[i] }
            } else {
                items[i]
            },
    )
}

/// The catalog after the item `id` has been taken out of play.
pub open spec fn with_loss(items: Seq<Item>, id: u64) -> Seq<Item> {
    Seq::new(
        items.len(),
        |i: int|
            if items[i].id == id {
                Item { eliminated: true, ..items[i] }
            } else {
                items[i]
            },
    )
}

/// Whether position `k` holds the first item among those of highest rating.
pub open spec fn leads(items: Seq<Item>, k: int) -> bool {
    &&& 0 <= k < items.len()
    &&& forall|j: int| 0 <= j < items.len() ==> (#[trigger] items[j]).rating <= items[k].rating
    &&& forall|j: int| 0 <= j < k ==> (#[trigger] items[j]).rating < items[k].rating
}

/// The largest id in use, or zero for a catalog without items.
pub open spec fn largest_id(items: Seq<Item>) -> u64
    decreases items.len(),
{
    if items.len() == 0 {
        0
    } else if items.last().id > largest_id(items.drop_last()) {
        items.last().id
    } else {
        largest_id(items.drop_last())
    }
}

/// No item carries an id above `largest_id`.
pub proof fn lemma_largest_id_bounds(items: Seq<Item>)
    ensures
        forall|i: int| 0 <= i < items.len() ==> (#[trigger] items[i]).id <= largest_id(items),
    decreases items.len(),
{
    if items.len() > 0 {
        lemma_largest_id_bounds(items.drop_last());
        assert forall|i: int| 0 <= i < items.len() implies (#[trigger] items[i]).id <= largest_id(
            items,
        ) by {
            if i < items.len() - 1 {
                assert(items.drop_last()[i] == items[i]);
            }
        }
    }
}

/// The catalog of candidate items, in insertion order.
#[derive(Debug, Clone, PartialEq, Eq)]
pub struct Catalog {
    items: Vec<Item>,
}

impl View for Catalog {
    type V = Seq<Item>;

    closed spec fn view(&self) -> Seq<Item> {
        self.items@
    }
}

impl Catalog {
    /// The invariant of a catalog: ids are non-zero and pairwise distinct.
    pub open spec fn wf(&self) -> bool {
        ids_valid(self@)
    }

    /// A catalog without items.
    pub fn new() -> (catalog: Catalog)
        ensures
            catalog@ == Seq::<Item>::empty(),
            catalog.wf(),
    {
        Catalog { items: Vec::new() }
    }

    /// Takes over a list of items, provided that their ids are non-zero and
    /// pairwise distinct.
    pub fn from_items(items: Vec<Item>) -> (made: Result<Catalog, EngineError>)
        ensures
            match made {
                Ok(catalog) => ids_valid(items@) && catalog@ == items@ && catalog.wf(),
                Err(e) => e == EngineError::LedgerCorrupt && !ids_valid(items@),
            },
    {
        let mut upper: usize = 0;
        while upper < items.len()
            invariant
                upper <= items@.len(),
                forall|i: int| 0 <= i < upper ==> (#[trigger] items@[i]).id != 0,
                forall|i: int, j: int|
                    0 <= i < j < upper ==> (#[trigger] items@[i]).id != (#[trigger] items@[j]).id,
            decreases items@.len() - upper,
        {
            if items[upper].id == 0 {
                return Err(EngineError::LedgerCorrupt);
            }
            let mut lower: usize = 0;
            while lower < upper
                invariant
                    lower <= upper < items@.len(),
                    forall|i: int| 0 <= i < lower ==> (#[trigger] items@[i]).id != items@[upper as int].id,
                decreases upper - lower,
            {
                if items[lower].id == items[upper].id {
                    return Err(EngineError::LedgerCorrupt);
                }
                lower += 1;
            }
            upper += 1;
        }
        Ok(Catalog { items })
    }

    /// Adds a new item in play with rating zero. Its id is one above the
    /// largest id in use; when that would leave the range of ids, nothing
    /// is added.
    pub fn add_item(&mut self, reference: String) -> (assigned: Option<u64>)
        requires
            old(self).wf(),
        ensures
            final(self).wf(),
            match assigned {
                Some(id) => id == largest_id(old(self)@) + 1 && final(self)@ == old(self)@.push(
                    Item { id, reference, rating: 0, eliminated: false },
                ),
                None => largest_id(old(self)@) == u64::MAX && final(self)@ == old(self)@,
            },
    {
        let mut largest: u64 = 0;
        let mut index: usize = 0;
        while index < self.items.len()
            invariant
                index <= self.items@.len(),
                largest == largest_id(self.items@.take(index as int)),
            decreases self.items@.len() - index,
        {
            proof {
                assert(self.items@.take(index + 1).drop_last() =~= self.items@.take(index as int));
            }
            if self.items[index].id > largest {
                largest = self.items[index].id;
            }
            index += 1;
        }
        proof {
            assert(self.items@.take(index as int) =~= self.items@);
            lemma_largest_id_bounds(self.items@);
        }
        if largest == u64::MAX {
            return None;
        }
        let id = largest + 1;
        self.items.push(Item { id, reference, rating: 0, eliminated: false });
        Some(id)
    }

    /// The number of items.
    pub fn len(&self) -> (n: usize)
        ensures
            n == self@.len(),
    {
        self.items.len()
    }

    /// The item at position `index` of the insertion order.
    pub fn item(&self, index: usize) -> (item: &Item)
        requires
            index < self@.len(),
        ensures
            *item == self@[index as int],
    {
        &self.items[index]
    }

    /// The position of the item with the given id.
    pub fn position(&self, id: u64) -> (found: Option<usize>)
        ensures
            match found {
                Some(index) => index < self@.len() && self@[index as int].id == id,
                None => !has_id(self@, id),
            },
    {
        let mut index: usize = 0;
        while index < self.items.len()
            invariant
                index <= self.items@.len(),
                forall|k: int| 0 <= k < index ==> (#[trigger] self.items@[k]).id != id,
            decreases self.items@.len() - index,
        {
            if self.items[index].id == id {
                return Some(index);
            }
            index += 1;
        }
        None
    }

    /// The item with the given id, if the catalog holds it.
    pub fn get(&self, id: u64) -> (found: Option<&Item>)
        ensures
            match found {
                Some(item) => has_id(self@, id) && item.id == id && self@.contains(*item),
                None => !has_id(self@, id),
            },
    {
        match self.position(id) {
            Some(index) => Some(&self.items[index]),
            None => None,
        }
    }

    /// The ids of all items still in play, in insertion order.
    pub fn list_live_items(&self) -> (live: Vec<u64>)
        ensures
            live@ == live_ids(self@),
    {
        let mut live: Vec<u64> = Vec::new();
        let mut index: usize = 0;
        while index < self.items.len()
            invariant
                index <= self.items@.len(),
                live@ == live_ids(self.items@.take(index as int)),
            decreases self.items@.len() - index,
        {
            proof {
                assert(self.items@.take(index + 1).drop_last() =~= self.items@.take(index as int));
            }
            if !self.items[index].eliminated {
                live.push(self.items[index].id);
            }
            index += 1;
        }
        proof {
            assert(self.items@.take(index as int) =~= self.items@);
        }
        live
    }

    /// Marks a won pairing: the rating of the item rises by one.
    pub fn record_win(&mut self, id: u64) -> (outcome: Result<(), EngineError>)
        requires
            old(self).wf(),
            forall|i: int|
                0 <= i < old(self)@.len() && (#[trigger] old(self)@[i]).id == id
                    ==> old(self)@[i].rating < u64::MAX,
        ensures
            final(self).wf(),
            match outcome {
                Ok(()) => has_id(old(self)@, id) && final(self)@ == with_win(old(self)@, id),
                Err(e) => e == EngineError::NotFound && !has_id(old(self)@, id) && final(self)@
                    == old(self)@,
            },
    {
        match self.position(id) {
            Some(index) => {
                let rating = self.items[index].rating;
                self.items[index].rating = rating + 1;
                proof {
                    assert(self.items@ =~= with_win(old(self)@, id));
                }
                Ok(())
            },
            None => Err(EngineError::NotFound),
        }
    }

    /// Takes the item out of play. Doing so twice changes nothing further.
    pub fn record_loss(&mut self, id: u64) -> (outcome: Result<(), EngineError>)
        requires
            old(self).wf(),
        ensures
            final(self).wf(),
            match outcome {
                Ok(()) => has_id(old(self)@, id) && final(self)@ == with_loss(old(self)@, id),
                Err(e) => e == EngineError::NotFound && !has_id(old(self)@, id) && final(self)@
                    == old(self)@,
            },
    {
        match self.position(id) {
            Some(index) => {
                self.items[index].eliminated = true;
                proof {
                    assert(self.items@ =~= with_loss(old(self)@, id));
                }
                Ok(())
            },
            None => Err(EngineError::NotFound),
        }
    }

    /// The item with the highest rating. Among several items with that
    /// rating, the one inserted first is returned.
    pub fn item_with_highest_rating(&self) -> (best: Result<&Item, EngineError>)
        ensures
            match best {
                Ok(item) => exists|k: int| #[trigger] leads(self@, k) && *item == self@[k],
                Err(e) => e == EngineError::EmptyCatalog && self@.len() == 0,
            },
    {
        if self.items.len() == 0 {
            return Err(EngineError::EmptyCatalog);
        }
        let mut best: usize = 0;
        let mut index: usize = 1;
        while index < self.items.len()
            invariant
                0 <= best < index <= self.items@.len(),
                forall|j: int| 0 <= j < index ==> self.items@[j].rating <= self.items@[best as int].rating,
                forall|j: int| 0 <= j < best ==> self.items@[j].rating < self.items@[best as int].rating,
            decreases self.items@.len() - index,
        {
            if self.items[index].rating > self.items[best].rating {
                best = index;
            }
            index += 1;
        }
        proof {
            assert(leads(self@, best as int));
        }
        Ok(&self.items[best])
    }
}

} // verus!
