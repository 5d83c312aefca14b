//! A catalog that maps item kinds to values, kept sorted by item.

use crate::itemsys::item::{
    item_rank, lemma_item_rank_flip, lemma_item_rank_same, lemma_item_rank_trans, Item, ItemView,
};
use crate::itemsys::order::Rank;
use vstd::prelude::*;

verus! {

/// Why an operation on a catalog was refused.
#[derive(Clone, Copy, Debug, PartialEq, Eq, Structural)]
pub enum CatalogError {
    /// The item to add already has an entry.
    DuplicateKey,
    /// The item has no entry.
    KeyNotFound,
    /// An entry holds less than a recipe takes from it.
    InsufficientQuantity,
    /// A quantity would exceed what a `u64` can hold.
    ArithmeticOverflow,
}

/// The entries are in strictly ascending order of their items, so no item
/// occurs twice.
pub open spec fn ascending<T>(s: Seq<(Item, T)>) -> bool {
    forall|i: int, j: int|
        0 <= i < j < s.len() ==> item_rank(#[trigger] s[i].0@, #[trigger] s[j].0@) == Rank::Lower
}

/// Some entry of `s` is for the item `k`.
pub open spec fn has_key<T>(s: Seq<(Item, T)>, k: ItemView) -> bool {
    exists|i: int| 0 <= i < s.len() && (#[trigger] s[i]).0@ == k
}

/// The mapping that a sequence of entries stands for.
pub open spec fn as_map<T>(s: Seq<(Item, T)>) -> Map<ItemView, T> {
    Map::new(
        |k: ItemView| has_key(s, k),
        |k: ItemView| s[choose|i: int| 0 <= i < s.len() && (#[trigger] s[i]).0@ == k].1,
    )
}

/// A list of items with a value tied to each of them.
///
/// Each item occurs at most once. The entries are kept in ascending order
/// of their items, whatever the order in which they were added, and are
/// found by binary search.
#[derive(Debug, PartialEq, Eq)]
pub struct ItemList<T> {
    contents: Vec<(Item, T)>,
}

impl<T> View for ItemList<T> {
    type V = Map<ItemView, T>;

    closed spec fn view(&self) -> Map<ItemView, T> {
        as_map(self.contents@)
    }
}

impl<T> ItemList<T> {
    #[verifier::type_invariant]
    spec fn well_formed(self) -> bool {
        ascending(self.contents@)
    }

    /// Makes a list with no entries.
    pub fn new() -> (r: ItemList<T>)
        ensures
            r@ == Map::<ItemView, T>::empty(),
    {
        let r = ItemList { contents: Vec::new() };
        assert(r@ =~= Map::<ItemView, T>::empty());
        r
    }

    /// Binary search for `item`. Returns whether it was found, and its
    /// position, or else the position at which it would have to stand.
    fn locate(&self, item: &Item) -> (r: (bool, usize))
        ensures
            r.1 <= self.contents@.len(),
            r.0 ==> r.1 < self.contents@.len() && self.contents@[r.1 as int].0@ == item@,
            r.0 == has_key(self.contents@, item@),
            !r.0 ==> forall|i: int|
                0 <= i < r.1 ==> item_rank((#[trigger] self.contents@[i]).0@, item@) == Rank::Lower,
            !r.0 ==> forall|i: int|
                r.1 <= i < self.contents@.len() ==> item_rank(
                    (#[trigger] self.contents@[i]).0@,
                    item@,
                ) == Rank::Higher,
    {
        proof {
            use_type_invariant(self);
        }
        let ghost s = self.contents@;
        let mut lo: usize = 0;
        let mut hi: usize = self.contents.len();
        while lo < hi
            invariant
                s == self.contents@,
                ascending(s),
                lo <= hi <= s.len(),
                forall|i: int| 0 <= i < lo ==> item_rank((#[trigger] s[i]).0@, item@) == Rank::Lower,
                forall|i: int|
                    hi <= i < s.len() ==> item_rank((#[trigger] s[i]).0@, item@) == Rank::Higher,
            decreases hi - lo,
        {
            let mid = lo + (hi - lo) / 2;
            match self.contents[mid].0.compare(item) {
                Rank::Same => {
                    proof {
                        lemma_item_rank_same(s[mid as int].0@, item@);
                    }
                    return (true, mid);
                },
                Rank::Lower => {
                    assert forall|i: int| 0 <= i < mid + 1 implies item_rank(
                        (#[trigger] s[i]).0@,
                        item@,
                    ) == Rank::Lower by {
                        if i < mid {
                            lemma_item_rank_trans(s[i].0@, s[mid as int].0@, item@);
                        }
                    }
                    lo = mid + 1;
                },
                Rank::Higher => {
                    assert forall|i: int| mid <= i < s.len() implies item_rank(
                        (#[trigger] s[i]).0@,
                        item@,
                    ) == Rank::Higher by {
                        lemma_item_rank_flip(s[mid as int].0@, item@);
                        lemma_item_rank_flip(s[i].0@, item@);
                        if mid < i {
                            lemma_item_rank_trans(item@, s[mid as int].0@, s[i].0@);
                        }
                    }
                    hi = mid;
                },
            }
        }
        proof {
            assert forall|i: int| 0 <= i < s.len() implies (#[trigger] s[i]).0@ != item@ by {
                lemma_item_rank_same(s[i].0@, item@);
            }
        }
        (false, lo)
    }

    /// Returns true if the list holds an entry for `item`.
    pub fn contains(&self, item: &Item) -> (r: bool)
        ensures
            r == self@.contains_key(item@),
    {
        self.locate(item).0
    }

    /// Returns the value tied to `item`, or `None` if the list has no entry
    /// for it.
    pub fn try_get_val(&self, item: &Item) -> (r: Option<&T>)
        ensures
            r == (if self@.contains_key(item@) {
                Some(&self@[item@])
            } else {
                None
            }),
    {
        proof {
            use_type_invariant(self);
        }
        let (found, pos) = self.locate(item);
        if found {
            proof {
                lemma_as_map_entry(self.contents@, pos as int);
            }
            Some(&self.contents[pos].1)
        } else {
            None
        }
    }

    /// Returns the value tied to `item`, or `KeyNotFound` if the list has
    /// no entry for it.
    pub fn get_val(&self, item: &Item) -> (r: Result<&T, CatalogError>)
        ensures
            r == (if self@.contains_key(item@) {
                Ok::<&T, CatalogError>(&self@[item@])
            } else {
                Err(CatalogError::KeyNotFound)
            }),
    {
        match self.try_get_val(item) {
            Some(v) => Ok(v),
            None => Err(CatalogError::KeyNotFound),
        }
    }

    /// Adds an entry for `item` and returns the list, or `DuplicateKey` if
    /// the list already has an entry for it.
    pub fn add_item(self, item: &Item, val: T) -> (r: Result<ItemList<T>, CatalogError>)
        ensures
            match r {
                Ok(list) => !self@.contains_key(item@) && list@ == self@.insert(item@, val),
                Err(e) => self@.contains_key(item@) && e == CatalogError::DuplicateKey,
            },
    {
        let mut list = self;
        if list.try_add_item(item, val) {
            Ok(list)
        } else {
            Err(CatalogError::DuplicateKey)
        }
    }

    /// Adds an entry for `item` unless the list already has one. Returns
    /// whether the entry was added; if not, the list is unchanged.
    pub fn try_add_item(&mut self, item: &Item, val: T) -> (r: bool)
        ensures
            r == !old(self)@.contains_key(item@),
            final(self)@ == (if r {
                old(self)@.insert(item@, val)
            } else {
                old(self)@
            }),
    {
        proof {
            use_type_invariant(&*self);
        }
        let (found, pos) = self.locate(item);
        if found {
            false
        } else {
            let entry = (item.clone(), val);
            let mut contents: Vec<(Item, T)> = Vec::new();
            core::mem::swap(&mut contents, &mut self.contents);
            proof {
                lemma_insert_entry(contents@, pos as int, entry);
            }
            contents.insert(pos, entry);
            self.contents = contents;
            true
        }
    }

    /// Overwrites the value tied to `item`, or returns `KeyNotFound` and
    /// leaves the list unchanged if it has no entry for the item.
    pub fn edit_value(&mut self, item: &Item, val: T) -> (r: Result<(), CatalogError>)
        ensures
            r == (if old(self)@.contains_key(item@) {
                Ok::<(), CatalogError>(())
            } else {
                Err(CatalogError::KeyNotFound)
            }),
            final(self)@ == (if r is Ok {
                old(self)@.insert(item@, val)
            } else {
                old(self)@
            }),
    {
        proof {
            use_type_invariant(&*self);
        }
        let (found, pos) = self.locate(item);
        if found {
            let mut contents: Vec<(Item, T)> = Vec::new();
            core::mem::swap(&mut contents, &mut self.contents);
            let ghost before = contents@;
            contents[pos].1 = val;
            proof {
                let entry = (before[pos as int].0, val);
                assert(contents@ =~= before.update(pos as int, entry));
                lemma_update_entry(before, pos as int, entry);
            }
            self.contents = contents;
            Ok(())
        } else {
            Err(CatalogError::KeyNotFound)
        }
    }

    /// The entries in ascending order of their items.
    pub fn entries(&self) -> (r: &Vec<(Item, T)>)
        ensures
            ascending(r@),
            as_map(r@) == self@,
    {
        proof {
            use_type_invariant(self);
        }
        &self.contents
    }
}

impl<T: Clone> Clone for ItemList<T> {
    /// Makes a list with the same items, each tied to a clone of its value.
    fn clone(&self) -> (r: ItemList<T>)
        ensures
            r@.dom() == self@.dom(),
            forall|k: ItemView| #[trigger] r@.contains_key(k) ==> cloned::<T>(self@[k], r@[k]),
    {
        proof {
            use_type_invariant(self);
        }
        let ghost s = self.contents@;
        let mut contents: Vec<(Item, T)> = Vec::new();
        let mut i: usize = 0;
        while i < self.contents.len()
            invariant
                s == self.contents@,
                i <= s.len(),
                contents@.len() == i,
                forall|j: int|
                    0 <= j < i ==> (#[trigger] contents@[j]).0@ == s[j].0@ && cloned::<T>(
                        s[j].1,
                        contents@[j].1,
                    ),
            decreases s.len() - i,
        {
            let entry = (self.contents[i].0.clone(), self.contents[i].1.clone());
            contents.push(entry);
            i += 1;
        }
        let ghost t = contents@;
        proof {
            assert forall|a: int, b: int| 0 <= a < b < t.len() implies item_rank(
                #[trigger] t[a].0@,
                #[trigger] t[b].0@,
            ) == Rank::Lower by {
                assert(t[a].0@ == s[a].0@ && t[b].0@ == s[b].0@);
                assert(item_rank(s[a].0@, s[b].0@) == Rank::Lower);
            }
            assert forall|k: ItemView| #[trigger] as_map(t).contains_key(k) implies as_map(
                s,
            ).contains_key(k) && cloned::<T>(as_map(s)[k], as_map(t)[k]) by {
                let j = choose|j: int| 0 <= j < t.len() && (#[trigger] t[j]).0@ == k;
                assert(s[j].0@ == k);
                lemma_as_map_entry(s, j);
                lemma_as_map_entry(t, j);
            }
            assert forall|k: ItemView| #[trigger] as_map(s).contains_key(k) implies as_map(
                t,
            ).contains_key(k) by {
                let j = choose|j: int| 0 <= j < s.len() && (#[trigger] s[j]).0@ == k;
                assert(t[j].0@ == k);
            }
            assert(as_map(t).dom() =~= as_map(s).dom());
        }
        ItemList { contents }
    }
}

/// In an ascending sequence each entry is the one that the mapping holds
/// for its item.
pub proof fn lemma_as_map_entry<T>(s: Seq<(Item, T)>, i: int)
    requires
        ascending(s),
        0 <= i < s.len(),
    ensures
        as_map(s).contains_key(s[i].0@),
        as_map(s)[s[i].0@] == s[i].1,
{
    let k = s[i].0@;
    let j = choose|j: int| 0 <= j < s.len() && (#[trigger] s[j]).0@ == k;
    lemma_item_rank_same(s[i].0@, s[j].0@);
    if i < j {
        assert(item_rank(s[i].0@, s[j].0@) == Rank::Lower);
    } else if j < i {
        assert(item_rank(s[j].0@, s[i].0@) == Rank::Lower);
    }
}

/// Putting a new entry where its item belongs keeps the sequence
/// ascending.
proof fn lemma_insert_ascending<T>(s: Seq<(Item, T)>, pos: int, e: (Item, T))
    requires
        ascending(s),
        0 <= pos <= s.len(),
        forall|i: int| 0 <= i < pos ==> item_rank((#[trigger] s[i]).0@, e.0@) == Rank::Lower,
        forall|i: int|
            pos <= i < s.len() ==> item_rank((#[trigger] s[i]).0@, e.0@) == Rank::Higher,
    ensures
        ascending(s.insert(pos, e)),
{
    let t = s.insert(pos, e);
    assert forall|i: int, j: int| 0 <= i < j < t.len() implies item_rank(
        #[trigger] t[i].0@,
        #[trigger] t[j].0@,
    ) == Rank::Lower by {
        if i == pos {
            assert(t[j] == s[j - 1]);
            lemma_item_rank_flip(e.0@, s[j - 1].0@);
        } else if j == pos {
            assert(t[i] == s[i]);
        } else {
            let oi = if i < pos { i } else { i - 1 };
            let oj = if j < pos { j } else { j - 1 };
            assert(t[i] == s[oi] && t[j] == s[oj]);
        }
    }
}

/// The items of a sequence with one more entry are those it had and the
/// new entry's.
proof fn lemma_insert_keys<T>(s: Seq<(Item, T)>, pos: int, e: (Item, T), k: ItemView)
    requires
        0 <= pos <= s.len(),
    ensures
        has_key(s.insert(pos, e), k) <==> has_key(s, k) || k == e.0@,
{
    let t = s.insert(pos, e);
    if has_key(t, k) {
        let i = choose|i: int| 0 <= i < t.len() && (#[trigger] t[i]).0@ == k;
        if i < pos {
            assert(s[i].0@ == k);
        } else if i > pos {
            assert(s[i - 1].0@ == k);
        }
    }
    if has_key(s, k) {
        let i = choose|i: int| 0 <= i < s.len() && (#[trigger] s[i]).0@ == k;
        let ni = if i < pos { i } else { i + 1 };
        assert(t[ni].0@ == k);
    }
    if k == e.0@ {
        assert(t[pos].0@ == k);
    }
}

/// Putting a new entry where its item belongs keeps the sequence ascending
/// and adds the entry to the mapping.
pub proof fn lemma_insert_entry<T>(s: Seq<(Item, T)>, pos: int, e: (Item, T))
    requires
        ascending(s),
        0 <= pos <= s.len(),
        forall|i: int| 0 <= i < pos ==> item_rank((#[trigger] s[i]).0@, e.0@) == Rank::Lower,
        forall|i: int|
            pos <= i < s.len() ==> item_rank((#[trigger] s[i]).0@, e.0@) == Rank::Higher,
    ensures
        ascending(s.insert(pos, e)),
        as_map(s.insert(pos, e)) == as_map(s).insert(e.0@, e.1),
{
    let t = s.insert(pos, e);
    let m = as_map(s).insert(e.0@, e.1);
    lemma_insert_ascending(s, pos, e);
    assert forall|k: ItemView| as_map(t).contains_key(k) == m.contains_key(k) by {
        lemma_insert_keys(s, pos, e, k);
    }
    assert forall|k: ItemView| #[trigger] m.contains_key(k) implies as_map(t)[k] == m[k] by {
        if k == e.0@ {
            lemma_as_map_entry(t, pos);
        } else {
            let i = choose|i: int| 0 <= i < s.len() && (#[trigger] s[i]).0@ == k;
            let ni = if i < pos { i } else { i + 1 };
            assert(t[ni] == s[i]);
            lemma_as_map_entry(s, i);
            lemma_as_map_entry(t, ni);
        }
    }
    assert(as_map(t) =~= m);
}

/// Replacing an entry by one for the same item keeps the sequence ascending
/// and overwrites the item's value in the mapping.
pub proof fn lemma_update_entry<T>(s: Seq<(Item, T)>, pos: int, e: (Item, T))
    requires
        ascending(s),
        0 <= pos < s.len(),
        e.0@ == s[pos].0@,
    ensures
        ascending(s.update(pos, e)),
        as_map(s.update(pos, e)) == as_map(s).insert(e.0@, e.1),
{
    let t = s.update(pos, e);
    assert forall|i: int, j: int| 0 <= i < j < t.len() implies item_rank(
        #[trigger] t[i].0@,
        #[trigger] t[j].0@,
    ) == Rank::Lower by {
        assert(t[i].0@ == s[i].0@ && t[j].0@ == s[j].0@);
    }
    let m = as_map(s).insert(e.0@, e.1);
    assert forall|k: ItemView| #[trigger] as_map(t).contains_key(k) implies m.contains_key(k) by {
        let i = choose|i: int| 0 <= i < t.len() && (#[trigger] t[i]).0@ == k;
        assert(s[i].0@ == k);
    }
    assert forall|k: ItemView| #[trigger] m.contains_key(k) implies as_map(t).contains_key(k)
        && as_map(t)[k] == m[k] by {
        if k == e.0@ {
            lemma_as_map_entry(t, pos);
        } else {
            let i = choose|i: int| 0 <= i < s.len() && (#[trigger] s[i]).0@ == k;
            assert(t[i] == s[i]);
            lemma_as_map_entry(s, i);
            lemma_as_map_entry(t, i);
        }
    }
    assert(as_map(t) =~= m);
}

/// The entries after the first stand for the mapping without the first
/// entry's item.
proof fn lemma_as_map_rest<T>(s: Seq<(Item, T)>)
    requires
        ascending(s),
        s.len() > 0,
    ensures
        ascending(s.drop_first()),
        as_map(s.drop_first()) == as_map(s).remove(s[0].0@),
{
    let r = s.drop_first();
    let m = as_map(s).remove(s[0].0@);
    assert forall|i: int, j: int| 0 <= i < j < r.len() implies item_rank(
        #[trigger] r[i].0@,
        #[trigger] r[j].0@,
    ) == Rank::Lower by {
        assert(r[i] == s[i + 1] && r[j] == s[j + 1]);
    }
    assert forall|k: ItemView| #[trigger] as_map(r).contains_key(k) implies m.contains_key(k)
        && as_map(r)[k] == m[k] by {
        let i = choose|i: int| 0 <= i < r.len() && (#[trigger] r[i]).0@ == k;
        assert(r[i] == s[i + 1]);
        lemma_item_rank_same(s[0].0@, s[i + 1].0@);
        lemma_as_map_entry(s, i + 1);
        lemma_as_map_entry(r, i);
    }
    assert forall|k: ItemView| #[trigger] m.contains_key(k) implies as_map(r).contains_key(k) by {
        let i = choose|i: int| 0 <= i < s.len() && (#[trigger] s[i]).0@ == k;
        assert(r[i - 1] == s[i]);
    }
    assert(as_map(r) =~= m);
}

/// The first entry of an ascending sequence has the lowest item of its
/// mapping.
proof fn lemma_first_is_lowest<T>(s: Seq<(Item, T)>, k: ItemView)
    requires
        ascending(s),
        as_map(s).contains_key(k),
    ensures
        s.len() > 0,
        item_rank(s[0].0@, k) != Rank::Higher,
{
    let i = choose|i: int| 0 <= i < s.len() && (#[trigger] s[i]).0@ == k;
    if i == 0 {
        lemma_item_rank_same(s[0].0@, k);
    } else {
        assert(item_rank(s[0].0@, s[i].0@) == Rank::Lower);
    }
}

/// A mapping has one ascending sequence of entries: two ascending
/// sequences that stand for the same mapping hold the same items with the
/// same values at the same places. So the order in which entries were
/// added leaves no trace.
pub proof fn lemma_ascending_unique<T>(s: Seq<(Item, T)>, t: Seq<(Item, T)>)
    requires
        ascending(s),
        ascending(t),
        as_map(s) == as_map(t),
    ensures
        s.len() == t.len(),
        forall|i: int| 0 <= i < s.len() ==> (#[trigger] s[i]).0@ == t[i].0@ && s[i].1 == t[i].1,
    decreases s.len(),
{
    if s.len() == 0 {
        if t.len() > 0 {
            lemma_as_map_entry(t, 0);
        }
    } else {
        lemma_as_map_entry(s, 0);
        lemma_first_is_lowest(t, s[0].0@);
        lemma_as_map_entry(t, 0);
        lemma_first_is_lowest(s, t[0].0@);
        lemma_item_rank_flip(s[0].0@, t[0].0@);
        lemma_item_rank_same(s[0].0@, t[0].0@);
        lemma_as_map_rest(s);
        lemma_as_map_rest(t);
        let sr = s.drop_first();
        let tr = t.drop_first();
        lemma_ascending_unique(sr, tr);
        assert forall|i: int| 0 <= i < s.len() implies (#[trigger] s[i]).0@ == t[i].0@ && s[i].1
            == t[i].1 by {
            if i > 0 {
                assert(sr[i - 1] == s[i] && tr[i - 1] == t[i]);
            }
        }
    }
}

/// Two different items added to an empty list are both accepted and both
/// found with their values, and the list is the same whichever was added
/// first.
pub proof fn lemma_insertion_order<T>(d1: ItemView, v1: T, d2: ItemView, v2: T)
    requires
        d1 != d2,
    ensures
        !Map::<ItemView, T>::empty().contains_key(d1),
        !Map::<ItemView, T>::empty().insert(d1, v1).contains_key(d2),
        !Map::<ItemView, T>::empty().contains_key(d2),
        !Map::<ItemView, T>::empty().insert(d2, v2).contains_key(d1),
        Map::<ItemView, T>::empty().insert(d1, v1).insert(d2, v2) == Map::<
            ItemView,
            T,
        >::empty().insert(d2, v2).insert(d1, v1),
        Map::<ItemView, T>::empty().insert(d1, v1).insert(d2, v2).contains_key(d1),
        Map::<ItemView, T>::empty().insert(d1, v1).insert(d2, v2).contains_key(d2),
        Map::<ItemView, T>::empty().insert(d1, v1).insert(d2, v2)[d1] == v1,
        Map::<ItemView, T>::empty().insert(d1, v1).insert(d2, v2)[d2] == v2,
{
    let one = Map::<ItemView, T>::empty().insert(d1, v1).insert(d2, v2);
    let other = Map::<ItemView, T>::empty().insert(d2, v2).insert(d1, v1);
    assert(one =~= other);
}

/// An item that `add_item` or `try_add_item` accepted is held afterwards
/// with the value given, so adding it again is refused: `add_item` then
/// fails with `DuplicateKey`, and `try_add_item` returns `false` and leaves
/// that value in place.
pub proof fn lemma_added_twice<T>(m: Map<ItemView, T>, k: ItemView, v: T)
    requires
        !m.contains_key(k),
    ensures
        m.insert(k, v).contains_key(k),
        m.insert(k, v)[k] == v,
{
}

/// A value that `edit_value` wrote for an item is what `get_val` and
/// `try_get_val` read for it next, and the other items are as before.
pub proof fn lemma_read_after_write<T>(m: Map<ItemView, T>, k: ItemView, v: T, other: ItemView)
    requires
        m.contains_key(k),
        other != k,
    ensures
        m.insert(k, v).contains_key(k),
        m.insert(k, v)[k] == v,
        m.insert(k, v).contains_key(other) == m.contains_key(other),
        m.contains_key(other) ==> m.insert(k, v)[other] == m[other],
{
}

} // verus!
