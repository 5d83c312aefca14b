//! Item kinds and their total order.

use crate::itemsys::order::{
    by_str, compare_str, lemma_lex_flip, lemma_lex_same, lemma_lex_trans, lemma_str_total_order,
    lex_rank, opt_str_rank, str_rank, Rank,
};
use std::cmp::Ordering;
use vstd::prelude::*;
#[allow(unused_imports)]
use vstd::std_specs::cmp::{PartialEqSpecImpl, PartialOrdSpecImpl};

verus! {

/// A kind of item: a name, an optional image reference, and tags in the
/// order in which they were added.
///
/// Two items are the same kind when all three fields agree. Items are
/// ordered by name, then by image reference, then by tags.
#[derive(Debug, Eq, Ord)]
pub struct Item {
    pub name: String,
    pub img_path: Option<String>,
    pub tags: Vec<String>,
}

/// What an `Item` stands for: its fields as mathematical text.
pub struct ItemView {
    pub name: Seq<char>,
    pub img_path: Option<Seq<char>>,
    pub tags: Seq<Seq<char>>,
}

/// The texts held by a sequence of strings.
pub open spec fn texts(v: Seq<String>) -> Seq<Seq<char>> {
    Seq::new(v.len(), |i: int| v[i]@)
}

impl View for Item {
    type V = ItemView;

    open spec fn view(&self) -> ItemView {
        ItemView {
            name: self.name@,
            img_path: match self.img_path {
                Some(p) => Some(p@),
                None => None,
            },
            tags: texts(self.tags@),
        }
    }
}

/// The order of items: by name, then by image reference (none before any),
/// then by tags, text by text.
#[verifier::opaque]
pub open spec fn item_rank(a: ItemView, b: ItemView) -> Rank {
    str_rank(a.name, b.name).refine(
        opt_str_rank(a.img_path, b.img_path).refine(lex_rank(a.tags, b.tags, by_str())),
    )
}

/// The outcome of a comparison as the standard library names it.
pub open spec fn to_ordering(r: Rank) -> Ordering {
    match r {
        Rank::Lower => Ordering::Less,
        Rank::Same => Ordering::Equal,
        Rank::Higher => Ordering::Greater,
    }
}

impl Item {
    /// Makes an item with the given name and image reference and no tags.
    pub fn new(name: &str, img_path: Option<&str>) -> (r: Item)
        ensures
            r@ == (ItemView {
                name: name@,
                img_path: match img_path {
                    Some(p) => Some(p@),
                    None => None,
                },
                tags: Seq::empty(),
            }),
    {
        let r = Item {
            name: name.to_owned(),
            img_path: match img_path {
                Some(p) => Some(p.to_owned()),
                None => None,
            },
            tags: Vec::new(),
        };
        assert(texts(r.tags@) =~= Seq::empty());
        r
    }

    /// Appends a tag. A tag that is already there is added once more.
    pub fn add_tag(self, tag: &str) -> (r: Item)
        ensures
            r@ == (ItemView { tags: self@.tags.push(tag@), ..self@ }),
    {
        let mut item = self;
        item.tags.push(tag.to_owned());
        assert(texts(item.tags@) =~= texts(self.tags@).push(tag@));
        item
    }

    /// Compares this item with another under the order of items.
    pub fn compare(&self, other: &Item) -> (r: Rank)
        ensures
            r == item_rank(self@, other@),
    {
        proof {
            reveal(item_rank);
        }
        match compare_str(self.name.as_str(), other.name.as_str()) {
            Rank::Same => {},
            r => {
                return r;
            },
        }
        let by_path = match (&self.img_path, &other.img_path) {
            (None, None) => Rank::Same,
            (None, Some(_)) => Rank::Lower,
            (Some(_), None) => Rank::Higher,
            (Some(p), Some(q)) => compare_str(p.as_str(), q.as_str()),
        };
        match by_path {
            Rank::Same => {},
            r => {
                return r;
            },
        }
        compare_tags(&self.tags, &other.tags)
    }
}

/// Compares two lists of tags, text by text.
fn compare_tags(a: &Vec<String>, b: &Vec<String>) -> (r: Rank)
    ensures
        r == lex_rank(texts(a@), texts(b@), by_str()),
{
    let ghost ta = texts(a@);
    let ghost tb = texts(b@);
    let mut i: usize = 0;
    proof {
        assert(ta.skip(0) =~= ta);
        assert(tb.skip(0) =~= tb);
    }
    while i < a.len() && i < b.len()
        invariant
            ta == texts(a@),
            tb == texts(b@),
            i <= a.len(),
            i <= b.len(),
            lex_rank(ta, tb, by_str()) == lex_rank(ta.skip(i as int), tb.skip(i as int), by_str()),
        decreases a.len() - i,
    {
        let r = compare_str(a[i].as_str(), b[i].as_str());
        proof {
            assert(ta.skip(i as int).drop_first() =~= ta.skip(i + 1));
            assert(tb.skip(i as int).drop_first() =~= tb.skip(i + 1));
            assert(ta.skip(i as int)[0] == a@[i as int]@);
            assert(tb.skip(i as int)[0] == b@[i as int]@);
        }
        match r {
            Rank::Same => {},
            _ => {
                return r;
            },
        }
        i += 1;
    }
    if i < b.len() {
        Rank::Lower
    } else if i < a.len() {
        Rank::Higher
    } else {
        Rank::Same
    }
}

impl Clone for Item {
    /// Makes another item of the same kind.
    fn clone(&self) -> (r: Item)
        ensures
            r@ == self@,
    {
        let mut tags: Vec<String> = Vec::new();
        let mut i: usize = 0;
        while i < self.tags.len()
            invariant
                i <= self.tags.len(),
                tags.len() == i,
                forall|j: int| 0 <= j < i ==> tags@[j]@ == self.tags@[j]@,
            decreases self.tags.len() - i,
        {
            tags.push(self.tags[i].clone());
            i += 1;
        }
        assert(texts(tags@) =~= texts(self.tags@));
        Item {
            name: self.name.clone(),
            img_path: match &self.img_path {
                Some(p) => Some(p.clone()),
                None => None,
            },
            tags,
        }
    }
}

impl PartialEq for Item {
    /// Two items are equal when they are the same kind.
    fn eq(&self, other: &Item) -> (r: bool) {
        proof {
            lemma_item_rank_same(self@, other@);
        }
        match self.compare(other) {
            Rank::Same => true,
            _ => false,
        }
    }
}

impl PartialEqSpecImpl for Item {
    open spec fn obeys_eq_spec() -> bool {
        true
    }

    open spec fn eq_spec(&self, other: &Item) -> bool {
        self@ == other@
    }
}

impl PartialOrd for Item {
    /// Items are ordered as `compare` orders them.
    fn partial_cmp(&self, other: &Item) -> (r: Option<Ordering>) {
        Some(
            match self.compare(other) {
                Rank::Lower => Ordering::Less,
                Rank::Same => Ordering::Equal,
                Rank::Higher => Ordering::Greater,
            },
        )
    }
}

impl PartialOrdSpecImpl for Item {
    open spec fn obeys_partial_cmp_spec() -> bool {
        true
    }

    open spec fn partial_cmp_spec(&self, other: &Item) -> Option<Ordering> {
        Some(to_ordering(item_rank(self@, other@)))
    }
}

/// Two items tie exactly when they are the same kind.
pub proof fn lemma_item_rank_same(a: ItemView, b: ItemView)
    ensures
        item_rank(a, b) == Rank::Same <==> a == b,
{
    reveal(item_rank);
    lemma_str_total_order();
    lemma_lex_same(a.tags, b.tags, by_str());
    assert(by_str()(a.name, b.name) == Rank::Same <==> a.name == b.name);
    match (a.img_path, b.img_path) {
        (Some(x), Some(y)) => {
            assert(by_str()(x, y) == Rank::Same <==> x == y);
        },
        _ => {},
    }
}

/// Exchanging two items flips the outcome of their comparison.
pub proof fn lemma_item_rank_flip(a: ItemView, b: ItemView)
    ensures
        item_rank(a, b) == item_rank(b, a).flip(),
{
    reveal(item_rank);
    lemma_str_total_order();
    lemma_lex_flip(a.tags, b.tags, by_str());
    assert(by_str()(a.name, b.name) == by_str()(b.name, a.name).flip());
    match (a.img_path, b.img_path) {
        (Some(x), Some(y)) => {
            assert(by_str()(x, y) == by_str()(y, x).flip());
        },
        _ => {},
    }
}

/// The order of items is transitive.
pub proof fn lemma_item_rank_trans(a: ItemView, b: ItemView, c: ItemView)
    requires
        item_rank(a, b) == Rank::Lower,
        item_rank(b, c) == Rank::Lower,
    ensures
        item_rank(a, c) == Rank::Lower,
{
    reveal(item_rank);
    lemma_str_total_order();
    let f = by_str();
    assert(f(a.name, b.name) == f(b.name, a.name).flip());
    assert(f(b.name, c.name) == f(c.name, b.name).flip());
    assert(f(a.name, c.name) == f(c.name, a.name).flip());
    if f(a.name, b.name) == Rank::Same && f(b.name, c.name) == Rank::Same {
        assert(a.name == b.name && b.name == c.name);
        match (a.img_path, b.img_path, c.img_path) {
            (Some(x), Some(y), Some(z)) => {
                assert(f(x, y) == f(y, x).flip());
                assert(f(y, z) == f(z, y).flip());
                assert(f(x, z) == f(z, x).flip());
                if f(x, y) == Rank::Same && f(y, z) == Rank::Same {
                    assert(x == y && y == z);
                    lemma_lex_trans(a.tags, b.tags, c.tags, f);
                }
            },
            (None, None, None) => {
                lemma_lex_trans(a.tags, b.tags, c.tags, f);
            },
            _ => {},
        }
    }
}

} // verus!
