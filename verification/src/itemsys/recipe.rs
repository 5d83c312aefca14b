//! Recipes: what a crafting step takes and what it gives.

use crate::itemsys::item::{Item, ItemView};
use vstd::prelude::*;

verus! {

/// A recipe consisting of inputs and outputs, each an item with the
/// quantity taken or given per unit crafted.
///
/// Nothing is demanded of the lists: an item may occur more than once, on
/// either side or on both, and a quantity may be zero.
#[derive(Debug, PartialEq, Eq)]
pub struct Recipie {
    name: String,
    inputs: Vec<(Item, u64)>,
    outputs: Vec<(Item, u64)>,
}

/// What a `Recipie` stands for.
pub struct RecipieView {
    pub name: Seq<char>,
    pub inputs: Seq<(ItemView, u64)>,
    pub outputs: Seq<(ItemView, u64)>,
}

/// The items and quantities that a list of recipe lines stands for.
pub open spec fn lines(v: Seq<(Item, u64)>) -> Seq<(ItemView, u64)> {
    Seq::new(v.len(), |i: int| (v[i].0@, v[i].1))
}

impl View for Recipie {
    type V = RecipieView;

    closed spec fn view(&self) -> RecipieView {
        RecipieView { name: self.name@, inputs: lines(self.inputs@), outputs: lines(self.outputs@) }
    }
}

impl Recipie {
    /// Makes a recipe from its name and its two lists of lines.
    pub fn new(name: &str, inputs: Vec<(Item, u64)>, outputs: Vec<(Item, u64)>) -> (r: Recipie)
        ensures
            r@ == (RecipieView { name: name@, inputs: lines(inputs@), outputs: lines(outputs@) }),
    {
        Recipie { name: name.to_owned(), inputs, outputs }
    }

    /// The recipe's name.
    pub fn name(&self) -> (r: &str)
        ensures
            r@ == self@.name,
    {
        self.name.as_str()
    }

    /// What the recipe takes, per unit crafted.
    pub fn inputs(&self) -> (r: &Vec<(Item, u64)>)
        ensures
            lines(r@) == self@.inputs,
    {
        &self.inputs
    }

    /// What the recipe gives, per unit crafted.
    pub fn outputs(&self) -> (r: &Vec<(Item, u64)>)
        ensures
            lines(r@) == self@.outputs,
    {
        &self.outputs
    }
}

/// Makes a copy of a list of recipe lines.
fn clone_lines(v: &Vec<(Item, u64)>) -> (r: Vec<(Item, u64)>)
    ensures
        lines(r@) == lines(v@),
{
    let mut r: Vec<(Item, u64)> = Vec::new();
    let mut i: usize = 0;
    while i < v.len()
        invariant
            i <= v.len(),
            r.len() == i,
            forall|j: int| 0 <= j < i ==> (#[trigger] r@[j]).0@ == v@[j].0@ && r@[j].1 == v@[j].1,
        decreases v.len() - i,
    {
        r.push((v[i].0.clone(), v[i].1));
        i += 1;
    }
    assert(lines(r@) =~= lines(v@));
    r
}

impl Clone for Recipie {
    /// Makes another recipe with the same name and lines.
    fn clone(&self) -> (r: Recipie)
        ensures
            r@ == self@,
    {
        Recipie {
            name: self.name.clone(),
            inputs: clone_lines(&self.inputs),
            outputs: clone_lines(&self.outputs),
        }
    }
}

} // verus!
