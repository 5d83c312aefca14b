//! Crafting: whether a catalog of quantities can pay for a recipe, and what
//! the catalog holds once the recipe has been applied.

use crate::itemsys::item::{Item, ItemView};
use crate::itemsys::list::{CatalogError, ItemList};
use crate::itemsys::recipe::{lines, Recipie, RecipieView};
use vstd::prelude::*;

verus! {

/// Some input line names an item that the catalog has no entry for.
pub open spec fn missing_input(m: Map<ItemView, u64>, inputs: Seq<(ItemView, u64)>) -> bool {
    exists|i: int| 0 <= i < inputs.len() && !m.contains_key((#[trigger] inputs[i]).0)
}

/// Every input line, taken by itself, is covered: the catalog holds at
/// least the line's quantity times `amount` of the line's item.
pub open spec fn affordable(
    m: Map<ItemView, u64>,
    inputs: Seq<(ItemView, u64)>,
    amount: u64,
) -> bool {
    forall|i: int|
        0 <= i < inputs.len() ==> m.contains_key((#[trigger] inputs[i]).0) && m[inputs[i].0]
            >= inputs[i].1 * amount
}

/// The catalog after the input lines have been taken from it one after the
/// other, each times `amount`; `None` if a line finds too little left.
pub open spec fn withdraw(
    m: Map<ItemView, u64>,
    inputs: Seq<(ItemView, u64)>,
    amount: u64,
) -> Option<Map<ItemView, u64>>
    decreases inputs.len(),
{
    if inputs.len() == 0 {
        Some(m)
    } else {
        let item = inputs[0].0;
        let need = inputs[0].1 * amount;
        if m.contains_key(item) && m[item] >= need {
            withdraw(m.insert(item, (m[item] - need) as u64), inputs.drop_first(), amount)
        } else {
            None
        }
    }
}

/// The catalog after the output lines have been added to it one after the
/// other, each times `amount`, an item without an entry counting as zero;
/// `None` if a quantity would exceed `u64::MAX`.
pub open spec fn deposit(
    m: Map<ItemView, u64>,
    outputs: Seq<(ItemView, u64)>,
    amount: u64,
) -> Option<Map<ItemView, u64>>
    decreases outputs.len(),
{
    if outputs.len() == 0 {
        Some(m)
    } else {
        let item = outputs[0].0;
        let have = if m.contains_key(item) {
            m[item]
        } else {
            0
        };
        let total = have + outputs[0].1 * amount;
        if total <= u64::MAX {
            deposit(m.insert(item, total as u64), outputs.drop_first(), amount)
        } else {
            None
        }
    }
}

/// The outcome of applying a recipe `amount` times: the new catalog, or the
/// reason why the recipe cannot be applied.
pub open spec fn crafted(m: Map<ItemView, u64>, recipe: RecipieView, amount: u64) -> Result<
    Map<ItemView, u64>,
    CatalogError,
> {
    if missing_input(m, recipe.inputs) {
        Err(CatalogError::KeyNotFound)
    } else {
        match withdraw(m, recipe.inputs, amount) {
            None => Err(CatalogError::InsufficientQuantity),
            Some(rest) => match deposit(rest, recipe.outputs, amount) {
                None => Err(CatalogError::ArithmeticOverflow),
                Some(done) => Ok(done),
            },
        }
    }
}

/// No two input lines name the same item.
pub open spec fn distinct_items(inputs: Seq<(ItemView, u64)>) -> bool {
    forall|i: int, j: int|
        0 <= i < j < inputs.len() ==> (#[trigger] inputs[i]).0 != (#[trigger] inputs[j]).0
}

impl ItemList<u64> {
    /// Tells whether the list holds enough of every input of `recipie` to
    /// craft it `amount` times, each input line taken by itself. Fails with
    /// `KeyNotFound` if the list has no entry for the item of some input.
    pub fn can_afford(&self, recipie: &Recipie, amount: u64) -> (r: Result<bool, CatalogError>)
        ensures
            r == (if missing_input(self@, recipie@.inputs) {
                Err::<bool, CatalogError>(CatalogError::KeyNotFound)
            } else {
                Ok(affordable(self@, recipie@.inputs, amount))
            }),
    {
        let inputs = recipie.inputs();
        let ghost ins = recipie@.inputs;
        let mut enough = true;
        let mut i: usize = 0;
        while i < inputs.len()
            invariant
                ins == recipie@.inputs,
                ins == lines(inputs@),
                i <= inputs.len(),
                forall|j: int| 0 <= j < i ==> self@.contains_key((#[trigger] ins[j]).0),
                enough == (forall|j: int|
                    0 <= j < i ==> self@[(#[trigger] ins[j]).0] >= ins[j].1 * amount),
            decreases inputs.len() - i,
        {
            assert(ins[i as int] == (inputs@[i as int].0@, inputs@[i as int].1));
            match self.try_get_val(&inputs[i].0) {
                None => {
                    return Err(CatalogError::KeyNotFound);
                },
                Some(have) => {
                    let covered = match inputs[i].1.checked_mul(amount) {
                        Some(need) => *have >= need,
                        None => false,
                    };
                    assert(covered == (self@[ins[i as int].0] >= ins[i as int].1 * amount));
                    enough = enough && covered;
                },
            }
            i += 1;
        }
        Ok(enough)
    }

    /// Takes each input line from the list, times `amount`. Returns whether
    /// all could be taken; if not, the list is left part-way.
    fn take_inputs(&mut self, inputs: &Vec<(Item, u64)>, amount: u64) -> (taken: bool)
        requires
            !missing_input(old(self)@, lines(inputs@)),
        ensures
            taken == (withdraw(old(self)@, lines(inputs@), amount) is Some),
            taken ==> withdraw(old(self)@, lines(inputs@), amount) == Some(final(self)@),
    {
        let ghost start = self@;
        let ghost ins = lines(inputs@);
        let mut i: usize = 0;
        proof {
            assert(ins.skip(0) =~= ins);
        }
        while i < inputs.len()
            invariant
                start == old(self)@,
                ins == lines(inputs@),
                i <= inputs.len(),
                forall|j: int| 0 <= j < ins.len() ==> self@.contains_key((#[trigger] ins[j]).0),
                withdraw(start, ins, amount) == withdraw(self@, ins.skip(i as int), amount),
            decreases inputs.len() - i,
        {
            proof {
                assert(ins[i as int] == (inputs@[i as int].0@, inputs@[i as int].1));
                assert(ins.skip(i as int).drop_first() =~= ins.skip(i + 1));
                assert(ins.skip(i as int)[0] == ins[i as int]);
            }
            let left = match (self.try_get_val(&inputs[i].0), inputs[i].1.checked_mul(amount)) {
                (Some(have), Some(need)) => have.checked_sub(need),
                _ => None,
            };
            match left {
                Some(quantity) => {
                    let _ = self.edit_value(&inputs[i].0, quantity);
                },
                None => {
                    return false;
                },
            }
            i += 1;
        }
        proof {
            assert(ins.skip(ins.len() as int) =~= Seq::empty());
        }
        true
    }

    /// Adds each output line to the list, times `amount`, making an entry
    /// for an item that has none. Returns whether every quantity fits; if
    /// not, the list is left part-way.
    fn give_outputs(&mut self, outputs: &Vec<(Item, u64)>, amount: u64) -> (given: bool)
        ensures
            given == (deposit(old(self)@, lines(outputs@), amount) is Some),
            given ==> deposit(old(self)@, lines(outputs@), amount) == Some(final(self)@),
    {
        let ghost start = self@;
        let ghost outs = lines(outputs@);
        let mut i: usize = 0;
        proof {
            assert(outs.skip(0) =~= outs);
        }
        while i < outputs.len()
            invariant
                start == old(self)@,
                outs == lines(outputs@),
                i <= outputs.len(),
                deposit(start, outs, amount) == deposit(self@, outs.skip(i as int), amount),
            decreases outputs.len() - i,
        {
            proof {
                assert(outs[i as int] == (outputs@[i as int].0@, outputs@[i as int].1));
                assert(outs.skip(i as int).drop_first() =~= outs.skip(i + 1));
                assert(outs.skip(i as int)[0] == outs[i as int]);
            }
            let made = match outputs[i].1.checked_mul(amount) {
                Some(quantity) => quantity,
                None => {
                    return false;
                },
            };
            match self.try_get_val(&outputs[i].0) {
                Some(have) => {
                    match have.checked_add(made) {
                        Some(total) => {
                            let _ = self.edit_value(&outputs[i].0, total);
                        },
                        None => {
                            return false;
                        },
                    }
                },
                None => {
                    let _ = self.try_add_item(&outputs[i].0, made);
                },
            }
            i += 1;
        }
        proof {
            assert(outs.skip(outs.len() as int) =~= Seq::empty());
        }
        true
    }

    /// Applies `recipie` to the list `amount` times: takes each input line
    /// from the list, then adds each output line to it, making an entry for
    /// an output item that has none.
    ///
    /// The recipe is applied as a whole or not at all. It is refused with
    /// `KeyNotFound` if the list has no entry for the item of some input,
    /// else with `InsufficientQuantity` if the inputs cannot all be taken,
    /// else with `ArithmeticOverflow` if an output would exceed `u64::MAX`;
    /// the list is then unchanged.
    pub fn craft(&mut self, recipie: Recipie, amount: u64) -> (r: Result<(), CatalogError>)
        ensures
            match r {
                Ok(()) => crafted(old(self)@, recipie@, amount) == Ok::<
                    Map<ItemView, u64>,
                    CatalogError,
                >(final(self)@),
                Err(e) => crafted(old(self)@, recipie@, amount) == Err::<
                    Map<ItemView, u64>,
                    CatalogError,
                >(e) && final(self)@ == old(self)@,
            },
    {
        match self.can_afford(&recipie, amount) {
            Err(e) => {
                return Err(e);
            },
            Ok(false) => {
                proof {
                    if withdraw(self@, recipie@.inputs, amount) is Some {
                        lemma_withdraw_needs_affordable(self@, recipie@.inputs, amount);
                    }
                }
                return Err(CatalogError::InsufficientQuantity);
            },
            Ok(true) => {},
        }
        // The recipe is worked on a copy, which takes the list's place only
        // once every line has gone through.
        let mut work = self.clone();
        assert(work@ =~= self@);
        if !work.take_inputs(recipie.inputs(), amount) {
            return Err(CatalogError::InsufficientQuantity);
        }
        if !work.give_outputs(recipie.outputs(), amount) {
            return Err(CatalogError::ArithmeticOverflow);
        }
        *self = work;
        Ok(())
    }
}

/// Taking the inputs succeeds only from a catalog that covers every line.
pub proof fn lemma_withdraw_needs_affordable(
    m: Map<ItemView, u64>,
    inputs: Seq<(ItemView, u64)>,
    amount: u64,
)
    requires
        withdraw(m, inputs, amount) is Some,
    ensures
        affordable(m, inputs, amount),
    decreases inputs.len(),
{
    if inputs.len() > 0 {
        let item = inputs[0].0;
        let need = inputs[0].1 * amount;
        let next = m.insert(item, (m[item] - need) as u64);
        let rest = inputs.drop_first();
        lemma_withdraw_needs_affordable(next, rest, amount);
        assert forall|i: int| 0 <= i < inputs.len() implies m.contains_key(
            (#[trigger] inputs[i]).0,
        ) && m[inputs[i].0] >= inputs[i].1 * amount by {
            if i > 0 {
                assert(rest[i - 1] == inputs[i]);
                assert(next.contains_key(rest[i - 1].0));
            }
        }
    }
}

/// Where no item occurs in two input lines, a catalog that covers every
/// line also covers them all together: taking the inputs succeeds.
pub proof fn lemma_affordable_withdraws(
    m: Map<ItemView, u64>,
    inputs: Seq<(ItemView, u64)>,
    amount: u64,
)
    requires
        affordable(m, inputs, amount),
        distinct_items(inputs),
    ensures
        withdraw(m, inputs, amount) is Some,
    decreases inputs.len(),
{
    if inputs.len() > 0 {
        let item = inputs[0].0;
        let need = inputs[0].1 * amount;
        assert(m.contains_key(inputs[0].0));
        let next = m.insert(item, (m[item] - need) as u64);
        let rest = inputs.drop_first();
        assert forall|i: int| 0 <= i < rest.len() implies next.contains_key(
            (#[trigger] rest[i]).0,
        ) && next[rest[i].0] >= rest[i].1 * amount by {
            assert(rest[i] == inputs[i + 1]);
            assert(inputs[0].0 != inputs[i + 1].0);
        }
        assert forall|i: int, j: int| 0 <= i < j < rest.len() implies (#[trigger] rest[i]).0 != (
        #[trigger] rest[j]).0 by {
            assert(rest[i] == inputs[i + 1] && rest[j] == inputs[j + 1]);
        }
        lemma_affordable_withdraws(next, rest, amount);
    }
}

/// A recipe is applied only to a catalog that can afford it.
pub proof fn lemma_crafted_needs_affordable(
    m: Map<ItemView, u64>,
    recipe: RecipieView,
    amount: u64,
)
    requires
        crafted(m, recipe, amount) is Ok,
    ensures
        !missing_input(m, recipe.inputs),
        affordable(m, recipe.inputs, amount),
{
    lemma_withdraw_needs_affordable(m, recipe.inputs, amount);
}

/// A catalog that can afford a recipe whose input lines name distinct items
/// is refused only when an output would overflow.
pub proof fn lemma_affordable_crafts(m: Map<ItemView, u64>, recipe: RecipieView, amount: u64)
    requires
        affordable(m, recipe.inputs, amount),
        distinct_items(recipe.inputs),
    ensures
        crafted(m, recipe, amount) is Ok || crafted(m, recipe, amount) == Err::<
            Map<ItemView, u64>,
            CatalogError,
        >(CatalogError::ArithmeticOverflow),
{
    lemma_affordable_withdraws(m, recipe.inputs, amount);
    assert(!missing_input(m, recipe.inputs));
}

} // verus!
