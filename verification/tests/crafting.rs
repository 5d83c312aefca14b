use gamekit::itemsys::{CatalogError, Item, ItemList, Recipie};

fn kind(name: &str) -> Item {
    Item::new(name, None)
}

fn stock(entries: &[(&str, u64)]) -> ItemList<u64> {
    let mut list = ItemList::new();
    for (name, quantity) in entries {
        assert!(list.try_add_item(&kind(name), *quantity));
    }
    list
}

fn recipe(inputs: &[(&str, u64)], outputs: &[(&str, u64)]) -> Recipie {
    Recipie::new(
        "recipe",
        inputs.iter().map(|(n, q)| (kind(n), *q)).collect(),
        outputs.iter().map(|(n, q)| (kind(n), *q)).collect(),
    )
}

fn planks() -> Recipie {
    recipe(&[("wood", 2)], &[("plank", 1)])
}

#[test]
fn recipe_keeps_what_it_was_made_from() {
    let r = Recipie::new(
        "planks",
        vec![(kind("wood"), 2)],
        vec![(kind("plank"), 1), (kind("dust"), 0)],
    );
    assert_eq!(r.name(), "planks");
    assert_eq!(r.inputs(), &vec![(kind("wood"), 2)]);
    assert_eq!(r.outputs(), &vec![(kind("plank"), 1), (kind("dust"), 0)]);
}

#[test]
fn crafting_planks_from_wood() {
    let mut list = stock(&[("wood", 4)]);
    assert_eq!(list.can_afford(&planks(), 2), Ok(true));
    assert_eq!(list.craft(planks(), 2), Ok(()));
    assert_eq!(list, stock(&[("wood", 0), ("plank", 2)]));
}

#[test]
fn crafting_with_too_little_wood() {
    let mut list = stock(&[("wood", 3)]);
    assert_eq!(list.can_afford(&planks(), 2), Ok(false));
    assert_eq!(
        list.craft(planks(), 2),
        Err(CatalogError::InsufficientQuantity)
    );
    assert_eq!(list, stock(&[("wood", 3)]));
}

#[test]
fn can_afford_checks_every_input() {
    let r = recipe(&[("wood", 2), ("nail", 5)], &[("chair", 1)]);
    assert_eq!(stock(&[("wood", 4), ("nail", 10)]).can_afford(&r, 2), Ok(true));
    assert_eq!(stock(&[("wood", 4), ("nail", 9)]).can_afford(&r, 2), Ok(false));
    assert_eq!(stock(&[("wood", 3), ("nail", 10)]).can_afford(&r, 2), Ok(false));
    assert_eq!(stock(&[("wood", 0), ("nail", 0)]).can_afford(&r, 0), Ok(true));
}

#[test]
fn can_afford_reports_a_missing_input() {
    let r = recipe(&[("wood", 2), ("nail", 5)], &[("chair", 1)]);
    assert_eq!(
        stock(&[("wood", 4)]).can_afford(&r, 1),
        Err(CatalogError::KeyNotFound)
    );
    assert_eq!(
        stock(&[("nail", 50)]).can_afford(&r, 1),
        Err(CatalogError::KeyNotFound)
    );
    // A missing item is reported even where another input is short.
    assert_eq!(
        stock(&[("wood", 1)]).can_afford(&r, 1),
        Err(CatalogError::KeyNotFound)
    );
    assert_eq!(
        stock(&[]).can_afford(&r, 0),
        Err(CatalogError::KeyNotFound)
    );
}

#[test]
fn can_afford_without_inputs() {
    let r = recipe(&[], &[("air", 1)]);
    assert_eq!(stock(&[]).can_afford(&r, 7), Ok(true));
}

#[test]
fn can_afford_with_a_need_beyond_u64() {
    let r = recipe(&[("wood", u64::MAX)], &[]);
    assert_eq!(stock(&[("wood", u64::MAX)]).can_afford(&r, 1), Ok(true));
    assert_eq!(stock(&[("wood", u64::MAX)]).can_afford(&r, 2), Ok(false));
}

#[test]
fn craft_adds_to_an_output_that_is_there() {
    let mut list = stock(&[("wood", 10), ("plank", 5)]);
    assert_eq!(list.craft(planks(), 3), Ok(()));
    assert_eq!(list, stock(&[("wood", 4), ("plank", 8)]));
}

#[test]
fn craft_reports_a_missing_input_and_changes_nothing() {
    let r = recipe(&[("wood", 2), ("nail", 5)], &[("chair", 1)]);
    let mut list = stock(&[("wood", 4)]);
    assert_eq!(list.craft(r, 1), Err(CatalogError::KeyNotFound));
    assert_eq!(list, stock(&[("wood", 4)]));
}

#[test]
fn craft_reports_overflow_and_changes_nothing() {
    let mut list = stock(&[("wood", 4), ("plank", u64::MAX - 1)]);
    assert_eq!(
        list.craft(planks(), 2),
        Err(CatalogError::ArithmeticOverflow)
    );
    assert_eq!(list, stock(&[("wood", 4), ("plank", u64::MAX - 1)]));

    assert_eq!(list.craft(planks(), 1), Ok(()));
    assert_eq!(list, stock(&[("wood", 2), ("plank", u64::MAX)]));

    let many = recipe(&[("wood", 0)], &[("chip", u64::MAX)]);
    assert_eq!(list.craft(many, 2), Err(CatalogError::ArithmeticOverflow));
    assert_eq!(list, stock(&[("wood", 2), ("plank", u64::MAX)]));
}

#[test]
fn craft_is_all_or_nothing() {
    // The first output fits, the second does not: neither is written, and
    // the inputs are not taken.
    let r = recipe(&[("ore", 1)], &[("bar", 1), ("slag", 1)]);
    let mut list = stock(&[("ore", 5), ("slag", u64::MAX)]);
    assert_eq!(list.craft(r, 1), Err(CatalogError::ArithmeticOverflow));
    assert_eq!(list, stock(&[("ore", 5), ("slag", u64::MAX)]));
}

#[test]
fn craft_takes_a_repeated_input_every_time() {
    let twice = recipe(&[("wood", 2), ("wood", 3)], &[("beam", 1)]);
    let mut list = stock(&[("wood", 5)]);
    assert_eq!(list.can_afford(&twice, 1), Ok(true));
    assert_eq!(list.craft(twice, 1), Ok(()));
    assert_eq!(list, stock(&[("wood", 0), ("beam", 1)]));
}

#[test]
fn craft_refuses_when_repeated_inputs_add_up_to_too_much() {
    let twice = recipe(&[("wood", 2), ("wood", 3)], &[("beam", 1)]);
    let mut list = stock(&[("wood", 4)]);
    // Each line by itself is covered, both together are not.
    assert_eq!(list.can_afford(&twice, 1), Ok(true));
    assert_eq!(
        list.craft(twice, 1),
        Err(CatalogError::InsufficientQuantity)
    );
    assert_eq!(list, stock(&[("wood", 4)]));
}

#[test]
fn craft_adds_a_repeated_output_every_time() {
    let r = recipe(&[], &[("coin", 2), ("coin", 3)]);
    let mut list = stock(&[]);
    assert_eq!(list.craft(r, 4), Ok(()));
    assert_eq!(list, stock(&[("coin", 20)]));
}

#[test]
fn craft_with_an_item_on_both_sides() {
    let r = recipe(&[("seed", 1)], &[("seed", 3)]);
    let mut list = stock(&[("seed", 2)]);
    assert_eq!(list.craft(r, 2), Ok(()));
    assert_eq!(list, stock(&[("seed", 6)]));
}

#[test]
fn craft_zero_times_makes_entries_for_the_outputs() {
    let mut list = stock(&[("wood", 0)]);
    assert_eq!(list.craft(planks(), 0), Ok(()));
    assert_eq!(list, stock(&[("wood", 0), ("plank", 0)]));
}

#[test]
fn craft_tells_items_apart_by_their_tags() {
    let oak = kind("wood").add_tag("oak");
    let r = Recipie::new("oak planks", vec![(oak.clone(), 1)], vec![(kind("plank"), 4)]);
    let mut plain = stock(&[("wood", 9)]);
    assert_eq!(plain.can_afford(&r, 1), Err(CatalogError::KeyNotFound));
    assert_eq!(plain.craft(r, 1), Err(CatalogError::KeyNotFound));
    assert_eq!(plain, stock(&[("wood", 9)]));

    let r = Recipie::new("oak planks", vec![(oak.clone(), 1)], vec![(kind("plank"), 4)]);
    let mut tagged = ItemList::new().add_item(&oak, 1u64).unwrap();
    assert_eq!(tagged.craft(r, 1), Ok(()));
    assert_eq!(tagged.get_val(&oak), Ok(&0));
    assert_eq!(tagged.get_val(&kind("plank")), Ok(&4));
}

#[test]
fn one_recipe_serves_many_lists() {
    let r = planks();
    let mut rich = stock(&[("wood", 100)]);
    let mut poor = stock(&[("wood", 1)]);
    assert_eq!(rich.can_afford(&r, 3), Ok(true));
    assert_eq!(poor.can_afford(&r, 3), Ok(false));
    assert_eq!(rich.craft(r.clone(), 3), Ok(()));
    assert_eq!(poor.craft(r.clone(), 3), Err(CatalogError::InsufficientQuantity));
    assert_eq!(rich.craft(r, 3), Ok(()));
    assert_eq!(rich, stock(&[("wood", 88), ("plank", 6)]));
    assert_eq!(poor, stock(&[("wood", 1)]));
}
