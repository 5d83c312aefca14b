//! Item kinds, catalogs that map item kinds to values, and crafting recipes.

pub mod craft;
pub mod item;
pub mod list;
pub mod order;
pub mod recipe;

pub use self::item::{Item, ItemView};
pub use self::list::{CatalogError, ItemList};
pub use self::order::Rank;
pub use self::recipe::{Recipie, RecipieView};
