pub mod allocation;
pub mod combos;
pub mod inventory;
pub mod pair_search;
pub mod points;
