//! A hash map built from first principles: separate chaining over a
//! bucket array that doubles when the load factor passes three quarters.
pub mod key;
pub mod laws;
pub mod map;

pub use key::MapKey;
pub use map::{Entry, HashMap, Iter, OccupiedEntry, VacantEntry};
