//! An index of facts "column has value in row", with the maps that let it be
//! walked by column, by row and by intersection kept in step with the facts.
pub mod idset;
pub mod utils;
pub mod hashvec;
pub mod setmap;
pub mod index;
pub mod table;
pub mod bulk;
pub mod inverse;

pub use crate::hashvec::HashVec;
pub use crate::inverse::InverseTable;
pub use crate::setmap::remove_from_set_and_map;
pub use crate::table::{Table, TableKV};
pub use crate::utils::SeqExt;
