//! Building blocks shared by the algebra: word order and sequence-like containers.

pub mod enumerator;
pub mod small_store;
pub mod string_tools;
pub mod util;
pub mod vector_like;
pub mod word_order;

pub use enumerator::Enumerator;
pub use string_tools::StringTools;
pub use util::{neg_one_pow, sort_two};
pub use vector_like::{Atom, VectorLike};
