//! Bit-exact reproductions of two numeric algorithms of the Java standard
//! library: the `hashCode` rules of `java.lang.Object` and its boxed
//! primitives, strings and collections, and the linear-congruential generator
//! of `java.util.Random`.

/// The `hashCode` rules of `java.lang.Object`.
pub mod object;
/// The generator of `java.util.Random`.
pub mod util;

pub use crate::object::HashCode;
pub use crate::util::Random;
pub use crate::util::RandomError;
