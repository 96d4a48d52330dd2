//! Numbers in scientific notation: an exact decimal coefficient and a
//! power-of-ten exponent, with parsing, normalisation, addition and
//! rendering, each stated by a contract and proved.

pub mod coefficient;
pub mod digits;
pub mod error;
pub mod laws;
pub mod primitive;
pub mod sci_not;
pub mod text;

pub use coefficient::Coefficient;
pub use error::{SciError, SciResult};
pub use sci_not::SciNote;
