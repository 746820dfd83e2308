//! A declaration and alias table for a compiler's semantic analysis.
//!
//! [`AliasMap`] stores every declared entity under its canonical name,
//! resolves aliases to canonical names, keeps a secondary index from
//! classification keys to names, and reports duplicate declarations and
//! alias collisions as structured diagnostics. Its contracts are stated over
//! [`model::AliasMapView`]; [`laws`] proves what holds across operations.

pub mod alias_map;
pub mod declared;
pub mod error;
pub mod laws;
pub mod listing;
pub mod model;
pub mod name_set;
pub mod names;
pub mod ordered;
pub mod source;

pub use alias_map::AliasMap;
pub use declared::{Declaration, Declared};
pub use error::{CascadeErrors, CompileError, ErrorItem, InternalError};
pub use ordered::OrderedMap;
pub use source::CascadeString;
