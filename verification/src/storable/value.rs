//! The values a Storable body decodes to, and the tables the decoder keeps.
pub use crate::shared_model::{ByteMap, ClassTable, Heap, PerlValue, SeenTable, SpecValue, ValueRef};
