//! Verified decoders for Perl's Storable and Sereal serialisation formats.
pub mod float_bits;
pub mod sereal;
pub mod shared_model;
pub mod storable;
pub mod text;
