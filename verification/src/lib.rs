//! Extraction of GraphQL operation identifiers from a web client's public assets.

pub mod bundle;
pub mod fragment;
pub mod homepage;
pub mod index;
pub mod lookup;
pub mod text;
