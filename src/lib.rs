//! Finds camelCase and PascalCase identifiers in a C/C++ tree and works out
//! their snake_case spellings, in an order that makes literal whole-tree
//! replacement safe.
pub mod names;
pub mod symbols;
pub mod files;
pub mod pipeline;
