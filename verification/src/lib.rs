//! A small text-masking library.
//!
//! Given an input string, it obscures portions of it according to one of
//! several strategies (percentage-based, regex-group-based, prefix-based, or
//! full masking), replacing selected characters with a configurable mask
//! string while preserving carriage returns and line feeds unmodified.

pub mod mask;
