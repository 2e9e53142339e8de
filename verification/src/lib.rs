//! A persistent finger-tree sequence annotated with a caller-supplied monoid:
//! double-ended access in amortized constant time, concatenation and
//! measure-guided splitting in logarithmic time, all verified against the
//! tree's sequence of elements and the monoidal combination of their measures.

pub mod measures;
pub mod monoid;
pub mod persistent;
