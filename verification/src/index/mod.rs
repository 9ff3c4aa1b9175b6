//! Indexes: the range filter, the learned key-position spline, the radix
//! tree snapshot and the table of contents.
pub mod lex;
pub mod surf;
pub mod radix_spline;
pub mod toc;
pub mod art;
