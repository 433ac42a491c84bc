//! An insertion-ordered hash table and the mapping type built on it, with
//! live views and iterators that detect structural mutation.

pub mod value;
pub mod dictdatatype;
pub mod objdict;
pub mod laws;
