//! A variable-binding environment for an interpreter that manages heap
//! memory by hand. A scope maps names to runtime values; each value is
//! either an owning handle (the scope must release its heap block exactly
//! once at teardown) or a non-owning reference (the scope must never
//! release it). The environment tracks which is which and proves that
//! teardown frees every owned block exactly once and no referenced block
//! at all.

pub mod env;
pub mod value;
