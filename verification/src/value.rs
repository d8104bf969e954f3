//! Runtime values and their ownership tags.
//!
//! A `Value` is a handle to one heap block, identified here by a block id.
//! The handle is either owning (its holder must release the block exactly
//! once) or a non-owning reference (the block belongs to another owner and
//! must never be released through this handle).

use vstd::prelude::*;

verus! {

/// A runtime value: a handle to one heap block together with its
/// ownership tag.
///
/// `Owned(b)` is the exclusively owning handle of block `b`: whoever
/// holds it must release `b` exactly once. `Reference(b)` merely aliases
/// block `b`, whose owner lives elsewhere; releasing through it is
/// forbidden. The tag is chosen by the producer of the value and is
/// trusted as given.
#[derive(Clone, Copy, Debug, PartialEq, Eq, Structural)]
pub enum Value {
    /// Owning handle: the holder must release this block exactly once.
    Owned(u64),
    /// Non-owning alias of a block owned elsewhere: never released here.
    Reference(u64),
}

impl Value {
    /// Whether this handle owns its block.
    pub open spec fn spec_is_owned(self) -> bool {
        self is Owned
    }

    /// The id of the heap block this handle designates.
    pub open spec fn spec_payload(self) -> u64 {
        match self {
            Value::Owned(b) => b,
            Value::Reference(b) => b,
        }
    }

    /// Pure query: does this handle own its block?
    pub fn is_owned(&self) -> (r: bool)
        ensures
            r == self.spec_is_owned(),
    {
        match self {
            Value::Owned(_) => true,
            Value::Reference(_) => false,
        }
    }

    /// Pure query: is this handle a non-owning reference?
    pub fn is_ref(&self) -> (r: bool)
        ensures
            r == !self.spec_is_owned(),
    {
        !self.is_owned()
    }

    /// The id of the heap block this handle designates.
    pub fn payload(&self) -> (r: u64)
        ensures
            r == self.spec_payload(),
    {
        match self {
            Value::Owned(b) => *b,
            Value::Reference(b) => *b,
        }
    }

    /// Release the owned block, consuming the handle, and report the id
    /// of the block that was freed so the surrounding runtime can reclaim
    /// it. Only an owning handle that has not been released before may be
    /// freed; the environment's teardown is the one release path and
    /// upholds that protocol.
    pub fn free(self) -> (r: u64)
        requires
            self.spec_is_owned(),
        ensures
            r == self.spec_payload(),
    {
        match self {
            Value::Owned(b) => b,
            Value::Reference(b) => b,
        }
    }
}

} // verus!
