use vstd::prelude::*;

verus! {

/// Which class of waiter is favoured when readers and writers contend.
#[derive(Clone, Copy, Debug, PartialEq, Eq, Structural)]
pub enum Preference {
    /// Readers wait only while a writer is active; writers wait while a
    /// writer is active, or while any reader is active or waiting.
    Reader,
    /// Readers wait while a writer is active or waiting; writers wait while
    /// a writer or a reader is active.
    Writer,
}

/// In which order waiters of one class are released.
#[derive(Clone, Copy, Debug, PartialEq, Eq, Structural)]
pub enum Order {
    /// First in, first out: the head of a queue goes first.
    Fifo,
    /// Last in, first out: the tail of a queue goes first.
    Lifo,
}

} // verus!
