use vstd::prelude::*;

verus! {

/// What one poll of a stream gave.
pub enum StreamPoll<T> {
    /// The stream produced an item.
    Item(T),
    /// The stream has completed.
    End,
    /// The stream is alive and has nothing to give yet.
    Pending,
}

/// What one poll of a fallible stream gave.
pub enum TryStreamPoll<T, E> {
    /// The stream produced a successful item.
    Item(T),
    /// The stream produced an error; it is not over.
    Failed(E),
    /// The stream has completed.
    End,
    /// The stream is alive and has nothing to give yet.
    Pending,
}

} // verus!
