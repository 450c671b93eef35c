//! Small identifiers that stand for table positions.
use vstd::prelude::*;

verus! {

/// A small identifier that stands for a position in a dense table.
///
/// Two identifiers are the same key exactly when they stand for the same
/// position.
pub trait IdLike: Copy + Sized {
    /// The position that this identifier stands for.
    spec fn pos(&self) -> nat;

    /// The identifier that `null` returns.
    spec fn spec_null() -> Self;

    /// The identifier used for "no identifier".
    fn null() -> (r: Self)
        ensures
            r.pos() == Self::spec_null().pos(),
    ;

    /// The identifier's position as a `usize`.
    fn into_pos(self) -> (r: usize)
        ensures
            r as nat == self.pos(),
    ;

    /// The identifier that stands for position `p`.
    fn from_pos(p: usize) -> (r: Self)
        ensures
            r.pos() == p as nat,
    ;

    /// Whether this identifier stands for the same position as `null()`.
    fn is_null(self) -> (r: bool)
        ensures
            r == (self.pos() == Self::spec_null().pos()),
    {
        self.into_pos() == Self::null().into_pos()
    }
}

/// A value that carries an identifier of its own.
pub trait Identifier {
    type Id: IdLike;

    /// The identifier that `id` returns.
    spec fn spec_id(&self) -> Self::Id;

    fn id(&self) -> (r: Self::Id)
        ensures
            r == self.spec_id(),
    ;
}

impl<T: IdLike> Identifier for T {
    type Id = T;

    open spec fn spec_id(&self) -> T {
        *self
    }

    fn id(&self) -> (r: T) {
        *self
    }
}

impl IdLike for usize {
    open spec fn pos(&self) -> nat {
        *self as nat
    }

    open spec fn spec_null() -> usize {
        usize::MAX
    }

    fn null() -> (r: usize) {
        usize::MAX
    }

    fn into_pos(self) -> (r: usize) {
        self
    }

    fn from_pos(p: usize) -> (r: usize) {
        p
    }
}

} // verus!
