use vstd::prelude::*;

verus! {

/// An optional value carried as a whole; absent, it stands for nothing.
pub struct Maybe<B>(pub Option<B>);

/// Wraps an optional value into a `Maybe`.
pub trait MaybeBundleExt<B>: Sized {
    spec fn wrapped(self) -> Option<B>;

    fn into_bundle(self) -> (r: Maybe<B>)
        ensures
            r.0 == self.wrapped(),
    ;
}

impl<B> MaybeBundleExt<B> for Option<B> {
    open spec fn wrapped(self) -> Option<B> {
        self
    }

    fn into_bundle(self) -> (r: Maybe<B>) {
        Maybe(self)
    }
}

} // verus!
