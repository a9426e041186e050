//! Chosen rows of a collection, viewed as a collection of their own.
use vstd::prelude::*;
use crate::accessor::KeyAccessor;

verus! {

/// Row `p` of a `Picked` is row `rows[p]` of the underlying collection.
pub struct Picked<'a, T: KeyAccessor + ?Sized> {
    provider: &'a T,
    rows: Vec<usize>,
}

impl<'a, T: KeyAccessor + ?Sized> Picked<'a, T> {
    #[verifier::type_invariant]
    spec fn inv(self) -> bool {
        forall|p: int| 0 <= p < self.rows@.len() ==> #[trigger] self.rows@[p] < self.provider.row_count()
    }

    /// The chosen rows.
    pub closed spec fn rows_view(&self) -> Seq<usize> {
        self.rows@
    }

    /// The underlying collection.
    pub closed spec fn source(&self) -> &'a T {
        self.provider
    }

    /// Views the rows `rows` of `provider` as a collection.
    pub fn new(provider: &'a T, rows: Vec<usize>) -> (r: Self)
        requires
            forall|p: int| 0 <= p < rows.len() ==> #[trigger] rows@[p] < provider.row_count(),
        ensures
            r.rows_view() == rows@,
            r.source() == provider,
    {
        Picked { provider, rows }
    }

    /// Returns the chosen rows.
    pub fn rows(&self) -> (r: &Vec<usize>)
        ensures
            r@ == self.rows_view(),
            forall|p: int| 0 <= p < r.len() ==> #[trigger] r@[p] < self.source().row_count(),
    {
        proof {
            use_type_invariant(self);
        }
        &self.rows
    }

    /// The rows and keys of the view are those of the chosen rows.
    pub proof fn lemma_model(&self)
        ensures
            self.row_count() == self.rows_view().len(),
            forall|p: int|
                0 <= p < self.rows_view().len() ==> #[trigger] self.row_key(p) == self.source().row_key(
                    self.rows_view()[p] as int,
                ),
    {
    }
}

impl<'a, T: KeyAccessor + ?Sized> KeyAccessor for Picked<'a, T> {
    closed spec fn row_count(&self) -> nat {
        self.rows@.len()
    }

    closed spec fn row_key(&self, i: int) -> Seq<u8> {
        self.provider.row_key(self.rows@[i] as int)
    }

    fn get_key(&self, index: usize) -> (r: &[u8]) {
        proof {
            use_type_invariant(self);
        }
        self.provider.get_key(self.rows[index])
    }

    fn len(&self) -> (r: usize) {
        self.rows.len()
    }
}

} // verus!
