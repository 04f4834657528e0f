//! `CatalogErrors`: every error found while building one catalog, not just the
//! first.
use vstd::prelude::*;

use super::catalog::{CatalogError, CatalogErrorView};
use vstd::std_specs::iter::IteratorSpec;

verus! {

/// Every error collected during one catalog build, in the order found.
#[derive(Debug, Clone)]
pub struct CatalogErrors(pub Vec<CatalogError>);

impl View for CatalogErrors {
    type V = Seq<CatalogErrorView>;

    open spec fn view(&self) -> Seq<CatalogErrorView> {
        self.0@.map_values(|e: CatalogError| e@)
    }
}

impl Default for CatalogErrors {
    fn default() -> (r: Self)
        ensures
            r@ == Seq::<CatalogErrorView>::empty(),
    {
        let r = CatalogErrors(Vec::new());
        assert(r@ =~= Seq::<CatalogErrorView>::empty());
        r
    }
}

impl CatalogErrors {
    pub fn is_empty(&self) -> (r: bool)
        ensures
            r == (self@.len() == 0),
    {
        self.0.len() == 0
    }

    pub fn len(&self) -> (r: usize)
        ensures
            r == self@.len(),
    {
        self.0.len()
    }

    /// The errors in the order they were found.
    pub fn iter(&self) -> (r: std::slice::Iter<'_, CatalogError>)
        ensures
            IteratorSpec::remaining(&r).unref() == self.0@,
    {
        self.0.iter()
    }
}

} // verus!
