//! Selection of the quantities to compress.

use vstd::prelude::*;

verus! {

/// Options controlling compression.
#[derive(Debug)]
pub struct CompressionOptions {
    quantity_ids: Vec<u32>,
}

impl CompressionOptions {
    /// The selected quantities.
    pub closed spec fn ids(self) -> Seq<u32> {
        self.quantity_ids@
    }

    /// Options that select the given quantities.
    pub fn new(quantity_ids: Vec<u32>) -> (r: Self)
        ensures
            r.ids() == quantity_ids@,
    {
        CompressionOptions { quantity_ids }
    }

    /// The selected quantities.
    pub fn quantity_ids(&self) -> (r: &[u32])
        ensures
            r@ == self.ids(),
    {
        self.quantity_ids.as_slice()
    }
}

impl Default for CompressionOptions {
    fn default() -> (r: Self)
        ensures
            r.ids().len() == 0,
    {
        CompressionOptions { quantity_ids: Vec::new() }
    }
}

} // verus!
