//! The 64-slot colour cache shared by encoder and decoder.
use vstd::prelude::*;

use crate::pixel::{hash, hash_of, Pixel};

verus! {

/// The cache at stream start: 64 all-zero pixels.
pub open spec fn empty_cache() -> Seq<Pixel> {
    Seq::new(64, |i: int| Pixel(0, 0, 0, 0))
}

/// The cache after pixel `p` has been processed.
pub open spec fn cache_put(cache: Seq<Pixel>, p: Pixel) -> Seq<Pixel> {
    cache.update(hash_of(p), p)
}

/// A direct-mapped table of recently seen pixels, indexed by `hash_of`.
pub struct ColorCache {
    slots: [Pixel; 64],
}

impl View for ColorCache {
    type V = Seq<Pixel>;

    closed spec fn view(&self) -> Seq<Pixel> {
        self.slots@
    }
}

impl ColorCache {
    pub fn new() -> (r: ColorCache)
        ensures
            r@ == empty_cache(),
    {
        let r = ColorCache { slots: [Pixel(0, 0, 0, 0); 64] };
        assert(r@ =~= empty_cache());
        r
    }

    pub fn get(&self, idx: usize) -> (r: Pixel)
        requires
            idx < 64,
        ensures
            r == self@[idx as int],
    {
        self.slots[idx]
    }

    /// Writes `p` into slot `hash_of(p)`, overwriting whatever was there.
    pub fn put(&mut self, p: Pixel)
        ensures
            final(self)@ == cache_put(old(self)@, p),
            final(self)@.len() == 64,
            final(self)@[hash_of(p)] == p,
    {
        let h = hash(p);
        self.slots[h] = p;
    }
}

} // verus!
