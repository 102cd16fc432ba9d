//! The 64-slot cache of recently seen pixels, indexed by a hash of the pixel.
use crate::pixel::{Pixel, zero_pixel};
use vstd::prelude::*;

verus! {

/// Number of slots in the cache.
pub const CACHE_SIZE: usize = 64;

/// The slot of a pixel: `(3r + 5g + 7b + 11a) mod 64`.
pub open spec fn hash_of(p: Pixel) -> int {
    (3 * p.r + 5 * p.g + 7 * p.b + 11 * p.a) % 64
}

/// The cache before any pixel: every slot holds the zero pixel.
pub open spec fn empty_cache() -> Seq<Pixel> {
    Seq::new(64, |i: int| zero_pixel())
}

/// The cache after `p` is stored in its slot.
pub open spec fn cache_put(cache: Seq<Pixel>, p: Pixel) -> Seq<Pixel> {
    cache.update(hash_of(p), p)
}

/// The cache: slot `hash(p)` holds the last pixel `p` stored with that hash.
pub struct Runner {
    pub memory: [Pixel; 64],
}

impl Runner {
    /// The cache contents, one pixel per slot.
    pub open spec fn slots(&self) -> Seq<Pixel> {
        self.memory@
    }

    /// A cache with every slot zero.
    pub fn new() -> (r: Runner)
        ensures
            r.slots() == empty_cache(),
    {
        let r = Runner { memory: [Pixel::zero(); 64] };
        assert(r.slots() =~= empty_cache());
        r
    }

    /// The slot of `pixel`.
    pub fn hash(pixel: &Pixel) -> (r: u8)
        ensures
            r == hash_of(*pixel),
            r < 64,
    {
        let sum: u32 = 3 * (pixel.r as u32) + 5 * (pixel.g as u32) + 7 * (pixel.b as u32)
            + 11 * (pixel.a as u32);
        (sum % 64) as u8
    }

    /// On a hit (the slot of `pixel` already holds it) returns the slot and
    /// leaves the cache as it is; otherwise stores `pixel` and returns `None`.
    pub fn match_or_update(&mut self, pixel: &Pixel) -> (r: Option<u8>)
        ensures
            old(self).slots()[hash_of(*pixel)] == *pixel ==> r == Some(hash_of(*pixel) as u8)
                && final(self).slots() == old(self).slots(),
            old(self).slots()[hash_of(*pixel)] != *pixel ==> r == None::<u8>
                && final(self).slots() == cache_put(old(self).slots(), *pixel),
    {
        let hash = Runner::hash(pixel);
        if *pixel == self.memory[hash as usize] {
            Some(hash)
        } else {
            self.memory[hash as usize] = *pixel;
            None
        }
    }

    /// Stores `pixel` in its slot.
    pub fn update(&mut self, pixel: Pixel)
        ensures
            final(self).slots() == cache_put(old(self).slots(), pixel),
    {
        let hash = Runner::hash(&pixel);
        self.memory[hash as usize] = pixel;
    }
}

} // verus!
