//! Handing out texture unit indices.
use vstd::prelude::*;

verus! {

/// The number of fragment textures that every platform is required to offer.
pub const MAX_TEXTURES: u32 = 16;

/// Hands out texture unit indices in increasing order, starting at 0.
///
/// A provider is meant to be shared: every index is taken from the one
/// counter, so no index is handed out twice before the counter wraps.
#[derive(Debug)]
pub struct TextureProvider {
    next_index: u32,
}

impl View for TextureProvider {
    type V = nat;

    /// The index that is handed out next.
    closed spec fn view(&self) -> nat {
        self.next_index as nat
    }
}

impl Default for TextureProvider {
    /// A provider that has handed out nothing yet.
    fn default() -> (provider: TextureProvider)
        ensures
            provider@ == 0,
    {
        TextureProvider { next_index: 0 }
    }
}

impl TextureProvider {
    /// Takes the next index. The counter wraps around after `u32::MAX`.
    pub fn take(&mut self) -> (index: u32)
        ensures
            index == old(self)@,
            final(self)@ == if old(self)@ == u32::MAX { 0 } else { old(self)@ + 1 },
    {
        let result = self.next_index;
        self.next_index = result.wrapping_add(1);
        result
    }

    /// Whether every platform is guaranteed to offer the texture unit `index`.
    pub fn is_guaranteed(index: u32) -> (guaranteed: bool)
        ensures
            guaranteed == (index < MAX_TEXTURES),
    {
        index < MAX_TEXTURES
    }
}

} // verus!
