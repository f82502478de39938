//! Palette-index decoding for rows handed over by the image decoder.

use vstd::prelude::*;

verus! {

/// A cursor that turns a row of palette indices into cells by looking each
/// index up in a precomputed boolean palette (one entry per palette colour,
/// `true` where that colour counts as foreground).
#[derive(Debug, Clone)]
pub struct IndexedDecoder<'a> {
    pub color_palette: &'a [bool],
    pub data: &'a [u8],
    pub idx: usize,
}

impl<'a> IndexedDecoder<'a> {
    /// Every index byte of the row must name a palette entry.
    pub open spec fn wf(self) -> bool {
        forall|i: int| 0 <= i < self.data@.len() ==> (#[trigger] self.data@[i]) < self.color_palette@.len()
    }

    pub fn new(color_palette: &'a [bool], data: &'a [u8]) -> (r: IndexedDecoder<'a>)
        requires
            forall|i: int| 0 <= i < data@.len() ==> (#[trigger] data@[i]) < color_palette@.len(),
        ensures
            r.wf(),
            r.color_palette@ == color_palette@,
            r.data@ == data@,
            r.idx == 0,
    {
        IndexedDecoder { color_palette, data, idx: 0 }
    }

    /// Yields the next cell: the palette entry under the next index byte.
    pub fn next(&mut self) -> (r: Option<bool>)
        requires
            old(self).wf(),
        ensures
            final(self).wf(),
            final(self).color_palette@ == old(self).color_palette@,
            final(self).data@ == old(self).data@,
            old(self).idx >= old(self).data@.len() ==> r is None && *final(self) == *old(self),
            old(self).idx < old(self).data@.len() ==> {
                &&& r == Some(old(self).color_palette@[old(self).data@[old(self).idx as int] as int])
                &&& final(self).idx == old(self).idx + 1
            },
    {
        if self.idx >= self.data.len() {
            return None;
        }
        let b: u8 = self.data[self.idx];
        proof {
            assert(self.data@[self.idx as int] < self.color_palette@.len());
        }
        let cell = self.color_palette[b as usize];
        self.idx = self.idx + 1;
        Some(cell)
    }
}

} // verus!
