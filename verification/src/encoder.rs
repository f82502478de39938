//! Bit packing for the 1-bit image format handed to the encoder.

use vstd::prelude::*;

verus! {

/// The byte that packs eight cells starting at `start`, most significant bit
/// first: a foreground cell encodes as 0 (black ink), a background cell as 1
/// (white paper) — the encoder's polarity, inverted relative to the grid's
/// booleans.  Positions past the row's end contribute 0 bits.
pub open spec fn pack_byte(s: Seq<bool>, start: int) -> int {
    (if start < s.len() && !s[start] {
        128int
    } else {
        0int
    }) + (if start + 1 < s.len() && !s[start + 1] {
        64int
    } else {
        0int
    }) + (if start + 2 < s.len() && !s[start + 2] {
        32int
    } else {
        0int
    }) + (if start + 3 < s.len() && !s[start + 3] {
        16int
    } else {
        0int
    }) + (if start + 4 < s.len() && !s[start + 4] {
        8int
    } else {
        0int
    }) + (if start + 5 < s.len() && !s[start + 5] {
        4int
    } else {
        0int
    }) + (if start + 6 < s.len() && !s[start + 6] {
        2int
    } else {
        0int
    }) + (if start + 7 < s.len() && !s[start + 7] {
        1int
    } else {
        0int
    })
}

/// A cursor that packs a row of cells into bytes, eight cells per byte,
/// most significant bit first (see [`pack_byte`]); the last byte of a row
/// whose length is not a multiple of eight is padded with 0 bits.
#[derive(Debug, Clone)]
pub struct OneBitEncoder<'a> {
    pub data: &'a [bool],
    pub idx: usize,
}

impl<'a> OneBitEncoder<'a> {
    pub fn new(data: &'a [bool]) -> (r: OneBitEncoder<'a>)
        ensures
            r.data@ == data@,
            r.idx == 0,
    {
        OneBitEncoder { data, idx: 0 }
    }

    /// Yields the next packed byte, or `None` when the row is exhausted.
    pub fn next(&mut self) -> (r: Option<u8>)
        ensures
            final(self).data@ == old(self).data@,
            old(self).idx >= old(self).data@.len() ==> r is None && *final(self) == *old(self),
            old(self).idx < old(self).data@.len() ==> {
                &&& r == Some((pack_byte(old(self).data@, old(self).idx as int) as u8))
                &&& final(self).idx == if old(self).idx + 8 <= old(self).data@.len() {
                    old(self).idx + 8
                } else {
                    old(self).data@.len() as int
                }
            },
    {
        let len: usize = self.data.len();
        if self.idx >= len {
            return None;
        }
        let rem: usize = len - self.idx;
        let mut byte: u8 = 0;
        if 0 < rem && !self.data[self.idx] {
            byte = byte + 128;
        }
        if 1 < rem && !self.data[self.idx + 1] {
            byte = byte + 64;
        }
        if 2 < rem && !self.data[self.idx + 2] {
            byte = byte + 32;
        }
        if 3 < rem && !self.data[self.idx + 3] {
            byte = byte + 16;
        }
        if 4 < rem && !self.data[self.idx + 4] {
            byte = byte + 8;
        }
        if 5 < rem && !self.data[self.idx + 5] {
            byte = byte + 4;
        }
        if 6 < rem && !self.data[self.idx + 6] {
            byte = byte + 2;
        }
        if 7 < rem && !self.data[self.idx + 7] {
            byte = byte + 1;
        }
        self.idx = if rem >= 8 {
            self.idx + 8
        } else {
            len
        };
        Some(byte)
    }
}

} // verus!
