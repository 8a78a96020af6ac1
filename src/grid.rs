//! The pixel grid the codec works on, and the cursor that walks its usable channels.
use vstd::prelude::*;

verus! {

/// A grid of RGBA pixels, each four 8-bit channels, stored row by row.
pub struct PixelGrid {
    width: u32,
    height: u32,
    data: Vec<u8>,
}

impl View for PixelGrid {
    /// Every channel of every pixel, row-major, four per pixel.
    type V = Seq<u8>;

    closed spec fn view(&self) -> Seq<u8> {
        self.data@
    }
}

/// The position, among all channels, of usable channel `i`: the usable
/// channels are the first three of each pixel, pixel after pixel.
pub open spec fn channel_index(i: int) -> int {
    4 * (i / 3) + i % 3
}

/// The rank among the usable channels of the channel at position `p`.
pub open spec fn usable_rank(p: int) -> int {
    3 * (p / 4) + p % 4
}

/// The channel at position `p` is red, green or blue, not alpha.
pub open spec fn is_usable(p: int) -> bool {
    p % 4 < 3
}

/// How many usable channels a channel buffer holds: three per pixel.
pub open spec fn usable_count(channels: Seq<u8>) -> int {
    3 * (channels.len() as int / 4)
}

/// The cursor and the rank undo each other.
pub proof fn lemma_cursor(i: int, p: int)
    requires
        i >= 0,
        p >= 0,
    ensures
        channel_index(i) / 4 == i / 3,
        channel_index(i) % 4 == i % 3,
        is_usable(channel_index(i)),
        usable_rank(channel_index(i)) == i,
        is_usable(p) ==> channel_index(usable_rank(p)) == p,
{
    let q = i / 3;
    let r = i % 3;
    assert(channel_index(i) == 4 * q + r);
    assert((4 * q + r) / 4 == q && (4 * q + r) % 4 == r) by (nonlinear_arith)
        requires
            0 <= r < 3,
            q >= 0,
    ;
    if is_usable(p) {
        let u = usable_rank(p);
        let a = p / 4;
        let b = p % 4;
        assert((3 * a + b) / 3 == a && (3 * a + b) % 3 == b) by (nonlinear_arith)
            requires
                0 <= b < 3,
                a >= 0,
        ;
    }
}

/// A usable channel of rank below the usable count lies inside the buffer.
pub proof fn lemma_cursor_in_bounds(i: int, len: int)
    requires
        0 <= i < 3 * (len / 4),
        len >= 0,
    ensures
        0 <= channel_index(i) < len,
{
    assert(4 * (i / 3) + 3 <= 4 * (len / 4)) by (nonlinear_arith)
        requires
            0 <= i < 3 * (len / 4),
    ;
    assert(4 * (len / 4) <= len) by (nonlinear_arith)
        requires
            len >= 0,
    ;
}

/// The position among all channels of usable channel `i`.
pub fn channel_offset(i: usize) -> (p: usize)
    requires
        channel_index(i as int) <= usize::MAX,
    ensures
        p == channel_index(i as int),
{
    4 * (i / 3) + i % 3
}

impl PixelGrid {
    /// Its channels are exactly four per pixel.
    pub open spec fn wf(&self) -> bool {
        self@.len() == self.spec_width() * self.spec_height() * 4
    }

    /// Pixels per row.
    pub closed spec fn spec_width(&self) -> nat {
        self.width as nat
    }

    /// Rows of pixels.
    pub closed spec fn spec_height(&self) -> nat {
        self.height as nat
    }

    /// Takes a row-major RGBA buffer of `width` by `height` pixels, or gives
    /// `None` where its length is not four channels per pixel.
    pub fn from_raw(width: u32, height: u32, data: Vec<u8>) -> (r: Option<PixelGrid>)
        ensures
            r is Some <==> data@.len() == width as nat * height as nat * 4,
            r matches Some(g) ==> g.wf() && g@ == data@ && g.spec_width() == width
                && g.spec_height() == height,
    {
        proof {
            let w = width as nat;
            let h = height as nat;
            assert(w * h <= 0xffff_ffff * 0xffff_ffff) by (nonlinear_arith)
                requires
                    w <= 0xffff_ffff,
                    h <= 0xffff_ffff,
            ;
        }
        let pixels: u128 = (width as u128) * (height as u128);
        let need: u128 = pixels * 4;
        if need == data.len() as u128 {
            Some(PixelGrid { width, height, data })
        } else {
            None
        }
    }

    pub fn width(&self) -> (w: u32)
        ensures
            w == self.spec_width(),
    {
        self.width
    }

    pub fn height(&self) -> (h: u32)
        ensures
            h == self.spec_height(),
    {
        self.height
    }

    /// The channel buffer, row-major, four channels per pixel.
    pub fn as_raw(&self) -> (d: &Vec<u8>)
        ensures
            d@ == self@,
    {
        &self.data
    }

    /// Gives the channel buffer up.
    pub fn into_raw(self) -> (d: Vec<u8>)
        ensures
            d@ == self@,
    {
        self.data
    }

    /// The four channels of the pixel in column `x` of row `y`.
    pub fn get_pixel(&self, x: u32, y: u32) -> (px: [u8; 4])
        requires
            self.wf(),
            x < self.spec_width(),
            y < self.spec_height(),
        ensures
            px@ == self@.subrange(
                4 * (y * self.spec_width() + x),
                4 * (y * self.spec_width() + x) + 4,
            ),
    {
        let w = self.width as usize;
        let n = self.data.len();
        proof {
            let wi = self.width as int;
            let hi = self.height as int;
            assert(y * wi + x + 1 <= wi * hi) by (nonlinear_arith)
                requires
                    x < wi,
                    y < hi,
            ;
            assert(n == self.data@.len());
        }
        let base = 4 * ((y as usize) * w + (x as usize));
        let px = [self.data[base], self.data[base + 1], self.data[base + 2], self.data[base + 3]];
        assert(px@ =~= self@.subrange(base as int, base + 4));
        px
    }

    /// Replaces the channel at position `p` (among all channels).
    pub(crate) fn set_channel(&mut self, p: usize, v: u8)
        requires
            old(self).wf(),
            p < old(self)@.len(),
        ensures
            final(self).wf(),
            final(self)@ == old(self)@.update(p as int, v),
            final(self).spec_width() == old(self).spec_width(),
            final(self).spec_height() == old(self).spec_height(),
    {
        self.data.set(p, v);
    }

    /// The channel at position `p` (among all channels).
    pub(crate) fn channel(&self, p: usize) -> (v: u8)
        requires
            p < self@.len(),
        ensures
            v == self@[p as int],
    {
        self.data[p]
    }

    /// How many channels the grid holds.
    pub(crate) fn channel_count(&self) -> (n: usize)
        ensures
            n == self@.len(),
    {
        self.data.len()
    }
}

} // verus!
