//! The in-memory raster buffer that tiles are decoded into and that the
//! megatexture is composed on: a row-major byte buffer with a fixed number of
//! channels per pixel, mutated only through bounded sub-region composition.

use vstd::prelude::*;
use vstd::arithmetic::div_mod::{
    lemma_fundamental_div_mod, lemma_fundamental_div_mod_converse_div,
    lemma_fundamental_div_mod_converse_mod,
};
use vstd::arithmetic::mul::{lemma_mul_inequality, lemma_mul_is_distributive_sub_other_way};

verus! {

/// Edge length, in pixels, of a square tile.
pub const TILE_EDGE: u32 = 16;

/// Bytes per pixel of the canonical layout (8-bit RGB).
pub const CHANNELS: u32 = 3;

/// Row stride, in bytes, of an image `w` pixels wide.
pub open spec fn stride(w: int) -> int {
    w * (CHANNELS as int)
}

/// The byte buffer of `dst` (width `dst_w` pixels) after the first `rows` full
/// rows of `src` (width `src_w` pixels), plus the first `cols` bytes of row
/// `rows`, have been copied onto it with `src`'s top-left pixel at `(x, y)`.
pub open spec fn blit_upto(
    dst: Seq<u8>,
    dst_w: int,
    x: int,
    y: int,
    src: Seq<u8>,
    src_w: int,
    rows: int,
    cols: int,
) -> Seq<u8> {
    Seq::new(
        dst.len(),
        |i: int|
            {
                let sr = i / stride(dst_w) - y;
                let sc = i % stride(dst_w) - stride(x);
                if 0 <= sc < stride(src_w) && 0 <= sr && (sr < rows || (sr == rows && sc < cols)) {
                    src[sr * stride(src_w) + sc]
                } else {
                    dst[i]
                }
            },
    )
}

/// The byte buffer of `dst` after `src`'s entire raster (height `src_h`) has
/// been copied onto it with its top-left pixel at `(x, y)`.
pub open spec fn blit_bytes(
    dst: Seq<u8>,
    dst_w: int,
    x: int,
    y: int,
    src: Seq<u8>,
    src_w: int,
    src_h: int,
) -> Seq<u8> {
    blit_upto(dst, dst_w, x, y, src, src_w, src_h, 0)
}

/// The byte at row `row`, byte column `col` of a row-major buffer of width
/// `w` pixels.
pub open spec fn byte_at(buf: Seq<u8>, w: int, row: int, col: int) -> u8 {
    buf[row * stride(w) + col]
}

/// An owned raster: `width` pixels per row, `CHANNELS` bytes per pixel, height
/// derived from the buffer length so the two can never diverge.
pub struct RgbImage {
    data: Vec<u8>,
    width: u32,
}

impl RgbImage {
    /// The raw bytes, row-major, `CHANNELS` per pixel.
    pub closed spec fn bytes(&self) -> Seq<u8> {
        self.data@
    }

    /// Width in pixels.
    pub closed spec fn spec_width(&self) -> u32 {
        self.width
    }

    /// Height in pixels, derived from the buffer length.
    pub open spec fn spec_height(&self) -> int {
        self.bytes().len() as int / stride(self.spec_width() as int)
    }

    /// Well-formed: positive width, a buffer of whole rows, and sizes that fit
    /// the 32-bit dimensions the rest of the system works in.
    pub open spec fn wf(&self) -> bool {
        &&& 0 < self.spec_width()
        &&& stride(self.spec_width() as int) <= u32::MAX
        &&& self.bytes().len() <= u32::MAX
        &&& self.bytes().len() as int % stride(self.spec_width() as int) == 0
    }

    /// A zero-filled canvas of the given dimensions.
    pub fn new(width: u32, height: u32) -> (r: RgbImage)
        requires
            0 < width,
            width * CHANNELS <= u32::MAX,
            width * height * CHANNELS <= u32::MAX,
        ensures
            r.wf(),
            r.spec_width() == width,
            r.spec_height() == height,
            r.bytes() == Seq::new((width * height * CHANNELS) as nat, |i: int| 0u8),
    {
        proof {
            assert(width * height * CHANNELS == height * stride(width as int)) by (nonlinear_arith);
        }
        let len: u32 = width * height * CHANNELS;
        let r = RgbImage { data: vec![0u8; len as usize], width };
        proof {
            lemma_fundamental_div_mod_converse_div(
                len as int,
                stride(width as int),
                height as int,
                0,
            );
            lemma_fundamental_div_mod_converse_mod(
                len as int,
                stride(width as int),
                height as int,
                0,
            );
        }
        r
    }

    /// An image over an existing buffer of whole rows.
    pub fn from_raw(width: u32, data: Vec<u8>) -> (r: RgbImage)
        requires
            0 < width,
            width * CHANNELS <= u32::MAX,
            data@.len() <= u32::MAX,
            data@.len() as int % stride(width as int) == 0,
        ensures
            r.wf(),
            r.spec_width() == width,
            r.bytes() == data@,
    {
        RgbImage { data, width }
    }

    /// `(width, height)`, the height read back off the buffer length.
    pub fn dimensions(&self) -> (r: (u32, u32))
        requires
            self.wf(),
        ensures
            r.0 == self.spec_width(),
            r.1 == self.spec_height(),
    {
        (self.width, (self.data.len() as u32) / (self.width * CHANNELS))
    }

    /// Row width in bytes.
    pub fn row_stride(&self) -> (r: usize)
        requires
            self.wf(),
        ensures
            r == stride(self.spec_width() as int),
    {
        (self.width * CHANNELS) as usize
    }

    /// The underlying byte buffer.
    pub fn data(&self) -> (r: &Vec<u8>)
        ensures
            r@ == self.bytes(),
    {
        &self.data
    }

    /// Copies `other`'s entire raster into `self` with its top-left pixel at
    /// pixel coordinate `(x, y)`: a pure overwrite, row by row, no blending and
    /// no clipping. The caller guarantees that `other` fits entirely within
    /// `self` from `(x, y)`.
    #[verifier::loop_isolation(false)]
    pub fn blit(&mut self, x: u32, y: u32, other: &RgbImage)
        requires
            old(self).wf(),
            other.wf(),
            x + other.spec_width() <= old(self).spec_width(),
            y + other.spec_height() <= old(self).spec_height(),
            y < old(self).spec_height(),
        ensures
            final(self).wf(),
            final(self).spec_width() == old(self).spec_width(),
            final(self).spec_height() == old(self).spec_height(),
            final(self).bytes() == blit_bytes(
                old(self).bytes(),
                old(self).spec_width() as int,
                x as int,
                y as int,
                other.bytes(),
                other.spec_width() as int,
                other.spec_height(),
            ),
    {
        let ghost w0 = self.spec_width() as int;
        let ghost h0 = self.spec_height();
        let ghost dst0 = self.bytes();
        let ghost srcb = other.bytes();
        let ghost sw = other.spec_width() as int;
        let ghost sh = other.spec_height();
        proof {
            lemma_len_is_height_times_stride(self);
            lemma_len_is_height_times_stride(other);
        }
        let dst_stride: usize = self.row_stride();
        let src_stride: usize = other.row_stride();
        let (_, dst_h) = self.dimensions();
        let (_, src_h) = other.dimensions();
        let mut r: u32 = 0;
        while r < src_h
            invariant
                self.wf(),
                self.spec_width() as int == w0,
                self.bytes().len() == dst0.len(),
                r <= src_h,
                self.bytes() == blit_upto(dst0, w0, x as int, y as int, srcb, sw, r as int, 0),
            decreases src_h - r,
        {
            let mut c: usize = 0;
            while c < src_stride
                invariant
                    self.wf(),
                    self.spec_width() as int == w0,
                    self.bytes().len() == dst0.len(),
                    r < src_h,
                    c <= src_stride,
                    self.bytes() == blit_upto(dst0, w0, x as int, y as int, srcb, sw, r as int, c as int),
                decreases src_stride - c,
            {
                proof {
                    lemma_mul_inequality(y + r + 1, h0, stride(w0));
                    lemma_mul_is_distributive_sub_other_way(stride(w0), y + r + 1, 1);
                    lemma_mul_inequality(r + 1, sh, stride(sw));
                    lemma_mul_is_distributive_sub_other_way(stride(sw), r + 1, 1);
                }
                let di: usize = (y as usize + r as usize) * dst_stride + (x as usize) * (CHANNELS as usize) + c;
                let si: usize = (r as usize) * src_stride + c;
                let ghost pre = self.bytes();
                let b: u8 = other.data[si];
                self.data[di] = b;
                proof {
                    lemma_blit_step(dst0, w0, x as int, y as int, srcb, sw, r as int, c as int, pre, self.bytes());
                }
                c = c + 1;
            }
            proof {
                lemma_blit_row_done(dst0, w0, x as int, y as int, srcb, sw, r as int);
            }
            r = r + 1;
        }
        proof {
            assert(self.bytes() =~= blit_bytes(dst0, w0, x as int, y as int, srcb, sw, sh));
        }
    }
}

/// For a well-formed image the buffer length is exactly height times stride.
pub proof fn lemma_len_is_height_times_stride(img: &RgbImage)
    requires
        img.wf(),
    ensures
        img.bytes().len() == img.spec_height() * stride(img.spec_width() as int),
        img.spec_height() >= 0,
{
    lemma_fundamental_div_mod(img.bytes().len() as int, stride(img.spec_width() as int));
    assert(stride(img.spec_width() as int) * img.spec_height() == img.spec_height() * stride(
        img.spec_width() as int,
    )) by (nonlinear_arith);
    assert(img.spec_height() >= 0) by {
        if img.spec_height() < 0 {
            assert(img.spec_height() * stride(img.spec_width() as int) < 0) by (nonlinear_arith)
                requires
                    img.spec_height() < 0,
                    stride(img.spec_width() as int) > 0,
            ;
        }
    }
}

/// Writing source byte `(r, c)` at its destination slot advances a partial
/// blit by one byte.
proof fn lemma_blit_step(
    dst: Seq<u8>,
    dst_w: int,
    x: int,
    y: int,
    src: Seq<u8>,
    src_w: int,
    r: int,
    c: int,
    pre: Seq<u8>,
    post: Seq<u8>,
)
    requires
        0 <= x,
        0 <= y,
        0 <= r,
        0 <= c < stride(src_w),
        0 < src_w,
        x + src_w <= dst_w,
        (y + r + 1) * stride(dst_w) <= dst.len(),
        (r + 1) * stride(src_w) <= src.len(),
        pre == blit_upto(dst, dst_w, x, y, src, src_w, r, c),
        post == pre.update((y + r) * stride(dst_w) + stride(x) + c, src[r * stride(src_w) + c]),
    ensures
        post == blit_upto(dst, dst_w, x, y, src, src_w, r, c + 1),
{
    let ds = stride(dst_w);
    let di = (y + r) * ds + stride(x) + c;
    assert(stride(x) + c < ds);
    assert((y + r) * ds >= 0) by (nonlinear_arith)
        requires
            y + r >= 0,
            ds >= 0,
    ;
    assert((y + r) * ds + ds == (y + r + 1) * ds) by (nonlinear_arith);
    assert(0 <= di < dst.len());
    lemma_fundamental_div_mod_converse_div(di, ds, y + r, stride(x) + c);
    lemma_fundamental_div_mod_converse_mod(di, ds, y + r, stride(x) + c);
    let target = blit_upto(dst, dst_w, x, y, src, src_w, r, c + 1);
    assert forall|i: int| 0 <= i < dst.len() implies post[i] == target[i] by {
        if i != di {
            lemma_fundamental_div_mod(i, ds);
            assert(ds * (i / ds) == (i / ds) * ds) by (nonlinear_arith);
            assert(!(i / ds - y == r && i % ds - stride(x) == c));
            assert(pre[i] == target[i]);
        }
    }
    assert(post =~= target);
}

/// A fully copied row is the same buffer as zero bytes of the next row.
proof fn lemma_blit_row_done(dst: Seq<u8>, dst_w: int, x: int, y: int, src: Seq<u8>, src_w: int, r: int)
    requires
        0 <= r,
    ensures
        blit_upto(dst, dst_w, x, y, src, src_w, r, stride(src_w)) == blit_upto(
            dst,
            dst_w,
            x,
            y,
            src,
            src_w,
            r + 1,
            0,
        ),
{
    assert(blit_upto(dst, dst_w, x, y, src, src_w, r, stride(src_w)) =~= blit_upto(
        dst,
        dst_w,
        x,
        y,
        src,
        src_w,
        r + 1,
        0,
    ));
}

/// After a blit, reading the sub-region at pixel `(x, y)` of `src`'s size back
/// yields exactly the source bytes, and every byte outside it is unchanged.
pub proof fn lemma_blit_readback(
    dst: Seq<u8>,
    dst_w: int,
    x: int,
    y: int,
    src: Seq<u8>,
    src_w: int,
    src_h: int,
)
    requires
        0 <= x,
        0 <= y,
        0 <= src_h,
        0 < src_w,
        x + src_w <= dst_w,
        src.len() == src_h * stride(src_w),
        (y + src_h) * stride(dst_w) <= dst.len(),
    ensures
        blit_bytes(dst, dst_w, x, y, src, src_w, src_h).len() == dst.len(),
        forall|sr: int, sc: int|
            0 <= sr < src_h && 0 <= sc < stride(src_w) ==> byte_at(
                blit_bytes(dst, dst_w, x, y, src, src_w, src_h),
                dst_w,
                y + sr,
                stride(x) + sc,
            ) == #[trigger] byte_at(src, src_w, sr, sc),
        forall|i: int|
            0 <= i < dst.len() && !(y <= i / stride(dst_w) < y + src_h && stride(x) <= i % stride(
                dst_w,
            ) < stride(x) + stride(src_w)) ==> #[trigger] blit_bytes(
                dst,
                dst_w,
                x,
                y,
                src,
                src_w,
                src_h,
            )[i] == dst[i],
{
    let ds = stride(dst_w);
    assert forall|sr: int, sc: int| 0 <= sr < src_h && 0 <= sc < stride(src_w) implies byte_at(
        blit_bytes(dst, dst_w, x, y, src, src_w, src_h),
        dst_w,
        y + sr,
        stride(x) + sc,
    ) == #[trigger] byte_at(src, src_w, sr, sc) by {
        let i = (y + sr) * ds + stride(x) + sc;
        assert(stride(x) + sc < ds);
        assert((y + sr) * ds >= 0) by (nonlinear_arith)
            requires
                y + sr >= 0,
                ds >= 0,
        ;
        assert((y + sr + 1) * ds <= (y + src_h) * ds) by (nonlinear_arith)
            requires
                y + sr + 1 <= y + src_h,
                ds >= 0,
        ;
        assert((y + sr) * ds + ds == (y + sr + 1) * ds) by (nonlinear_arith);
        assert(0 <= i < dst.len());
        lemma_fundamental_div_mod_converse_div(i, ds, y + sr, stride(x) + sc);
        lemma_fundamental_div_mod_converse_mod(i, ds, y + sr, stride(x) + sc);
    }
}

} // verus!
