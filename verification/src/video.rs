//! Frame geometry and the macroblock codec.
//!
//! Frames are packed YUYV 4:2:2: one four-byte sample holds the luminance of
//! two horizontal pixels and their shared chrominance pair. Macroblocks span
//! 16x16 pixels as four 8x8 luminance planes plus one 8x8 plane each for Cb
//! and Cr (4:2:0, chrominance taken at even rows and columns). The codec
//! level-shifts each sample around 128 and divides by a per-position step
//! that grows with the frequency band, then run-length encodes each plane;
//! decoding reverses both. All of it is integer arithmetic.

use crate::PACKET_PAYLOAD_SIZE_THRESHOLD;
use vstd::prelude::*;

verus! {

/// Two horizontal pixels of a packed YUYV 4:2:2 image: the luminance of each
/// and their shared chrominance.
#[derive(Clone, Copy)]
pub struct YUYV422Sample {
    /// Luminance of the first (even-column) pixel.
    pub y0: u8,
    /// Shared Cb.
    pub u: u8,
    /// Luminance of the second (odd-column) pixel.
    pub y1: u8,
    /// Shared Cr.
    pub v: u8,
}

/// Luminance of pixel `(x, y)` in raw packed YUYV bytes of a frame `width`
/// pixels wide.
pub open spec fn yuyv_luma(bytes: Seq<u8>, width: int, x: int, y: int) -> u8 {
    let base = 4 * (y * (width / 2) + x / 2);
    if x % 2 == 0 {
        bytes[base]
    } else {
        bytes[base + 2]
    }
}

/// Chrominance pair `(Cb, Cr)` of pixel `(x, y)` in raw packed YUYV bytes.
pub open spec fn yuyv_chroma(bytes: Seq<u8>, width: int, x: int, y: int) -> (u8, u8) {
    let base = 4 * (y * (width / 2) + x / 2);
    (bytes[base + 1], bytes[base + 3])
}

/// Every pixel's sample index stays inside the sample buffer.
proof fn lemma_pixel_index(width: int, height: int, len: int, x: int, y: int)
    requires
        width % 2 == 0,
        len == (width / 2) * height,
        0 <= x < width,
        0 <= y < height,
    ensures
        0 <= y * (width / 2) + x / 2 < len,
{
    let half = width / 2;
    assert(x / 2 < half);
    assert(y * half <= (height - 1) * half && (height - 1) * half + half == height * half)
        by (nonlinear_arith)
        requires
            0 <= y <= height - 1,
            half >= 0,
    ;
}

/// Two pixels share a sample index only if they sit in the same row and the
/// same horizontal pair.
proof fn lemma_pixel_index_injective(width: int, x1: int, y1: int, x2: int, y2: int)
    requires
        width % 2 == 0,
        0 <= x1 < width,
        0 <= x2 < width,
        0 <= y1,
        0 <= y2,
        y1 * (width / 2) + x1 / 2 == y2 * (width / 2) + x2 / 2,
    ensures
        y1 == y2,
        x1 / 2 == x2 / 2,
{
    let half = width / 2;
    assert(0 <= x1 / 2 < half);
    assert(0 <= x2 / 2 < half);
    assert(y1 == y2) by (nonlinear_arith)
        requires
            half >= 1,
            0 <= x1 / 2 < half,
            0 <= x2 / 2 < half,
            0 <= y1,
            0 <= y2,
            y1 * half + x1 / 2 == y2 * half + x2 / 2,
    ;
}

/// A read-only frame of packed YUYV 4:2:2 samples.
pub struct YUVFrame {
    width: usize,
    height: usize,
    data: Vec<YUYV422Sample>,
}

impl YUVFrame {
    /// The width is even and the samples cover exactly `width x height`
    /// pixels, two per sample.
    pub closed spec fn wf(&self) -> bool {
        &&& self.width % 2 == 0
        &&& self.data@.len() == (self.width as int / 2) * (self.height as int)
    }

    /// Width of the frame in pixels.
    pub closed spec fn spec_width(&self) -> int {
        self.width as int
    }

    /// Height of the frame in pixels.
    pub closed spec fn spec_height(&self) -> int {
        self.height as int
    }

    /// Luminance of pixel `(x, y)`.
    pub closed spec fn luma(&self, x: int, y: int) -> u8 {
        let s = self.data@[y * (self.width as int / 2) + x / 2];
        if x % 2 == 0 {
            s.y0
        } else {
            s.y1
        }
    }

    /// Chrominance pair `(Cb, Cr)` of pixel `(x, y)`.
    pub closed spec fn chroma(&self, x: int, y: int) -> (u8, u8) {
        let s = self.data@[y * (self.width as int / 2) + x / 2];
        (s.u, s.v)
    }

    /// Group raw packed YUYV bytes, four per sample, into a frame.
    pub fn new(width: usize, height: usize, data: &[u8]) -> (r: Self)
        requires
            width % 2 == 0,
            data@.len() == width * height * 2,
        ensures
            r.wf(),
            r.spec_width() == width,
            r.spec_height() == height,
            forall|x: int, y: int|
                0 <= x < width && 0 <= y < height ==> r.luma(x, y) == yuyv_luma(
                    data@,
                    width as int,
                    x,
                    y,
                ),
            forall|x: int, y: int|
                0 <= x < width && 0 <= y < height ==> r.chroma(x, y) == yuyv_chroma(
                    data@,
                    width as int,
                    x,
                    y,
                ),
    {
        let samples = build_samples(width, height, data);
        let r = YUVFrame { width, height, data: samples };
        proof {
            assert forall|x: int, y: int| 0 <= x < width && 0 <= y < height implies r.luma(x, y)
                == yuyv_luma(data@, width as int, x, y) && r.chroma(x, y) == yuyv_chroma(
                data@,
                width as int,
                x,
                y,
            ) by {
                lemma_pixel_index(
                    width as int,
                    height as int,
                    (width as int / 2) * (height as int),
                    x,
                    y,
                );
            }
        }
        r
    }

    /// Width of the frame in pixels.
    pub fn width(&self) -> (r: usize)
        ensures
            r == self.spec_width(),
    {
        self.width
    }

    /// Height of the frame in pixels.
    pub fn height(&self) -> (r: usize)
        ensures
            r == self.spec_height(),
    {
        self.height
    }

    /// Luminance of pixel `(x, y)`.
    pub fn get_luma(&self, x: usize, y: usize) -> (r: u8)
        requires
            self.wf(),
            x < self.spec_width(),
            y < self.spec_height(),
        ensures
            r == self.luma(x as int, y as int),
    {
        proof {
            lemma_pixel_index(
                self.width as int,
                self.height as int,
                self.data@.len() as int,
                x as int,
                y as int,
            );
            vstd::std_specs::vec::axiom_spec_len(&self.data);
        }
        let s = &self.data[y * (self.width / 2) + x / 2];
        if x % 2 == 0 {
            s.y0
        } else {
            s.y1
        }
    }

    /// Chrominance pair `(Cb, Cr)` of pixel `(x, y)`.
    pub fn get_chroma(&self, x: usize, y: usize) -> (r: (u8, u8))
        requires
            self.wf(),
            x < self.spec_width(),
            y < self.spec_height(),
        ensures
            r == self.chroma(x as int, y as int),
    {
        proof {
            lemma_pixel_index(
                self.width as int,
                self.height as int,
                self.data@.len() as int,
                x as int,
                y as int,
            );
            vstd::std_specs::vec::axiom_spec_len(&self.data);
        }
        let s = &self.data[y * (self.width / 2) + x / 2];
        (s.u, s.v)
    }
}

/// Group raw packed YUYV bytes into samples, four bytes each.
fn build_samples(width: usize, height: usize, data: &[u8]) -> (r: Vec<YUYV422Sample>)
    requires
        width % 2 == 0,
        data@.len() == width * height * 2,
    ensures
        r@.len() == (width as int / 2) * (height as int),
        forall|k: int|
            0 <= k < r@.len() ==> #[trigger] r@[k] == (YUYV422Sample {
                y0: data@[4 * k],
                u: data@[4 * k + 1],
                y1: data@[4 * k + 2],
                v: data@[4 * k + 3],
            }),
{
    proof {
        assert((width as int / 2) * (height as int) * 4 == width * height * 2) by (nonlinear_arith)
            requires
                width % 2 == 0,
                width >= 0,
                height >= 0,
        ;
    }
    let count: usize = data.len() / 4;
    proof {
        assert(data@.len() as int == 4 * ((width as int / 2) * (height as int)));
        assert(4 * (data@.len() as int / 4) == data@.len() as int);
        assert(count == (width as int / 2) * (height as int));
    }
    let mut r: Vec<YUYV422Sample> = Vec::new();
    let mut k: usize = 0;
    while k < count
        invariant
            4 * count == data@.len(),
            4 * count <= usize::MAX,
            r@.len() == k,
            k <= count,
            forall|t: int|
                0 <= t < k ==> #[trigger] r@[t] == (YUYV422Sample {
                    y0: data@[4 * t],
                    u: data@[4 * t + 1],
                    y1: data@[4 * t + 2],
                    v: data@[4 * t + 3],
                }),
        decreases count - k,
    {
        r.push(
            YUYV422Sample {
                y0: data[4 * k],
                u: data[4 * k + 1],
                y1: data[4 * k + 2],
                v: data[4 * k + 3],
            },
        );
        k = k + 1;
    }
    proof {
        assert(4 * ((width as int / 2) * (height as int)) == width * height * 2)
            by (nonlinear_arith)
            requires
                width % 2 == 0,
                width >= 0,
                height >= 0,
        ;
    }
    r
}

/// A frame of packed YUYV 4:2:2 samples that can be written pixel by pixel.
pub struct MutableYUVFrame {
    width: usize,
    height: usize,
    data: Vec<YUYV422Sample>,
}

impl MutableYUVFrame {
    /// The width is even and the samples cover exactly `width x height`
    /// pixels, two per sample.
    pub closed spec fn wf(&self) -> bool {
        &&& self.width % 2 == 0
        &&& self.data@.len() == (self.width as int / 2) * (self.height as int)
    }

    /// Width of the frame in pixels.
    pub closed spec fn spec_width(&self) -> int {
        self.width as int
    }

    /// Height of the frame in pixels.
    pub closed spec fn spec_height(&self) -> int {
        self.height as int
    }

    /// Luminance of pixel `(x, y)`.
    pub closed spec fn luma(&self, x: int, y: int) -> u8 {
        let s = self.data@[y * (self.width as int / 2) + x / 2];
        if x % 2 == 0 {
            s.y0
        } else {
            s.y1
        }
    }

    /// Chrominance pair `(Cb, Cr)` of pixel `(x, y)`.
    pub closed spec fn chroma(&self, x: int, y: int) -> (u8, u8) {
        let s = self.data@[y * (self.width as int / 2) + x / 2];
        (s.u, s.v)
    }

    /// Group raw packed YUYV bytes, four per sample, into a writable frame.
    pub fn new(width: usize, height: usize, data: &[u8]) -> (r: Self)
        requires
            width % 2 == 0,
            data@.len() == width * height * 2,
        ensures
            r.wf(),
            r.spec_width() == width,
            r.spec_height() == height,
            forall|x: int, y: int|
                0 <= x < width && 0 <= y < height ==> r.luma(x, y) == yuyv_luma(
                    data@,
                    width as int,
                    x,
                    y,
                ),
            forall|x: int, y: int|
                0 <= x < width && 0 <= y < height ==> r.chroma(x, y) == yuyv_chroma(
                    data@,
                    width as int,
                    x,
                    y,
                ),
    {
        let samples = build_samples(width, height, data);
        let r = MutableYUVFrame { width, height, data: samples };
        proof {
            assert forall|x: int, y: int| 0 <= x < width && 0 <= y < height implies r.luma(x, y)
                == yuyv_luma(data@, width as int, x, y) && r.chroma(x, y) == yuyv_chroma(
                data@,
                width as int,
                x,
                y,
            ) by {
                lemma_pixel_index(
                    width as int,
                    height as int,
                    (width as int / 2) * (height as int),
                    x,
                    y,
                );
            }
        }
        r
    }

    /// Set the luminance of pixel `(x, y)`; no other pixel and no
    /// chrominance changes.
    pub fn set_luma(&mut self, x: usize, y: usize, value: u8)
        requires
            old(self).wf(),
            x < old(self).spec_width(),
            y < old(self).spec_height(),
        ensures
            final(self).wf(),
            final(self).spec_width() == old(self).spec_width(),
            final(self).spec_height() == old(self).spec_height(),
            final(self).luma(x as int, y as int) == value,
            forall|px: int, py: int|
                0 <= px < old(self).spec_width() && 0 <= py < old(self).spec_height() && !(px == x
                    && py == y) ==> final(self).luma(px, py) == old(self).luma(px, py),
            forall|px: int, py: int|
                0 <= px < old(self).spec_width() && 0 <= py < old(self).spec_height() ==> final(self).chroma(px, py) == old(self).chroma(px, py),
    {
        proof {
            lemma_pixel_index(
                self.width as int,
                self.height as int,
                self.data@.len() as int,
                x as int,
                y as int,
            );
            vstd::std_specs::vec::axiom_spec_len(&self.data);
        }
        let idx: usize = y * (self.width / 2) + x / 2;
        let s = self.data[idx];
        let updated = if x % 2 == 0 {
            YUYV422Sample { y0: value, u: s.u, y1: s.y1, v: s.v }
        } else {
            YUYV422Sample { y0: s.y0, u: s.u, y1: value, v: s.v }
        };
        self.data[idx] = updated;
        proof {
            assert forall|px: int, py: int|
                0 <= px < old(self).spec_width() && 0 <= py < old(self).spec_height() implies ((!(px
                == x && py == y) ==> final(self).luma(px, py) == old(self).luma(px, py)) && final(self).chroma(px, py) == old(self).chroma(px, py)) by {
                lemma_pixel_index(
                    self.width as int,
                    self.height as int,
                    self.data@.len() as int,
                    px,
                    py,
                );
                if py * (self.width as int / 2) + px / 2 == idx {
                    lemma_pixel_index_injective(
                        self.width as int,
                        px,
                        py,
                        x as int,
                        y as int,
                    );
                }
            }
        }
    }

    /// Set the chrominance pair shared by pixel `(x, y)` and its horizontal
    /// partner; no luminance and no other pair changes.
    pub fn set_chroma(&mut self, x: usize, y: usize, value: (u8, u8))
        requires
            old(self).wf(),
            x < old(self).spec_width(),
            y < old(self).spec_height(),
        ensures
            final(self).wf(),
            final(self).spec_width() == old(self).spec_width(),
            final(self).spec_height() == old(self).spec_height(),
            forall|px: int, py: int|
                0 <= px < old(self).spec_width() && 0 <= py < old(self).spec_height() && py == y
                    && px / 2 == x / 2 ==> final(self).chroma(px, py) == value,
            forall|px: int, py: int|
                0 <= px < old(self).spec_width() && 0 <= py < old(self).spec_height() && !(py == y
                    && px / 2 == x / 2) ==> final(self).chroma(px, py) == old(self).chroma(px, py),
            forall|px: int, py: int|
                0 <= px < old(self).spec_width() && 0 <= py < old(self).spec_height() ==> final(self).luma(px, py) == old(self).luma(px, py),
    {
        proof {
            lemma_pixel_index(
                self.width as int,
                self.height as int,
                self.data@.len() as int,
                x as int,
                y as int,
            );
            vstd::std_specs::vec::axiom_spec_len(&self.data);
        }
        let idx: usize = y * (self.width / 2) + x / 2;
        let s = self.data[idx];
        self.data[idx] = YUYV422Sample { y0: s.y0, u: value.0, y1: s.y1, v: value.1 };
        proof {
            assert forall|px: int, py: int|
                0 <= px < old(self).spec_width() && 0 <= py < old(self).spec_height() implies ((!(py
                == y && px / 2 == x / 2) ==> final(self).chroma(px, py) == old(self).chroma(
                px,
                py,
            )) && ((py == y && px / 2 == x / 2) ==> final(self).chroma(px, py) == value) && final(self).luma(px, py) == old(self).luma(px, py)) by {
                lemma_pixel_index(
                    self.width as int,
                    self.height as int,
                    self.data@.len() as int,
                    px,
                    py,
                );
                if py * (self.width as int / 2) + px / 2 == idx {
                    lemma_pixel_index_injective(
                        self.width as int,
                        px,
                        py,
                        x as int,
                        y as int,
                    );
                }
            }
        }
    }

    /// Luminance of pixel `(x, y)`.
    pub fn get_luma(&self, x: usize, y: usize) -> (r: u8)
        requires
            self.wf(),
            x < self.spec_width(),
            y < self.spec_height(),
        ensures
            r == self.luma(x as int, y as int),
    {
        proof {
            lemma_pixel_index(
                self.width as int,
                self.height as int,
                self.data@.len() as int,
                x as int,
                y as int,
            );
            vstd::std_specs::vec::axiom_spec_len(&self.data);
        }
        let s = &self.data[y * (self.width / 2) + x / 2];
        if x % 2 == 0 {
            s.y0
        } else {
            s.y1
        }
    }

    /// Chrominance pair `(Cb, Cr)` of pixel `(x, y)`.
    pub fn get_chroma(&self, x: usize, y: usize) -> (r: (u8, u8))
        requires
            self.wf(),
            x < self.spec_width(),
            y < self.spec_height(),
        ensures
            r == self.chroma(x as int, y as int),
    {
        proof {
            lemma_pixel_index(
                self.width as int,
                self.height as int,
                self.data@.len() as int,
                x as int,
                y as int,
            );
            vstd::std_specs::vec::axiom_spec_len(&self.data);
        }
        let s = &self.data[y * (self.width / 2) + x / 2];
        (s.u, s.v)
    }

    /// The frame's contents as raw packed YUYV bytes, four per sample.
    pub fn to_bytes(&self) -> (r: Vec<u8>)
        requires
            self.wf(),
        ensures
            r@.len() == self.spec_width() * self.spec_height() * 2,
            forall|x: int, y: int|
                0 <= x < self.spec_width() && 0 <= y < self.spec_height() ==> yuyv_luma(
                    r@,
                    self.spec_width(),
                    x,
                    y,
                ) == self.luma(x, y),
            forall|x: int, y: int|
                0 <= x < self.spec_width() && 0 <= y < self.spec_height() ==> yuyv_chroma(
                    r@,
                    self.spec_width(),
                    x,
                    y,
                ) == self.chroma(x, y),
    {
        let mut r: Vec<u8> = Vec::new();
        let count: usize = self.data.len();
        let mut k: usize = 0;
        while k < count
            invariant
                count == self.data@.len(),
                k <= count,
                r@.len() == 4 * k,
                forall|t: int|
                    0 <= t < k ==> r@[4 * t] == (#[trigger] self.data@[t]).y0 && r@[4 * t + 1]
                        == self.data@[t].u && r@[4 * t + 2] == self.data@[t].y1 && r@[4 * t + 3]
                        == self.data@[t].v,
            decreases count - k,
        {
            let s = &self.data[k];
            r.push(s.y0);
            r.push(s.u);
            r.push(s.y1);
            r.push(s.v);
            proof {
                assert(r@[4 * (k as int)] == self.data@[k as int].y0);
                assert(r@[4 * (k as int) + 1] == self.data@[k as int].u);
                assert(r@[4 * (k as int) + 2] == self.data@[k as int].y1);
                assert(r@[4 * (k as int) + 3] == self.data@[k as int].v);
            }
            k = k + 1;
        }
        proof {
            assert((self.width as int / 2) * (self.height as int) * 4 == self.spec_width()
                * self.spec_height() * 2) by (nonlinear_arith)
                requires
                    self.width % 2 == 0,
                    self.width >= 0,
                    self.height >= 0,
            ;
            assert forall|x: int, y: int|
                0 <= x < self.spec_width() && 0 <= y < self.spec_height() implies yuyv_luma(
                r@,
                self.spec_width(),
                x,
                y,
            ) == self.luma(x, y) && yuyv_chroma(r@, self.spec_width(), x, y) == self.chroma(
                x,
                y,
            ) by {
                lemma_pixel_index(
                    self.width as int,
                    self.height as int,
                    self.data@.len() as int,
                    x,
                    y,
                );
                let t = y * (self.width as int / 2) + x / 2;
                assert(r@[4 * t] == self.data@[t].y0);
                assert(r@[4 * t + 1] == self.data@[t].u);
                assert(r@[4 * t + 2] == self.data@[t].y1);
                assert(r@[4 * t + 3] == self.data@[t].v);
            }
        }
        r
    }
}

/// A 16x16 block of pixels: four 8x8 luminance planes (left-top, right-top,
/// left-bottom, right-bottom) and one 8x8 plane each for Cb and Cr, sampled
/// 4:2:0. A plane is indexed `[column][row]`.
#[derive(Clone, Debug, PartialEq, Eq)]
pub struct Macroblock {
    pub y0: [[u8; 8]; 8],
    pub y1: [[u8; 8]; 8],
    pub y2: [[u8; 8]; 8],
    pub y3: [[u8; 8]; 8],
    pub u: [[u8; 8]; 8],
    pub v: [[u8; 8]; 8],
}

impl Macroblock {
    /// Luminance at offset `(i, j)` within the 16x16 block, read from the
    /// quadrant plane it falls in.
    pub open spec fn luma_at(&self, i: int, j: int) -> u8 {
        if i < 8 && j < 8 {
            plane_u8(self.y0, i, j)
        } else if j < 8 {
            plane_u8(self.y1, i - 8, j)
        } else if i < 8 {
            plane_u8(self.y2, i, j - 8)
        } else {
            plane_u8(self.y3, i - 8, j - 8)
        }
    }

    /// Chrominance pair at offset `(i, j)`: one value per 2x2 pixel square.
    pub open spec fn chroma_at(&self, i: int, j: int) -> (u8, u8) {
        (plane_u8(self.u, i / 2, j / 2), plane_u8(self.v, i / 2, j / 2))
    }

    /// Write this block into `frame` with its top-left pixel at `(x, y)`:
    /// every covered pixel takes the block's luminance and chrominance, and
    /// no pixel outside the 16x16 region changes.
    pub fn copy_to_yuv422_frame(&self, frame: &mut MutableYUVFrame, x: usize, y: usize)
        requires
            old(frame).wf(),
            x % 2 == 0,
            x + 16 <= old(frame).spec_width(),
            y + 16 <= old(frame).spec_height(),
        ensures
            final(frame).wf(),
            final(frame).spec_width() == old(frame).spec_width(),
            final(frame).spec_height() == old(frame).spec_height(),
            forall|i: int, j: int|
                0 <= i < 16 && 0 <= j < 16 ==> final(frame).luma(x + i, y + j)
                    == #[trigger] self.luma_at(i, j),
            forall|i: int, j: int|
                0 <= i < 16 && 0 <= j < 16 ==> final(frame).chroma(x + i, y + j)
                    == #[trigger] self.chroma_at(i, j),
            forall|px: int, py: int|
                0 <= px < old(frame).spec_width() && 0 <= py < old(frame).spec_height() && !(x
                    <= px < x + 16 && y <= py < y + 16) ==> final(frame).luma(px, py) == old(frame).luma(px, py) && final(frame).chroma(px, py) == old(frame).chroma(px, py),
    {
        copy_luma_quadrant(frame, &self.y0, x, y);
        copy_luma_quadrant(frame, &self.y1, x + 8, y);
        copy_luma_quadrant(frame, &self.y2, x, y + 8);
        copy_luma_quadrant(frame, &self.y3, x + 8, y + 8);
        let mut ie: usize = 0;
        while ie < 8
            invariant
                frame.wf(),
                frame.spec_width() == old(frame).spec_width(),
                frame.spec_height() == old(frame).spec_height(),
                ie <= 8,
                x % 2 == 0,
                x + 16 <= frame.spec_width(),
                y + 16 <= frame.spec_height(),
                forall|i: int, j: int|
                    0 <= i < 16 && 0 <= j < 16 ==> frame.luma(x + i, y + j)
                        == #[trigger] self.luma_at(i, j),
                forall|i: int, j: int|
                    0 <= i < 2 * ie && 0 <= j < 16 ==> frame.chroma(x + i, y + j)
                        == #[trigger] self.chroma_at(i, j),
                forall|px: int, py: int|
                    0 <= px < frame.spec_width() && 0 <= py < frame.spec_height() && !(x <= px < x
                        + 16 && y <= py < y + 16) ==> frame.luma(px, py) == old(frame).luma(px, py)
                        && frame.chroma(px, py) == old(frame).chroma(px, py),
            decreases 8 - ie,
        {
            let mut je: usize = 0;
            while je < 8
                invariant
                    frame.wf(),
                    frame.spec_width() == old(frame).spec_width(),
                    frame.spec_height() == old(frame).spec_height(),
                    ie < 8,
                    je <= 8,
                    x % 2 == 0,
                    x + 16 <= frame.spec_width(),
                    y + 16 <= frame.spec_height(),
                    forall|i: int, j: int|
                        0 <= i < 16 && 0 <= j < 16 ==> frame.luma(x + i, y + j)
                            == #[trigger] self.luma_at(i, j),
                    forall|i: int, j: int|
                        0 <= i < 2 * ie && 0 <= j < 16 ==> frame.chroma(x + i, y + j)
                            == #[trigger] self.chroma_at(i, j),
                    forall|i: int, j: int|
                        2 * ie <= i < 2 * ie + 2 && 0 <= j < 2 * je ==> frame.chroma(x + i, y + j)
                            == #[trigger] self.chroma_at(i, j),
                    forall|px: int, py: int|
                        0 <= px < frame.spec_width() && 0 <= py < frame.spec_height() && !(x <= px
                            < x + 16 && y <= py < y + 16) ==> frame.luma(px, py) == old(frame).luma(px, py) && frame.chroma(px, py) == old(frame).chroma(px, py),
                decreases 8 - je,
            {
                let value: (u8, u8) = (self.u[ie][je], self.v[ie][je]);
                frame.set_chroma(x + 2 * ie, y + 2 * je, value);
                frame.set_chroma(x + 2 * ie, y + 2 * je + 1, value);
                proof {
                    assert forall|i: int, j: int|
                        2 * ie <= i < 2 * ie + 2 && 0 <= j < 2 * (je + 1) implies frame.chroma(
                        x + i,
                        y + j,
                    ) == #[trigger] self.chroma_at(i, j) by {
                        assert((x + i) / 2 == (x + 2 * ie) / 2);
                        assert(i / 2 == ie);
                        assert(j / 2 == je || j < 2 * je);
                    }
                }
                je = je + 1;
            }
            ie = ie + 1;
        }
    }
}

/// Fill an 8x8 luminance quadrant of the frame at `(fx, fy)` from a plane;
/// chrominance and all pixels outside the quadrant keep their values.
fn copy_luma_quadrant(frame: &mut MutableYUVFrame, plane: &[[u8; 8]; 8], fx: usize, fy: usize)
    requires
        old(frame).wf(),
        fx + 8 <= old(frame).spec_width(),
        fy + 8 <= old(frame).spec_height(),
    ensures
        final(frame).wf(),
        final(frame).spec_width() == old(frame).spec_width(),
        final(frame).spec_height() == old(frame).spec_height(),
        forall|di: int, dj: int|
            0 <= di < 8 && 0 <= dj < 8 ==> final(frame).luma(fx + di, fy + dj) == #[trigger] plane_u8(
                *plane,
                di,
                dj,
            ),
        forall|px: int, py: int|
            0 <= px < old(frame).spec_width() && 0 <= py < old(frame).spec_height() && !(fx <= px
                < fx + 8 && fy <= py < fy + 8) ==> final(frame).luma(px, py) == old(frame).luma(
                px,
                py,
            ),
        forall|px: int, py: int|
            0 <= px < old(frame).spec_width() && 0 <= py < old(frame).spec_height() ==> final(frame).chroma(px, py) == old(frame).chroma(px, py),
{
    let mut di: usize = 0;
    while di < 8
        invariant
            frame.wf(),
            frame.spec_width() == old(frame).spec_width(),
            frame.spec_height() == old(frame).spec_height(),
            di <= 8,
            fx + 8 <= frame.spec_width(),
            fy + 8 <= frame.spec_height(),
            forall|a: int, b: int|
                0 <= a < di && 0 <= b < 8 ==> frame.luma(fx + a, fy + b) == #[trigger] plane_u8(
                    *plane,
                    a,
                    b,
                ),
            forall|px: int, py: int|
                0 <= px < frame.spec_width() && 0 <= py < frame.spec_height() && !(fx <= px < fx
                    + di && fy <= py < fy + 8) ==> frame.luma(px, py) == old(frame).luma(px, py),
            forall|px: int, py: int|
                0 <= px < frame.spec_width() && 0 <= py < frame.spec_height() ==> frame.chroma(
                    px,
                    py,
                ) == old(frame).chroma(px, py),
        decreases 8 - di,
    {
        let mut dj: usize = 0;
        while dj < 8
            invariant
                frame.wf(),
                frame.spec_width() == old(frame).spec_width(),
                frame.spec_height() == old(frame).spec_height(),
                di < 8,
                dj <= 8,
                fx + 8 <= frame.spec_width(),
                fy + 8 <= frame.spec_height(),
                forall|a: int, b: int|
                    0 <= a < di && 0 <= b < 8 ==> frame.luma(fx + a, fy + b) == #[trigger] plane_u8(
                        *plane,
                        a,
                        b,
                    ),
                forall|b: int|
                    0 <= b < dj ==> frame.luma(fx + di, fy + b) == #[trigger] plane_u8(
                        *plane,
                        di as int,
                        b,
                    ),
                forall|px: int, py: int|
                    0 <= px < frame.spec_width() && 0 <= py < frame.spec_height() && !((fx <= px
                        < fx + di && fy <= py < fy + 8) || (px == fx + di && fy <= py < fy + dj))
                        ==> frame.luma(px, py) == old(frame).luma(px, py),
                forall|px: int, py: int|
                    0 <= px < frame.spec_width() && 0 <= py < frame.spec_height() ==> frame.chroma(
                        px,
                        py,
                    ) == old(frame).chroma(px, py),
            decreases 8 - dj,
        {
            frame.set_luma(fx + di, fy + dj, plane[di][dj]);
            dj = dj + 1;
        }
        di = di + 1;
    }
}

/// A macroblock together with the frame position it was cut from.
#[derive(Clone, Debug)]
pub struct MacroblockWithPosition {
    pub block: Macroblock,
    pub x: usize,
    pub y: usize,
}

/// Walks a frame region left to right, top to bottom, cutting one 16x16
/// macroblock per step.
pub struct YUVFrameMacroblockIterator<'a> {
    frame: &'a YUVFrame,
    x_start: usize,
    y_start: usize,
    x: usize,
    y: usize,
    x_end: usize,
    y_end: usize,
}

impl<'a> YUVFrameMacroblockIterator<'a> {
    /// The region lies inside the frame, is built of whole macroblocks, and
    /// the cursor stands on a macroblock boundary.
    pub closed spec fn valid(&self) -> bool {
        &&& self.frame.wf()
        &&& self.x_end <= self.frame.spec_width()
        &&& self.y_end <= self.frame.spec_height()
        &&& self.x_start <= self.x
        &&& self.y_start <= self.y
        &&& (self.x_end - self.x) % 16 == 0
        &&& (self.y_end - self.y) % 16 == 0
        &&& (self.x_end - self.x_start) % 16 == 0
        &&& self.x < self.x_end || self.y >= self.y_end
    }

    /// The frame being walked.
    pub closed spec fn spec_frame(&self) -> &'a YUVFrame {
        self.frame
    }

    /// The cursor's position.
    pub closed spec fn position(&self) -> (int, int) {
        (self.x as int, self.y as int)
    }

    /// Whether the walk is finished.
    pub open spec fn done(&self) -> bool {
        self.position().1 >= self.end_bounds().1
    }

    /// The region's end bounds `(x_end, y_end)`.
    pub closed spec fn end_bounds(&self) -> (int, int) {
        (self.x_end as int, self.y_end as int)
    }

    /// Walk the whole frame.
    pub fn new(frame: &'a YUVFrame) -> (r: Self)
        requires
            frame.wf(),
            frame.spec_width() % 16 == 0,
            frame.spec_height() % 16 == 0,
            frame.spec_width() > 0 || frame.spec_height() == 0,
        ensures
            r.valid(),
            r.spec_frame() == frame,
            r.position() == (0int, 0int),
            r.end_bounds() == (frame.spec_width(), frame.spec_height()),
    {
        let width = frame.width();
        let height = frame.height();
        YUVFrameMacroblockIterator {
            frame,
            x_start: 0,
            y_start: 0,
            x: 0,
            y: 0,
            x_end: width,
            y_end: height,
        }
    }

    /// Walk the rectangle from `(x_start, y_start)` to `(x_end, y_end)`.
    pub fn new_with_bounds(
        frame: &'a YUVFrame,
        x_start: usize,
        y_start: usize,
        x_end: usize,
        y_end: usize,
    ) -> (r: Self)
        requires
            frame.wf(),
            x_start <= x_end <= frame.spec_width(),
            y_start <= y_end <= frame.spec_height(),
            (x_end - x_start) % 16 == 0,
            (y_end - y_start) % 16 == 0,
            x_start < x_end || y_start >= y_end,
        ensures
            r.valid(),
            r.spec_frame() == frame,
            r.position() == (x_start as int, y_start as int),
            r.end_bounds() == (x_end as int, y_end as int),
    {
        YUVFrameMacroblockIterator { frame, x_start, y_start, x: x_start, y: y_start, x_end, y_end }
    }

    /// Cut the macroblock under the cursor and step: right by sixteen
    /// pixels, wrapping to the next sixteen-pixel row at the region's edge.
    /// `None` exactly when the region is exhausted.
    pub fn next(&mut self) -> (r: Option<MacroblockWithPosition>)
        requires
            old(self).valid(),
        ensures
            final(self).valid(),
            final(self).spec_frame() == old(self).spec_frame(),
            final(self).end_bounds() == old(self).end_bounds(),
            old(self).done() ==> r is None && *final(self) == *old(self),
            !old(self).done() ==> match r {
                None => false,
                Some(mb) => {
                    let frame = old(self).spec_frame();
                    let (mx, my) = old(self).position();
                    &&& mb.x == mx
                    &&& mb.y == my
                    &&& forall|i: int, j: int|
                        0 <= i < 16 && 0 <= j < 16 ==> #[trigger] mb.block.luma_at(i, j)
                            == frame.luma(mx + i, my + j)
                    &&& forall|i: int, j: int|
                        0 <= i < 8 && 0 <= j < 8 ==> #[trigger] plane_u8(mb.block.u, i, j)
                            == frame.chroma(mx + 2 * i, my + 2 * j).0
                    &&& forall|i: int, j: int|
                        0 <= i < 8 && 0 <= j < 8 ==> #[trigger] plane_u8(mb.block.v, i, j)
                            == frame.chroma(mx + 2 * i, my + 2 * j).1
                },
            },
    {
        if self.y >= self.y_end {
            return None;
        }
        let bx = self.x;
        let by = self.y;
        let y0 = read_luma_quadrant(self.frame, bx, by);
        let y1 = read_luma_quadrant(self.frame, bx + 8, by);
        let y2 = read_luma_quadrant(self.frame, bx, by + 8);
        let y3 = read_luma_quadrant(self.frame, bx + 8, by + 8);
        let mut u: [[u8; 8]; 8] = [[0; 8]; 8];
        let mut v: [[u8; 8]; 8] = [[0; 8]; 8];
        let mut i: usize = 0;
        while i < 8
            invariant
                i <= 8,
                self == old(self),
                self.frame.wf(),
                bx + 16 <= self.frame.spec_width(),
                by + 16 <= self.frame.spec_height(),
                forall|a: int, b: int|
                    0 <= a < i && 0 <= b < 8 ==> #[trigger] plane_u8(u, a, b) == self.frame.chroma(
                        bx + 2 * a,
                        by + 2 * b,
                    ).0,
                forall|a: int, b: int|
                    0 <= a < i && 0 <= b < 8 ==> #[trigger] plane_u8(v, a, b) == self.frame.chroma(
                        bx + 2 * a,
                        by + 2 * b,
                    ).1,
            decreases 8 - i,
        {
            let mut j: usize = 0;
            while j < 8
                invariant
                    i < 8,
                    j <= 8,
                    self == old(self),
                    self.frame.wf(),
                    bx + 16 <= self.frame.spec_width(),
                    by + 16 <= self.frame.spec_height(),
                    forall|a: int, b: int|
                        0 <= a < i && 0 <= b < 8 ==> #[trigger] plane_u8(u, a, b)
                            == self.frame.chroma(bx + 2 * a, by + 2 * b).0,
                    forall|a: int, b: int|
                        0 <= a < i && 0 <= b < 8 ==> #[trigger] plane_u8(v, a, b)
                            == self.frame.chroma(bx + 2 * a, by + 2 * b).1,
                    forall|b: int|
                        0 <= b < j ==> #[trigger] plane_u8(u, i as int, b) == self.frame.chroma(
                            bx + 2 * i,
                            by + 2 * b,
                        ).0,
                    forall|b: int|
                        0 <= b < j ==> #[trigger] plane_u8(v, i as int, b) == self.frame.chroma(
                            bx + 2 * i,
                            by + 2 * b,
                        ).1,
                decreases 8 - j,
            {
                let c = self.frame.get_chroma(bx + 2 * i, by + 2 * j);
                let ghost up = u;
                let ghost vp = v;
                u[i][j] = c.0;
                v[i][j] = c.1;
                proof {
                    assert forall|a: int, b: int|
                        0 <= a < 8 && 0 <= b < 8 && !(a == i && b == j) implies #[trigger] plane_u8(
                        u,
                        a,
                        b,
                    ) == plane_u8(up, a, b) by {
                        if a != i {
                            assert(u@[a] == up@[a]);
                        } else {
                            assert(u@[a]@[b] == up@[a]@[b]);
                        }
                    }
                    assert forall|a: int, b: int|
                        0 <= a < 8 && 0 <= b < 8 && !(a == i && b == j) implies #[trigger] plane_u8(
                        v,
                        a,
                        b,
                    ) == plane_u8(vp, a, b) by {
                        if a != i {
                            assert(v@[a] == vp@[a]);
                        } else {
                            assert(v@[a]@[b] == vp@[a]@[b]);
                        }
                    }
                }
                j = j + 1;
            }
            i = i + 1;
        }
        let block = Macroblock { y0, y1, y2, y3, u, v };
        let result = MacroblockWithPosition { block, x: bx, y: by };
        self.x = self.x + 16;
        if self.x >= self.x_end {
            self.x = self.x_start;
            self.y = self.y + 16;
        }
        proof {
            assert forall|i2: int, j2: int| 0 <= i2 < 16 && 0 <= j2 < 16 implies #[trigger] result
                .block
                .luma_at(i2, j2) == old(self).spec_frame().luma(bx + i2, by + j2) by {}
        }
        Some(result)
    }
}

/// Read an 8x8 luminance quadrant of the frame at `(fx, fy)`.
fn read_luma_quadrant(frame: &YUVFrame, fx: usize, fy: usize) -> (r: [[u8; 8]; 8])
    requires
        frame.wf(),
        fx + 8 <= frame.spec_width(),
        fy + 8 <= frame.spec_height(),
    ensures
        forall|di: int, dj: int|
            0 <= di < 8 && 0 <= dj < 8 ==> #[trigger] plane_u8(r, di, dj) == frame.luma(
                fx + di,
                fy + dj,
            ),
{
    let mut r: [[u8; 8]; 8] = [[0; 8]; 8];
    let mut di: usize = 0;
    while di < 8
        invariant
            di <= 8,
            frame.wf(),
            fx + 8 <= frame.spec_width(),
            fy + 8 <= frame.spec_height(),
            forall|a: int, b: int|
                0 <= a < di && 0 <= b < 8 ==> #[trigger] plane_u8(r, a, b) == frame.luma(
                    fx + a,
                    fy + b,
                ),
        decreases 8 - di,
    {
        let mut dj: usize = 0;
        while dj < 8
            invariant
                di < 8,
                dj <= 8,
                frame.wf(),
                fx + 8 <= frame.spec_width(),
                fy + 8 <= frame.spec_height(),
                forall|a: int, b: int|
                    0 <= a < di && 0 <= b < 8 ==> #[trigger] plane_u8(r, a, b) == frame.luma(
                        fx + a,
                        fy + b,
                    ),
                forall|b: int|
                    0 <= b < dj ==> #[trigger] plane_u8(r, di as int, b) == frame.luma(
                        fx + di,
                        fy + b,
                    ),
            decreases 8 - dj,
        {
            let ghost prev = r;
            r[di][dj] = frame.get_luma(fx + di, fy + dj);
            proof {
                assert forall|a: int, b: int|
                    0 <= a < 8 && 0 <= b < 8 && !(a == di && b == dj) implies #[trigger] plane_u8(
                    r,
                    a,
                    b,
                ) == plane_u8(prev, a, b) by {
                    if a != di {
                        assert(r@[a] == prev@[a]);
                    } else {
                        assert(r@[a]@[b] == prev@[a]@[b]);
                    }
                }
            }
            dj = dj + 1;
        }
        di = di + 1;
    }
    r
}

/// A quantized macroblock: the same six planes, level-shifted and divided by
/// the per-position quantization step.
#[derive(Clone, Debug, PartialEq, Eq)]
pub struct QuantizedMacroblock {
    pub y0: [[i8; 8]; 8],
    pub y1: [[i8; 8]; 8],
    pub y2: [[i8; 8]; 8],
    pub y3: [[i8; 8]; 8],
    pub u: [[i8; 8]; 8],
    pub v: [[i8; 8]; 8],
}

/// Entry `[i][j]` of an 8x8 sample plane.
pub open spec fn plane_u8(p: [[u8; 8]; 8], i: int, j: int) -> u8 {
    p@[i]@[j]
}

/// Entry `[i][j]` of an 8x8 quantized plane.
pub open spec fn plane_i8(p: [[i8; 8]; 8], i: int, j: int) -> i8 {
    p@[i]@[j]
}

/// Quantization step for plane position `(i, j)`: coarser in higher
/// frequency bands (larger `i + j`), and coarser overall for chrominance.
/// Always at least one.
pub open spec fn quant_step(chroma: bool, i: int, j: int) -> u8 {
    if chroma {
        if i + j == 0 {
            1u8
        } else if i + j < 6 {
            2u8
        } else {
            4u8
        }
    } else {
        (1 + (i + j) / 4) as u8
    }
}

/// A sample quantized with step `step`: level-shift around 128, then divide,
/// rounding to the nearest multiple (half away from zero).
pub open spec fn spec_quantize_sample(v: u8, step: u8) -> i8
    recommends
        step >= 1,
{
    if v >= 128 {
        (((v - 128) + step / 2) / (step as int)) as i8
    } else {
        (0 - (((128 - v) + step / 2) / (step as int))) as i8
    }
}

/// A quantized sample restored: multiply by the step, undo the level shift,
/// clamp to the byte range.
pub open spec fn spec_dequantize_sample(q: i8, step: u8) -> u8 {
    let v = 128 + (q as int) * (step as int);
    if v < 0 {
        0u8
    } else if v > 255 {
        255u8
    } else {
        v as u8
    }
}

/// Rounding division by a positive step never grows a nonnegative value.
proof fn lemma_round_div_le(c: int, s: int)
    requires
        0 <= c,
        1 <= s,
    ensures
        0 <= (c + s / 2) / s <= c,
{
    vstd::arithmetic::div_mod::lemma_div_pos_is_pos(c + s / 2, s);
    assert(c + s / 2 < s * (c + 1)) by (nonlinear_arith)
        requires
            0 <= c,
            1 <= s,
    ;
    vstd::arithmetic::div_mod::lemma_multiply_divide_lt(c + s / 2, s, c + 1);
}

/// Quantization step for plane position `(i, j)`.
pub fn quant_step_at(chroma: bool, i: usize, j: usize) -> (r: u8)
    requires
        i < 8,
        j < 8,
    ensures
        r == quant_step(chroma, i as int, j as int),
        1 <= r <= 4,
{
    if chroma {
        if i + j == 0 {
            1
        } else if i + j < 6 {
            2
        } else {
            4
        }
    } else {
        1 + ((i + j) / 4) as u8
    }
}

/// Quantize one sample.
fn quantize_sample(v: u8, step: u8) -> (r: i8)
    requires
        1 <= step,
    ensures
        r == spec_quantize_sample(v, step),
{
    let s: u32 = step as u32;
    if v >= 128 {
        let c: u32 = (v - 128) as u32;
        proof {
            lemma_round_div_le(c as int, s as int);
        }
        let q: u32 = (c + s / 2) / s;
        q as i8
    } else {
        let c: u32 = (128 - v) as u32;
        proof {
            lemma_round_div_le(c as int, s as int);
        }
        let q: u32 = (c + s / 2) / s;
        (0 - (q as i32)) as i8
    }
}

/// Restore one sample.
fn dequantize_sample(q: i8, step: u8) -> (r: u8)
    ensures
        r == spec_dequantize_sample(q, step),
{
    proof {
        assert(-128 * 255 <= (q as int) * (step as int) <= 127 * 255) by (nonlinear_arith)
            requires
                -128 <= q as int <= 127,
                0 <= step as int <= 255,
        ;
    }
    let v: i32 = 128 + (q as i32) * (step as i32);
    if v < 0 {
        0
    } else if v > 255 {
        255
    } else {
        v as u8
    }
}

/// Every entry of `q` is the matching entry of `p`, quantized.
pub open spec fn plane_quantized(p: [[u8; 8]; 8], q: [[i8; 8]; 8], chroma: bool) -> bool {
    forall|i: int, j: int|
        0 <= i < 8 && 0 <= j < 8 ==> #[trigger] plane_i8(q, i, j) == spec_quantize_sample(
            plane_u8(p, i, j),
            quant_step(chroma, i, j),
        )
}

/// Every entry of `p` is the matching entry of `q`, restored.
pub open spec fn plane_dequantized(q: [[i8; 8]; 8], p: [[u8; 8]; 8], chroma: bool) -> bool {
    forall|i: int, j: int|
        0 <= i < 8 && 0 <= j < 8 ==> #[trigger] plane_u8(p, i, j) == spec_dequantize_sample(
            plane_i8(q, i, j),
            quant_step(chroma, i, j),
        )
}

/// Quantize one plane.
fn quantize_plane(p: &[[u8; 8]; 8], chroma: bool) -> (r: [[i8; 8]; 8])
    ensures
        plane_quantized(*p, r, chroma),
{
    let mut r: [[i8; 8]; 8] = [[0; 8]; 8];
    let mut i: usize = 0;
    while i < 8
        invariant
            i <= 8,
            forall|a: int, b: int|
                0 <= a < i && 0 <= b < 8 ==> #[trigger] plane_i8(r, a, b) == spec_quantize_sample(
                    plane_u8(*p, a, b),
                    quant_step(chroma, a, b),
                ),
        decreases 8 - i,
    {
        let mut j: usize = 0;
        while j < 8
            invariant
                i < 8,
                j <= 8,
                forall|a: int, b: int|
                    0 <= a < i && 0 <= b < 8 ==> #[trigger] plane_i8(r, a, b)
                        == spec_quantize_sample(plane_u8(*p, a, b), quant_step(chroma, a, b)),
                forall|b: int|
                    0 <= b < j ==> #[trigger] plane_i8(r, i as int, b) == spec_quantize_sample(
                        plane_u8(*p, i as int, b),
                        quant_step(chroma, i as int, b),
                    ),
            decreases 8 - j,
        {
            let step = quant_step_at(chroma, i, j);
            let ghost prev = r;
            r[i][j] = quantize_sample(p[i][j], step);
            proof {
                assert forall|a: int, b: int|
                    0 <= a < 8 && 0 <= b < 8 && !(a == i && b == j) implies #[trigger] plane_i8(
                    r,
                    a,
                    b,
                ) == plane_i8(prev, a, b) by {
                    if a != i {
                        assert(r@[a] == prev@[a]);
                    } else {
                        assert(r@[a]@[b] == prev@[a]@[b]);
                    }
                }
                assert(plane_i8(r, i as int, j as int) == spec_quantize_sample(
                    plane_u8(*p, i as int, j as int),
                    quant_step(chroma, i as int, j as int),
                ));
            }
            j = j + 1;
        }
        i = i + 1;
    }
    r
}

/// Restore one plane.
fn dequantize_plane(q: &[[i8; 8]; 8], chroma: bool) -> (r: [[u8; 8]; 8])
    ensures
        plane_dequantized(*q, r, chroma),
{
    let mut r: [[u8; 8]; 8] = [[0; 8]; 8];
    let mut i: usize = 0;
    while i < 8
        invariant
            i <= 8,
            forall|a: int, b: int|
                0 <= a < i && 0 <= b < 8 ==> #[trigger] plane_u8(r, a, b) == spec_dequantize_sample(
                    plane_i8(*q, a, b),
                    quant_step(chroma, a, b),
                ),
        decreases 8 - i,
    {
        let mut j: usize = 0;
        while j < 8
            invariant
                i < 8,
                j <= 8,
                forall|a: int, b: int|
                    0 <= a < i && 0 <= b < 8 ==> #[trigger] plane_u8(r, a, b)
                        == spec_dequantize_sample(plane_i8(*q, a, b), quant_step(chroma, a, b)),
                forall|b: int|
                    0 <= b < j ==> #[trigger] plane_u8(r, i as int, b) == spec_dequantize_sample(
                        plane_i8(*q, i as int, b),
                        quant_step(chroma, i as int, b),
                    ),
            decreases 8 - j,
        {
            let step = quant_step_at(chroma, i, j);
            let ghost prev = r;
            r[i][j] = dequantize_sample(q[i][j], step);
            proof {
                assert forall|a: int, b: int|
                    0 <= a < 8 && 0 <= b < 8 && !(a == i && b == j) implies #[trigger] plane_u8(
                    r,
                    a,
                    b,
                ) == plane_u8(prev, a, b) by {
                    if a != i {
                        assert(r@[a] == prev@[a]);
                    } else {
                        assert(r@[a]@[b] == prev@[a]@[b]);
                    }
                }
                assert(plane_u8(r, i as int, j as int) == spec_dequantize_sample(
                    plane_i8(*q, i as int, j as int),
                    quant_step(chroma, i as int, j as int),
                ));
            }
            j = j + 1;
        }
        i = i + 1;
    }
    r
}

/// Quantize a whole macroblock: the luminance steps for the four Y planes,
/// the chrominance steps for U and V.
pub fn quantize_macroblock(block: &Macroblock) -> (r: QuantizedMacroblock)
    ensures
        plane_quantized(block.y0, r.y0, false),
        plane_quantized(block.y1, r.y1, false),
        plane_quantized(block.y2, r.y2, false),
        plane_quantized(block.y3, r.y3, false),
        plane_quantized(block.u, r.u, true),
        plane_quantized(block.v, r.v, true),
{
    QuantizedMacroblock {
        y0: quantize_plane(&block.y0, false),
        y1: quantize_plane(&block.y1, false),
        y2: quantize_plane(&block.y2, false),
        y3: quantize_plane(&block.y3, false),
        u: quantize_plane(&block.u, true),
        v: quantize_plane(&block.v, true),
    }
}

/// Restore a whole macroblock from its quantized form.
pub fn dequantize_macroblock(block: &QuantizedMacroblock) -> (r: Macroblock)
    ensures
        plane_dequantized(block.y0, r.y0, false),
        plane_dequantized(block.y1, r.y1, false),
        plane_dequantized(block.y2, r.y2, false),
        plane_dequantized(block.y3, r.y3, false),
        plane_dequantized(block.u, r.u, true),
        plane_dequantized(block.v, r.v, true),
{
    Macroblock {
        y0: dequantize_plane(&block.y0, false),
        y1: dequantize_plane(&block.y1, false),
        y2: dequantize_plane(&block.y2, false),
        y3: dequantize_plane(&block.y3, false),
        u: dequantize_plane(&block.u, true),
        v: dequantize_plane(&block.v, true),
    }
}

/// Quantizing and restoring a sample moves it by at most half the step:
/// the codec's loss is bounded by the quantization table alone.
pub proof fn lemma_quantize_round_trip_error(v: u8, step: u8)
    requires
        1 <= step,
    ensures
        spec_dequantize_sample(spec_quantize_sample(v, step), step) - v <= step / 2,
        v - spec_dequantize_sample(spec_quantize_sample(v, step), step) <= step / 2,
{
    let s = step as int;
    let q8 = spec_quantize_sample(v, step);
    let c = if v >= 128 {
        v as int - 128
    } else {
        128 - v as int
    };
    lemma_round_div_le(c, s);
    let q = (c + s / 2) / s;
    vstd::arithmetic::div_mod::lemma_fundamental_div_mod(c + s / 2, s);
    vstd::arithmetic::div_mod::lemma_mod_bound(c + s / 2, s);
    vstd::arithmetic::div_mod::lemma_fundamental_div_mod(s, 2);
    vstd::arithmetic::div_mod::lemma_mod_bound(s, 2);
    let rem = (c + s / 2) % s;
    assert(c - s * q == rem - s / 2);
    assert(-(s / 2) <= c - s * q <= s / 2);
    if v >= 128 {
        assert(q8 as int == q);
        let vd = 128 + (q8 as int) * s;
        assert(vd - v == s * q - c) by (nonlinear_arith)
            requires
                q8 as int == q,
                vd == 128 + (q8 as int) * s,
                v as int == 128 + c,
        ;
        assert(vd >= 128) by (nonlinear_arith)
            requires
                q >= 0,
                s >= 1,
                vd == 128 + q * s,
        ;
    } else {
        assert(q8 as int == -q);
        let vd = 128 + (q8 as int) * s;
        assert(v as int - vd == s * q - c) by (nonlinear_arith)
            requires
                q8 as int == -q,
                vd == 128 + (q8 as int) * s,
                v as int == 128 - c,
        ;
        assert(vd <= 128) by (nonlinear_arith)
            requires
                q >= 0,
                s >= 1,
                vd == 128 + (-q) * s,
        ;
    }
}

/// An 8x8 quantized plane read row by row as a flat sequence of 64 values.
pub open spec fn plane_flat(p: [[i8; 8]; 8]) -> Seq<i8> {
    Seq::new(64, |k: int| p@[k / 8]@[k % 8])
}

/// Length of the run of equal values at the head of `s`, uncapped.
pub open spec fn spec_run_raw(s: Seq<i8>) -> int
    decreases s.len(),
{
    if s.len() <= 1 {
        s.len() as int
    } else if s[1] == s[0] {
        1 + spec_run_raw(s.drop_first())
    } else {
        1
    }
}

/// Length of the head run as the encoder emits it: at most 255, so that it
/// fits in one count byte.
pub open spec fn spec_run(s: Seq<i8>) -> int {
    if spec_run_raw(s) > 255 {
        255int
    } else {
        spec_run_raw(s)
    }
}

/// The head run is between one and the sequence length, and every value in
/// it equals the head.
proof fn lemma_run_raw_bounds(s: Seq<i8>)
    requires
        s.len() >= 1,
    ensures
        1 <= spec_run_raw(s) <= s.len(),
        forall|t: int| 0 <= t < spec_run_raw(s) ==> #[trigger] s[t] == s[0],
    decreases s.len(),
{
    if s.len() > 1 && s[1] == s[0] {
        lemma_run_raw_bounds(s.drop_first());
        assert forall|t: int| 0 <= t < spec_run_raw(s) implies #[trigger] s[t] == s[0] by {
            if t >= 1 {
                assert(s.drop_first()[t - 1] == s[t]);
            }
        }
    }
}

/// If the first `r` values equal the head, the head run is at least `r`.
proof fn lemma_run_raw_at_least(s: Seq<i8>, r: int)
    requires
        0 <= r <= s.len(),
        forall|t: int| 0 <= t < r ==> #[trigger] s[t] == s[0],
    ensures
        spec_run_raw(s) >= r,
    decreases s.len(),
{
    if s.len() >= 1 {
        lemma_run_raw_bounds(s);
    }
    if r >= 2 {
        assert(s[1] == s[0]);
        let d = s.drop_first();
        assert(forall|t: int| 0 <= t < r - 1 ==> #[trigger] d[t] == s[t + 1]);
        assert(forall|t: int| 0 <= t < r - 1 ==> #[trigger] d[t] == d[0]);
        lemma_run_raw_at_least(d, r - 1);
        assert(spec_run_raw(s) == 1 + spec_run_raw(d));
    }
}

/// Run-length coding of a flat sequence: for each greedy run of equal
/// values, the value's byte followed by the run length.
pub open spec fn spec_rle(s: Seq<i8>) -> Seq<u8>
    decreases s.len(),
    via spec_rle_decreases
{
    if s.len() == 0 {
        Seq::empty()
    } else {
        seq![s[0] as u8, spec_run(s) as u8] + spec_rle(s.skip(spec_run(s)))
    }
}

#[via_fn]
proof fn spec_rle_decreases(s: Seq<i8>) {
    if s.len() > 0 {
        lemma_run_raw_bounds(s);
    }
}

/// What decoding run-length pairs from `data` yields, starting at `idx` and
/// needing `need` more values: the values and the index just past the bytes
/// read. A truncated stream supplies zeros for whatever is missing, and a
/// run longer than what is needed is cut short — garbage decodes to
/// something, never to a fault.
pub open spec fn spec_rle_decode(data: Seq<u8>, idx: int, need: int) -> (Seq<i8>, int)
    decreases need, data.len() - idx,
{
    if need <= 0 {
        (Seq::empty(), idx)
    } else if idx + 2 > data.len() || idx < 0 {
        (Seq::new(need as nat, |t: int| 0i8), idx)
    } else {
        let value = data[idx] as i8;
        let run = data[idx + 1] as int;
        let take = if run > need {
            need
        } else {
            run
        };
        let rest = spec_rle_decode(data, idx + 2, need - take);
        (Seq::new(take as nat, |t: int| value) + rest.0, rest.1)
    }
}

/// Value at flat position `k` of a plane.
fn plane_get(p: &[[i8; 8]; 8], k: usize) -> (r: i8)
    requires
        k < 64,
    ensures
        r == plane_flat(*p)[k as int],
{
    p[k / 8][k % 8]
}

/// Run-length encode one plane in row order, appending value and run-length
/// byte pairs to `buf`. Runs of more than 255 equal values are split.
pub fn encode_quantized_block(block: &[[i8; 8]; 8], buf: &mut Vec<u8>)
    ensures
        final(buf)@ == old(buf)@ + spec_rle(plane_flat(*block)),
{
    let ghost flat = plane_flat(*block);
    let ghost mut done: Seq<u8> = Seq::empty();
    proof {
        assert(buf@ =~= old(buf)@ + done);
        assert(flat.skip(0) =~= flat);
        assert(done + spec_rle(flat.skip(0)) =~= spec_rle(flat));
    }
    let mut index: usize = 0;
    while index < 64
        invariant
            index <= 64,
            flat == plane_flat(*block),
            flat.len() == 64,
            buf@ == old(buf)@ + done,
            done + spec_rle(flat.skip(index as int)) == spec_rle(flat),
        decreases 64 - index,
    {
        let ghost start = index as int;
        let current: i8 = plane_get(block, index);
        let mut run: u8 = 1;
        index = index + 1;
        loop
            invariant
                0 <= start < index <= 64,
                run as int == index - start,
                run as int <= 255,
                current == flat[start],
                flat == plane_flat(*block),
                flat.len() == 64,
                forall|t: int| start <= t < index ==> #[trigger] flat[t] == current,
            ensures
                0 <= start < index <= 64,
                run as int == index - start,
                run as int <= 255,
                forall|t: int| start <= t < index ==> #[trigger] flat[t] == current,
                index == 64 || run == 255 || flat[index as int] != current,
            decreases 64 - index,
        {
            if index < 64 && run < 255 {
                if plane_get(block, index) == current {
                    run = run + 1;
                    index = index + 1;
                } else {
                    break ;
                }
            } else {
                break ;
            }
        }
        proof {
            let tail = flat.skip(start);
            assert(tail.len() == 64 - start >= 1);
            assert(forall|t: int| 0 <= t < run as int ==> #[trigger] tail[t] == flat[start + t]);
            assert(forall|t: int| 0 <= t < run as int ==> #[trigger] tail[t] == tail[0]);
            lemma_run_raw_at_least(tail, run as int);
            lemma_run_raw_bounds(tail);
            if index < 64 && run < 255 {
                assert(tail[index - start] == flat[index as int]);
                if spec_run_raw(tail) > run as int {
                    assert(tail[run as int] == tail[0]);
                }
            }
            assert(spec_run(tail) == run as int);
        }
        buf.push(current as u8);
        buf.push(run);
        proof {
            let tail = flat.skip(start);
            assert(tail.skip(run as int) =~= flat.skip(index as int));
            assert(spec_rle(tail) == seq![tail[0] as u8, spec_run(tail) as u8] + spec_rle(
                flat.skip(index as int),
            ));
            let emitted = seq![current as u8, run];
            assert(emitted =~= seq![tail[0] as u8, spec_run(tail) as u8]);
            done = done + emitted;
            assert(buf@ =~= old(buf)@ + done);
            assert(done + spec_rle(flat.skip(index as int)) =~= spec_rle(flat));
        }
    }
    proof {
        assert(flat.skip(64) =~= Seq::<i8>::empty());
        assert(spec_rle(flat.skip(64)) =~= Seq::<u8>::empty());
        assert(done =~= done + spec_rle(flat.skip(64)));
    }
}

/// Encode a macroblock: its six planes run-length coded in order.
pub fn encode_quantized_macroblock(quantized_macroblock: &QuantizedMacroblock, buf: &mut Vec<u8>)
    ensures
        final(buf)@ == old(buf)@ + spec_rle(plane_flat(quantized_macroblock.y0)) + spec_rle(
            plane_flat(quantized_macroblock.y1),
        ) + spec_rle(plane_flat(quantized_macroblock.y2)) + spec_rle(
            plane_flat(quantized_macroblock.y3),
        ) + spec_rle(plane_flat(quantized_macroblock.u)) + spec_rle(
            plane_flat(quantized_macroblock.v),
        ),
{
    encode_quantized_block(&quantized_macroblock.y0, buf);
    encode_quantized_block(&quantized_macroblock.y1, buf);
    encode_quantized_block(&quantized_macroblock.y2, buf);
    encode_quantized_block(&quantized_macroblock.y3, buf);
    encode_quantized_block(&quantized_macroblock.u, buf);
    encode_quantized_block(&quantized_macroblock.v, buf);
}

/// Decode one run-length coded plane from `data`, starting at `start`.
/// Returns the plane and the index just past the bytes read. Truncated or
/// oversized runs are tolerated as `spec_rle_decode` says.
pub fn decode_quantized_block(data: &[u8], start: usize) -> (r: ([[i8; 8]; 8], usize))
    requires
        start <= data@.len(),
    ensures
        plane_flat(r.0) == spec_rle_decode(data@, start as int, 64).0,
        r.1 as int == spec_rle_decode(data@, start as int, 64).1,
        start <= r.1 <= data@.len(),
{
    let ghost full = spec_rle_decode(data@, start as int, 64);
    proof {
        lemma_rle_decode_len(data@, start as int, 64);
        assert(Seq::<i8>::empty() + full.0 =~= full.0);
    }
    let mut vals: Vec<i8> = Vec::new();
    let mut idx: usize = start;
    while vals.len() < 64
        invariant
            start <= idx <= data@.len(),
            vals@.len() <= 64,
            spec_rle_decode(data@, idx as int, 64 - vals@.len()).0.len() == 64 - vals@.len(),
            full.0 == vals@ + spec_rle_decode(data@, idx as int, 64 - vals@.len()).0,
            full.1 == spec_rle_decode(data@, idx as int, 64 - vals@.len()).1,
        decreases 64 - vals@.len(), data@.len() - idx,
    {
        proof {
            lemma_rle_decode_len(data@, idx as int, 64 - vals@.len());
        }
        if idx >= data.len() || idx + 1 >= data.len() {
            while vals.len() < 64
                invariant
                    vals@.len() <= 64,
                    full.0 == vals@ + spec_rle_decode(data@, idx as int, 64 - vals@.len()).0,
                    full.1 == spec_rle_decode(data@, idx as int, 64 - vals@.len()).1,
                    idx as int + 2 > data@.len(),
                    idx <= data@.len(),
                decreases 64 - vals@.len(),
            {
                let ghost before = vals@;
                let ghost need = 64 - vals@.len();
                vals.push(0);
                proof {
                    let d_before = spec_rle_decode(data@, idx as int, need);
                    let d_after = spec_rle_decode(data@, idx as int, need - 1);
                    assert(d_before.0 =~= seq![0i8] + d_after.0);
                    assert(before + d_before.0 =~= vals@ + d_after.0);
                }
            }
        } else {
            let value: i8 = data[idx] as i8;
            let run: u8 = data[idx + 1];
            idx = idx + 2;
            let ghost need = 64 - vals@.len();
            let ghost take = if run as int > need {
                need
            } else {
                run as int
            };
            let ghost before = vals@;
            let mut t: u8 = 0;
            while (t as usize) < (run as usize) && vals.len() < 64
                invariant
                    (t as int) <= take,
                    vals@ == before + Seq::new(t as nat, |u: int| value),
                    take == if run as int > need {
                        need
                    } else {
                        run as int
                    },
                    need == 64 - before.len(),
                    before.len() + take <= 64,
                    (t as int) < take ==> vals@.len() < 64,
                decreases take - t,
            {
                vals.push(value);
                proof {
                    assert(vals@ =~= before + Seq::new((t + 1) as nat, |u: int| value));
                }
                t = t + 1;
            }
            proof {
                assert((t as int) == take);
                let d_step = spec_rle_decode(data@, idx as int - 2, need);
                let d_rest = spec_rle_decode(data@, idx as int, need - take);
                assert(d_step.0 == Seq::new(take as nat, |u: int| value) + d_rest.0);
                assert(before + d_step.0 =~= vals@ + d_rest.0);
            }
        }
    }
    proof {
        assert(spec_rle_decode(data@, idx as int, 0).0 =~= Seq::<i8>::empty());
        assert(vals@ + spec_rle_decode(data@, idx as int, 0).0 =~= vals@);
        assert(vals@ == full.0);
        lemma_rle_decode_len(data@, start as int, 64);
    }
    let mut plane: [[i8; 8]; 8] = [[0; 8]; 8];
    let mut i: usize = 0;
    while i < 8
        invariant
            i <= 8,
            vals@.len() == 64,
            forall|a: int, b: int|
                0 <= a < i && 0 <= b < 8 ==> #[trigger] plane@[a]@[b] == vals@[8 * a + b],
        decreases 8 - i,
    {
        let mut j: usize = 0;
        while j < 8
            invariant
                i < 8,
                j <= 8,
                vals@.len() == 64,
                forall|a: int, b: int|
                    0 <= a < i && 0 <= b < 8 ==> #[trigger] plane@[a]@[b] == vals@[8 * a + b],
                forall|b: int| 0 <= b < j ==> #[trigger] plane@[i as int]@[b] == vals@[8 * i + b],
            decreases 8 - j,
        {
            let ghost prev = plane;
            plane[i][j] = vals[8 * i + j];
            proof {
                assert(forall|a: int| 0 <= a < 8 && a != i ==> plane@[a] == prev@[a]);
                assert(forall|b: int|
                    0 <= b < 8 && b != j ==> plane@[i as int]@[b] == prev@[i as int]@[b]);
            }
            j = j + 1;
        }
        i = i + 1;
    }
    proof {
        assert forall|k: int| 0 <= k < 64 implies plane_flat(plane)[k] == full.0[k] by {
            assert(plane@[k / 8]@[k % 8] == vals@[8 * (k / 8) + k % 8]);
            vstd::arithmetic::div_mod::lemma_fundamental_div_mod(k, 8);
        }
        assert(plane_flat(plane) =~= full.0);
    }
    (plane, idx)
}

/// Run-length decoding inverts encoding: wherever an encoded sequence sits
/// inside a byte stream, decoding from its start yields exactly the values
/// that were encoded and consumes exactly the encoding's bytes, whatever
/// follows them.
pub proof fn lemma_rle_decode_inverts_encode(vals: Seq<i8>, data: Seq<u8>, idx: int)
    requires
        0 <= idx,
        idx + spec_rle(vals).len() <= data.len(),
        data.subrange(idx, idx + spec_rle(vals).len()) == spec_rle(vals),
    ensures
        spec_rle_decode(data, idx, vals.len() as int) == (vals, idx + spec_rle(vals).len()),
    decreases vals.len(),
{
    let enc = spec_rle(vals);
    if vals.len() == 0 {
        assert(spec_rle_decode(data, idx, 0) == (Seq::<i8>::empty(), idx));
        assert(vals =~= Seq::<i8>::empty());
    } else {
        lemma_run_raw_bounds(vals);
        let r = spec_run(vals);
        let tail_enc = spec_rle(vals.skip(r));
        assert(enc == seq![vals[0] as u8, r as u8] + tail_enc);
        assert(data[idx] == enc[0] && data[idx + 1] == enc[1]) by {
            assert(data.subrange(idx, idx + enc.len())[0] == data[idx]);
            assert(data.subrange(idx, idx + enc.len())[1] == data[idx + 1]);
        }
        assert(data[idx] == vals[0] as u8);
        let v0 = vals[0];
        assert(v0 as u8 as i8 == v0) by (bit_vector);
        assert(data[idx + 1] as int == r);
        let need = vals.len() as int;
        assert(idx + 2 + tail_enc.len() <= data.len());
        assert(data.subrange(idx + 2, idx + 2 + tail_enc.len()) =~= tail_enc) by {
            assert(forall|t: int|
                0 <= t < tail_enc.len() ==> #[trigger] data.subrange(
                    idx + 2,
                    idx + 2 + tail_enc.len(),
                )[t] == data.subrange(idx, idx + enc.len())[t + 2]);
        }
        lemma_rle_decode_inverts_encode(vals.skip(r), data, idx + 2);
        assert(spec_rle_decode(data, idx + 2, need - r) == (vals.skip(r), idx + 2
            + tail_enc.len()));
        assert(Seq::new(r as nat, |t: int| v0) =~= vals.take(r));
        assert(vals.take(r) + vals.skip(r) =~= vals);
        assert(spec_rle_decode(data, idx, need).0 == vals);
        assert(spec_rle_decode(data, idx, need).1 == idx + enc.len());
    }
}

/// A macroblock's encoding decodes back to its six planes, plane by plane,
/// and the decoder stops exactly where the encoding ends, whatever bytes
/// follow it.
pub proof fn lemma_macroblock_round_trip(q: QuantizedMacroblock, rest: Seq<u8>)
    ensures
        ({
            let e0 = spec_rle(plane_flat(q.y0));
            let e1 = spec_rle(plane_flat(q.y1));
            let e2 = spec_rle(plane_flat(q.y2));
            let e3 = spec_rle(plane_flat(q.y3));
            let e4 = spec_rle(plane_flat(q.u));
            let e5 = spec_rle(plane_flat(q.v));
            let data = e0 + e1 + e2 + e3 + e4 + e5 + rest;
            let d0 = spec_rle_decode(data, 0, 64);
            let d1 = spec_rle_decode(data, d0.1, 64);
            let d2 = spec_rle_decode(data, d1.1, 64);
            let d3 = spec_rle_decode(data, d2.1, 64);
            let d4 = spec_rle_decode(data, d3.1, 64);
            let d5 = spec_rle_decode(data, d4.1, 64);
            &&& d0.0 == plane_flat(q.y0)
            &&& d1.0 == plane_flat(q.y1)
            &&& d2.0 == plane_flat(q.y2)
            &&& d3.0 == plane_flat(q.y3)
            &&& d4.0 == plane_flat(q.u)
            &&& d5.0 == plane_flat(q.v)
            &&& data.skip(d5.1) == rest
        }),
{
    let e0 = spec_rle(plane_flat(q.y0));
    let e1 = spec_rle(plane_flat(q.y1));
    let e2 = spec_rle(plane_flat(q.y2));
    let e3 = spec_rle(plane_flat(q.y3));
    let e4 = spec_rle(plane_flat(q.u));
    let e5 = spec_rle(plane_flat(q.v));
    let data = e0 + e1 + e2 + e3 + e4 + e5 + rest;
    let o1 = e0.len() as int;
    let o2 = o1 + e1.len();
    let o3 = o2 + e2.len();
    let o4 = o3 + e3.len();
    let o5 = o4 + e4.len();
    let o6 = o5 + e5.len();
    assert(plane_flat(q.y0).len() == 64);
    assert(data.subrange(0, o1) =~= e0);
    lemma_rle_decode_inverts_encode(plane_flat(q.y0), data, 0);
    assert(data.subrange(o1, o2) =~= e1);
    lemma_rle_decode_inverts_encode(plane_flat(q.y1), data, o1);
    assert(data.subrange(o2, o3) =~= e2);
    lemma_rle_decode_inverts_encode(plane_flat(q.y2), data, o2);
    assert(data.subrange(o3, o4) =~= e3);
    lemma_rle_decode_inverts_encode(plane_flat(q.y3), data, o3);
    assert(data.subrange(o4, o5) =~= e4);
    lemma_rle_decode_inverts_encode(plane_flat(q.u), data, o4);
    assert(data.subrange(o5, o6) =~= e5);
    lemma_rle_decode_inverts_encode(plane_flat(q.v), data, o5);
    assert(data.skip(o6) =~= rest);
}

/// Decoding consumes bytes monotonically and yields exactly what is needed.
proof fn lemma_rle_decode_len(data: Seq<u8>, idx: int, need: int)
    requires
        0 <= idx <= data.len(),
        0 <= need,
    ensures
        spec_rle_decode(data, idx, need).0.len() == need,
        idx <= spec_rle_decode(data, idx, need).1 <= data.len(),
    decreases need, data.len() - idx,
{
    if need > 0 && idx + 2 <= data.len() {
        let run = data[idx + 1] as int;
        let take = if run > need {
            need
        } else {
            run
        };
        lemma_rle_decode_len(data, idx + 2, need - take);
    }
}

/// Decode a macroblock: six run-length coded planes in order, returning the
/// block and a copy of whatever bytes follow it.
pub fn decode_quantized_macroblock(data: &[u8]) -> (r: (QuantizedMacroblock, Vec<u8>))
    ensures
        ({
            let d0 = spec_rle_decode(data@, 0, 64);
            let d1 = spec_rle_decode(data@, d0.1, 64);
            let d2 = spec_rle_decode(data@, d1.1, 64);
            let d3 = spec_rle_decode(data@, d2.1, 64);
            let d4 = spec_rle_decode(data@, d3.1, 64);
            let d5 = spec_rle_decode(data@, d4.1, 64);
            &&& plane_flat(r.0.y0) == d0.0
            &&& plane_flat(r.0.y1) == d1.0
            &&& plane_flat(r.0.y2) == d2.0
            &&& plane_flat(r.0.y3) == d3.0
            &&& plane_flat(r.0.u) == d4.0
            &&& plane_flat(r.0.v) == d5.0
            &&& r.1@ == data@.skip(d5.1)
        }),
{
    let (y0, o0) = decode_quantized_block(data, 0);
    let (y1, o1) = decode_quantized_block(data, o0);
    let (y2, o2) = decode_quantized_block(data, o1);
    let (y3, o3) = decode_quantized_block(data, o2);
    let (u, o4) = decode_quantized_block(data, o3);
    let (v, o5) = decode_quantized_block(data, o4);
    let remaining: Vec<u8> = vstd::slice::slice_to_vec(
        vstd::slice::slice_subrange(data, o5, data.len()),
    );
    (QuantizedMacroblock { y0, y1, y2, y3, u, v }, remaining)
}

/// Big-endian bytes of a 16-bit block coordinate.
pub open spec fn spec_u16_be(v: u16) -> Seq<u8> {
    seq![(v >> 8) as u8, v as u8]
}

/// The 16-bit value two big-endian bytes carry.
pub open spec fn spec_u16_of(hi: u8, lo: u8) -> u16 {
    ((hi as u16) << 8) | (lo as u16)
}

/// One encoded macroblock on the wire: column, row, then its coding.
pub open spec fn spec_block_chunk(x: u16, y: u16, encoded: Seq<u8>) -> Seq<u8> {
    spec_u16_be(x) + spec_u16_be(y) + encoded
}

/// The big-endian byte decomposition of a block coordinate reassembles to
/// the same value.
pub proof fn lemma_u16_round_trip(v: u16)
    ensures
        spec_u16_of(spec_u16_be(v)[0], spec_u16_be(v)[1]) == v,
{
    assert(((((v >> 8) as u8) as u16) << 8) | ((v as u8) as u16) == v) by (bit_vector);
}

/// Packs encoded macroblocks into datagram payloads: blocks are appended
/// with their position until one would push the payload over the bound,
/// which hands the filled payload out and starts the next one.
pub struct MacroblockPacketizer {
    buf: Vec<u8>,
}

impl View for MacroblockPacketizer {
    type V = Seq<u8>;

    closed spec fn view(&self) -> Seq<u8> {
        self.buf@
    }
}

impl MacroblockPacketizer {
    /// An empty payload under construction.
    pub fn new() -> (r: Self)
        ensures
            r@.len() == 0,
    {
        MacroblockPacketizer { buf: Vec::new() }
    }

    /// Append one encoded macroblock with its position. Returns the finished
    /// payload when this block does not fit after what has accumulated; the
    /// block then opens the next payload.
    pub fn add_macroblock(&mut self, x: u16, y: u16, encoded: &Vec<u8>) -> (r: Option<Vec<u8>>)
        requires
            old(self)@.len() <= PACKET_PAYLOAD_SIZE_THRESHOLD,
            encoded@.len() + 4 <= PACKET_PAYLOAD_SIZE_THRESHOLD,
        ensures
            final(self)@.len() <= PACKET_PAYLOAD_SIZE_THRESHOLD,
            ({
                let chunk = spec_block_chunk(x, y, encoded@);
                match r {
                    None => old(self)@.len() + chunk.len() <= PACKET_PAYLOAD_SIZE_THRESHOLD
                        && final(self)@ == old(self)@ + chunk,
                    Some(payload) => old(self)@.len() + chunk.len()
                        > PACKET_PAYLOAD_SIZE_THRESHOLD && payload@ == old(self)@ && final(self)@
                        == chunk,
                }
            }),
    {
        let chunk_len: usize = encoded.len() + 4;
        let r: Option<Vec<u8>> = if self.buf.len() + chunk_len > PACKET_PAYLOAD_SIZE_THRESHOLD {
            let mut out: Vec<u8> = Vec::new();
            core::mem::swap(&mut self.buf, &mut out);
            Some(out)
        } else {
            None
        };
        let ghost mid = self.buf@;
        self.buf.push((x >> 8) as u8);
        self.buf.push(x as u8);
        self.buf.push((y >> 8) as u8);
        self.buf.push(y as u8);
        let mut k: usize = 0;
        while k < encoded.len()
            invariant
                k <= encoded@.len(),
                self.buf@ == mid + spec_u16_be(x) + spec_u16_be(y) + encoded@.take(k as int),
            decreases encoded@.len() - k,
        {
            self.buf.push(encoded[k]);
            proof {
                assert(encoded@.take(k + 1) =~= encoded@.take(k as int).push(encoded@[k as int]));
            }
            k = k + 1;
        }
        proof {
            assert(encoded@.take(encoded@.len() as int) =~= encoded@);
            assert(self.buf@ =~= mid + spec_block_chunk(x, y, encoded@));
            assert(mid + spec_block_chunk(x, y, encoded@) =~= mid + (spec_u16_be(x) + spec_u16_be(
                y,
            ) + encoded@));
        }
        r
    }

    /// Hand out whatever has accumulated, or nothing if the payload under
    /// construction is empty. The next payload starts empty.
    pub fn flush(&mut self) -> (r: Option<Vec<u8>>)
        ensures
            final(self)@.len() == 0,
            match r {
                None => old(self)@.len() == 0,
                Some(payload) => old(self)@.len() > 0 && payload@ == old(self)@,
            },
    {
        if self.buf.len() == 0 {
            return None;
        }
        let mut out: Vec<u8> = Vec::new();
        core::mem::swap(&mut self.buf, &mut out);
        Some(out)
    }
}

/// Read a block position from a payload: the two big-endian coordinates at
/// `start`, or `None` when fewer than four bytes remain.
pub fn read_block_position(data: &[u8], start: usize) -> (r: Option<(u16, u16)>)
    requires
        start <= data@.len(),
    ensures
        match r {
            None => start + 4 > data@.len(),
            Some((x, y)) => start + 4 <= data@.len() && x == spec_u16_of(
                data@[start as int],
                data@[start + 1],
            ) && y == spec_u16_of(data@[start + 2], data@[start + 3]),
        },
{
    if data.len() < 4 || start > data.len() - 4 {
        return None;
    }
    let x: u16 = ((data[start] as u16) << 8) | (data[start + 1] as u16);
    let y: u16 = ((data[start + 2] as u16) << 8) | (data[start + 3] as u16);
    Some((x, y))
}

} // verus!
