//! Sender-side frame plumbing: a fixed-capacity delay buffer of whole video
//! frames, and a synthetic capture source for running without a camera.

use crate::{PIXEL_WIDTH, VIDEO_FRAME_DELAY, VIDEO_HEIGHT, VIDEO_WIDTH};
use vstd::prelude::*;

verus! {

/// Bytes of one packed YUYV frame.
pub const FRAME_SIZE: usize = VIDEO_WIDTH * VIDEO_HEIGHT * PIXEL_WIDTH;

/// Bytes of the whole delay buffer.
pub const FRAME_CIRCULAR_BUFFER_SIZE: usize = VIDEO_FRAME_DELAY * FRAME_SIZE;

/// A circular buffer of whole frames, holding at most
/// `VIDEO_FRAME_DELAY - 1` of them: frames pushed while full are dropped.
pub struct FrameCircularBuffer {
    buffer: Vec<u8>,
    start_frame_num: usize,
    end_frame_num: usize,
}

impl FrameCircularBuffer {
    /// Cursor bounds and the backing allocation's size.
    pub closed spec fn wf(&self) -> bool {
        &&& self.buffer@.len() == FRAME_CIRCULAR_BUFFER_SIZE
        &&& self.start_frame_num < VIDEO_FRAME_DELAY
        &&& self.end_frame_num < VIDEO_FRAME_DELAY
    }

    /// Number of queued frames.
    pub closed spec fn count(&self) -> int {
        if self.end_frame_num >= self.start_frame_num {
            self.end_frame_num - self.start_frame_num
        } else {
            self.end_frame_num + VIDEO_FRAME_DELAY - self.start_frame_num
        }
    }

    /// Slot index holding the `k`-th queued frame.
    closed spec fn slot(&self, k: int) -> int {
        if self.start_frame_num + k < VIDEO_FRAME_DELAY {
            self.start_frame_num + k
        } else {
            self.start_frame_num + k - VIDEO_FRAME_DELAY
        }
    }

    /// Bytes of the `k`-th queued frame, oldest first.
    pub closed spec fn frame(&self, k: int) -> Seq<u8> {
        self.buffer@.subrange(self.slot(k) * FRAME_SIZE, (self.slot(k) + 1) * FRAME_SIZE)
    }

    /// The queued frames, oldest first.
    pub open spec fn frames(&self) -> Seq<Seq<u8>> {
        Seq::new(self.count() as nat, |k: int| self.frame(k))
    }

    /// An empty buffer.
    pub fn new() -> (r: Self)
        ensures
            r.wf(),
            r.frames().len() == 0,
    {
        let mut buffer: Vec<u8> = Vec::new();
        let mut i: usize = 0;
        while i < FRAME_CIRCULAR_BUFFER_SIZE
            invariant
                buffer@.len() == i,
                i <= FRAME_CIRCULAR_BUFFER_SIZE,
            decreases FRAME_CIRCULAR_BUFFER_SIZE - i,
        {
            buffer.push(0);
            i = i + 1;
        }
        FrameCircularBuffer { buffer, start_frame_num: 0, end_frame_num: 0 }
    }

    /// Append a frame at the tail. A full buffer drops the frame and changes
    /// nothing.
    pub fn push_frame(&mut self, frame: &[u8])
        requires
            old(self).wf(),
            frame@.len() == FRAME_SIZE,
        ensures
            final(self).wf(),
            old(self).count() == VIDEO_FRAME_DELAY - 1 ==> final(self).frames() == old(self).frames(),
            old(self).count() < VIDEO_FRAME_DELAY - 1 ==> final(self).frames() == old(self).frames().push(frame@),
    {
        if self.start_frame_num == (self.end_frame_num + 1) % VIDEO_FRAME_DELAY {
            proof {
                assert(old(self).count() == VIDEO_FRAME_DELAY - 1);
                assert(self.frames() =~= old(self).frames());
            }
            return ;
        }
        proof {
            assert(old(self).count() < VIDEO_FRAME_DELAY - 1);
        }
        proof {
            lemma_slot_range(self.end_frame_num as int);
        }
        let base: usize = self.end_frame_num * FRAME_SIZE;
        let mut i: usize = 0;
        while i < FRAME_SIZE
            invariant
                i <= FRAME_SIZE,
                frame@.len() == FRAME_SIZE,
                base == old(self).end_frame_num * FRAME_SIZE,
                base + FRAME_SIZE <= self.buffer@.len(),
                self.buffer@.len() == FRAME_CIRCULAR_BUFFER_SIZE,
                self.start_frame_num == old(self).start_frame_num,
                self.end_frame_num == old(self).end_frame_num,
                forall|t: int|
                    0 <= t < i ==> self.buffer@[base + t] == frame@[t],
                forall|t: int|
                    0 <= t < self.buffer@.len() && !(base <= t < base + i)
                        ==> self.buffer@[t] == old(self).buffer@[t],
            decreases FRAME_SIZE - i,
        {
            self.buffer[base + i] = frame[i];
            i = i + 1;
        }
        self.end_frame_num = (self.end_frame_num + 1) % VIDEO_FRAME_DELAY;
        proof {
            let prev = old(self);
            assert(self.end_frame_num == if prev.end_frame_num + 1 < VIDEO_FRAME_DELAY {
                prev.end_frame_num + 1
            } else {
                0int
            });
            assert(self.count() == prev.count() + 1);
            assert forall|k: int| 0 <= k < prev.count() implies self.frame(k) == prev.frame(k) by {
                assert(self.slot(k) == prev.slot(k));
                lemma_slot_range(self.slot(k));
                lemma_distinct_slot_ranges(self.slot(k), prev.end_frame_num as int);
                assert(self.frame(k) =~= prev.frame(k));
            }
            lemma_slot_range(prev.end_frame_num as int);
            assert(self.slot(prev.count()) == prev.end_frame_num);
            assert(self.frame(prev.count()) =~= frame@);
            assert(self.frames() =~= prev.frames().push(frame@));
        }
    }

    /// Remove and return the oldest queued frame, or `None` when the buffer
    /// is empty.
    pub fn pop_frame(&mut self) -> (r: Option<Vec<u8>>)
        requires
            old(self).wf(),
        ensures
            final(self).wf(),
            match r {
                None => old(self).count() == 0 && final(self).frames() == old(self).frames(),
                Some(frame) => old(self).count() > 0 && frame@ == old(self).frames()[0] && final(self).frames() == old(self).frames().skip(1),
            },
    {
        if self.start_frame_num == self.end_frame_num {
            proof {
                assert(self.frames() =~= old(self).frames());
            }
            return None;
        }
        proof {
            lemma_slot_range(self.start_frame_num as int);
        }
        let base: usize = self.start_frame_num * FRAME_SIZE;
        let mut out: Vec<u8> = Vec::new();
        let mut i: usize = 0;
        while i < FRAME_SIZE
            invariant
                i <= FRAME_SIZE,
                out@.len() == i,
                base == old(self).start_frame_num * FRAME_SIZE,
                base + FRAME_SIZE <= self.buffer@.len(),
                self.buffer@.len() == FRAME_CIRCULAR_BUFFER_SIZE,
                self == old(self),
                forall|t: int| 0 <= t < i ==> out@[t] == self.buffer@[base + t],
            decreases FRAME_SIZE - i,
        {
            out.push(self.buffer[base + i]);
            i = i + 1;
        }
        self.start_frame_num = (self.start_frame_num + 1) % VIDEO_FRAME_DELAY;
        proof {
            let prev = old(self);
            assert(self.start_frame_num == if prev.start_frame_num + 1 < VIDEO_FRAME_DELAY {
                prev.start_frame_num + 1
            } else {
                0int
            });
            assert(self.count() == prev.count() - 1);
            lemma_slot_range(prev.start_frame_num as int);
            assert(out@ =~= prev.frame(0));
            assert forall|k: int| 0 <= k < self.count() implies self.frame(k) == prev.frame(k + 1)
                by {
                assert(self.slot(k) == prev.slot(k + 1));
                lemma_slot_range(self.slot(k));
            }
            assert(self.frames() =~= prev.frames().skip(1));
        }
        Some(out)
    }
}

/// A slot's byte range lies inside the buffer.
proof fn lemma_slot_range(sl: int)
    requires
        0 <= sl < VIDEO_FRAME_DELAY,
    ensures
        0 <= sl * FRAME_SIZE,
        (sl + 1) * FRAME_SIZE <= FRAME_CIRCULAR_BUFFER_SIZE,
        sl * FRAME_SIZE + FRAME_SIZE == (sl + 1) * FRAME_SIZE,
{
    assert(0 <= sl * FRAME_SIZE && (sl + 1) * FRAME_SIZE <= VIDEO_FRAME_DELAY * FRAME_SIZE && sl
        * FRAME_SIZE + FRAME_SIZE == (sl + 1) * FRAME_SIZE) by (nonlinear_arith)
        requires
            0 <= sl < VIDEO_FRAME_DELAY,
            FRAME_SIZE >= 0,
    ;
}

/// Two different slots cover disjoint byte ranges; in particular a write to
/// one slot's range leaves the other's bytes alone. Stated as the index
/// bound that separates them.
proof fn lemma_distinct_slot_ranges(a: int, b: int)
    requires
        0 <= a < VIDEO_FRAME_DELAY,
        0 <= b < VIDEO_FRAME_DELAY,
        a != b,
    ensures
        (a + 1) * FRAME_SIZE <= b * FRAME_SIZE || (b + 1) * FRAME_SIZE <= a * FRAME_SIZE,
{
    if a < b {
        assert((a + 1) * FRAME_SIZE <= b * FRAME_SIZE) by (nonlinear_arith)
            requires
                a + 1 <= b,
                FRAME_SIZE >= 0,
        ;
    } else {
        assert((b + 1) * FRAME_SIZE <= a * FRAME_SIZE) by (nonlinear_arith)
            requires
                b + 1 <= a,
                FRAME_SIZE >= 0,
        ;
    }
}

/// Pixels earlier in scan order sit strictly below later byte positions.
proof fn lemma_pixel_order(px: int, py: int, x: int, y: int)
    requires
        0 <= px < VIDEO_WIDTH,
        0 <= py,
        0 <= x,
        py < y || (py == y && px < x),
    ensures
        0 <= (py * VIDEO_WIDTH + px) * 2 + 1 < (y * VIDEO_WIDTH + x) * 2,
{
    assert(py * VIDEO_WIDTH + px < y * VIDEO_WIDTH + x) by (nonlinear_arith)
        requires
            0 <= px < VIDEO_WIDTH,
            0 <= py,
            py < y || (py == y && px < x),
            0 <= x,
    ;
    assert(0 <= py * VIDEO_WIDTH + px) by (nonlinear_arith)
        requires
            0 <= px,
            0 <= py,
            VIDEO_WIDTH >= 0,
    ;
}

/// A stand-in camera: deterministic frames derived from a frame counter, so
/// the pipeline can run and be tested without capture hardware.
pub struct DummyWebcam {
    frame_count: u32,
}

impl DummyWebcam {
    /// The number of frames captured so far.
    pub closed spec fn spec_frame_count(&self) -> u32 {
        self.frame_count
    }

    /// A fresh source; the dimensions are fixed by the crate's frame
    /// constants, and the arguments echo them.
    pub fn new(height: usize, width: usize) -> (r: Self)
        ensures
            r.spec_frame_count() == 0,
    {
        DummyWebcam { frame_count: 0 }
    }

    /// Luminance byte of the synthetic pattern at column `x` for frame
    /// number `count`.
    pub open spec fn pattern_first(x: int, count: int) -> u8 {
        ((x + count) % 255) as u8
    }

    /// First byte of pixel `(x, y)` in a packed frame.
    pub open spec fn first_byte(s: Seq<u8>, x: int, y: int) -> u8 {
        s[(y * VIDEO_WIDTH + x) * 2]
    }

    /// Second byte of pixel `(x, y)` in a packed frame.
    pub open spec fn second_byte(s: Seq<u8>, x: int, y: int) -> u8 {
        s[(y * VIDEO_WIDTH + x) * 2 + 1]
    }

    /// Second byte of the synthetic pattern at row `y` for frame `count`.
    pub open spec fn pattern_second(y: int, count: int) -> u8 {
        ((y + 2 * count) % 255) as u8
    }

    /// Produce the next synthetic frame: for each pixel, the first byte
    /// follows the column and the frame number, the second the row.
    pub fn capture(&mut self) -> (r: Vec<u8>)
        requires
            old(self).spec_frame_count() < 0xFFFF_FFFFu32,
        ensures
            final(self).spec_frame_count() == old(self).spec_frame_count() + 1,
            r@.len() == VIDEO_WIDTH * VIDEO_HEIGHT * PIXEL_WIDTH,
            forall|x: int, y: int|
                0 <= x < VIDEO_WIDTH && 0 <= y < VIDEO_HEIGHT ==> #[trigger] Self::first_byte(
                    r@,
                    x,
                    y,
                ) == Self::pattern_first(x, final(self).spec_frame_count() as int),
            forall|x: int, y: int|
                0 <= x < VIDEO_WIDTH && 0 <= y < VIDEO_HEIGHT ==> #[trigger] Self::second_byte(
                    r@,
                    x,
                    y,
                ) == Self::pattern_second(y, final(self).spec_frame_count() as int),
    {
        self.frame_count = self.frame_count + 1;
        let fc: u64 = self.frame_count as u64;
        let mut r: Vec<u8> = Vec::new();
        let mut y: usize = 0;
        while y < VIDEO_HEIGHT
            invariant
                y <= VIDEO_HEIGHT,
                fc == self.frame_count,
                r@.len() == y * VIDEO_WIDTH * 2,
                forall|px: int, py: int|
                    0 <= px < VIDEO_WIDTH && 0 <= py < y ==> #[trigger] Self::first_byte(
                        r@,
                        px,
                        py,
                    ) == Self::pattern_first(px, fc as int),
                forall|px: int, py: int|
                    0 <= px < VIDEO_WIDTH && 0 <= py < y ==> #[trigger] Self::second_byte(
                        r@,
                        px,
                        py,
                    ) == Self::pattern_second(py, fc as int),
            decreases VIDEO_HEIGHT - y,
        {
            let mut x: usize = 0;
            while x < VIDEO_WIDTH
                invariant
                    y < VIDEO_HEIGHT,
                    x <= VIDEO_WIDTH,
                    fc == self.frame_count,
                    r@.len() == y * VIDEO_WIDTH * 2 + x * 2,
                    forall|px: int, py: int|
                        0 <= px < VIDEO_WIDTH && 0 <= py < y ==> #[trigger] Self::first_byte(
                            r@,
                            px,
                            py,
                        ) == Self::pattern_first(px, fc as int),
                    forall|px: int, py: int|
                        0 <= px < VIDEO_WIDTH && 0 <= py < y ==> #[trigger] Self::second_byte(
                            r@,
                            px,
                            py,
                        ) == Self::pattern_second(py, fc as int),
                    forall|px: int|
                        0 <= px < x ==> #[trigger] Self::first_byte(r@, px, y as int)
                            == Self::pattern_first(px, fc as int),
                    forall|px: int|
                        0 <= px < x ==> #[trigger] Self::second_byte(r@, px, y as int)
                            == Self::pattern_second(y as int, fc as int),
                decreases VIDEO_WIDTH - x,
            {
                let ghost held = r@;
                r.push((((x as u64) + fc) % 255) as u8);
                r.push((((y as u64) + 2 * fc) % 255) as u8);
                proof {
                    assert(held.len() == (y * VIDEO_WIDTH + x) * 2) by (nonlinear_arith)
                        requires
                            held.len() == y * VIDEO_WIDTH * 2 + x * 2,
                    ;
                    assert(Self::first_byte(r@, x as int, y as int) == Self::pattern_first(
                        x as int,
                        fc as int,
                    ));
                    assert(Self::second_byte(r@, x as int, y as int) == Self::pattern_second(
                        y as int,
                        fc as int,
                    ));
                    assert forall|px: int, py: int|
                        0 <= px < VIDEO_WIDTH && 0 <= py && (py < y || (py == y && px
                            < x)) implies #[trigger] Self::first_byte(r@, px, py)
                        == Self::first_byte(held, px, py) by {
                        lemma_pixel_order(px, py, x as int, y as int);
                    }
                    assert forall|px: int, py: int|
                        0 <= px < VIDEO_WIDTH && 0 <= py && (py < y || (py == y && px
                            < x)) implies #[trigger] Self::second_byte(r@, px, py)
                        == Self::second_byte(held, px, py) by {
                        lemma_pixel_order(px, py, x as int, y as int);
                    }
                    assert(r@.len() == y * VIDEO_WIDTH * 2 + (x + 1) * 2);
                }
                x = x + 1;
            }
            y = y + 1;
        }
        r
    }
}

} // verus!
