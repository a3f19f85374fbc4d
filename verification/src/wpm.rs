//! Typing metrics: a sliding window of recent keystrokes and the
//! words-per-minute figure computed from it, with a penalty for repeated
//! keys. Time is carried as plain milliseconds; the caller supplies the
//! clock.

use vstd::prelude::*;

verus! {

/// Keystrokes older than this many milliseconds fall out of the window.
pub const STROKE_WINDOW_MILLIS: u64 = 3000;

/// Number of points a typing chart keeps.
pub const CHART_DATA_LENGTH: usize = 1000;

/// A keystroke is stale once it is strictly older than the window.
pub open spec fn stale(stroke: (i32, u64), now: u64) -> bool {
    stroke.1 + STROKE_WINDOW_MILLIS < now
}

/// The window with its stale leading strokes removed.
pub open spec fn drop_stale(window: Seq<(i32, u64)>, now: u64) -> Seq<(i32, u64)>
    decreases window.len(),
{
    if window.len() == 0 {
        window
    } else if stale(window[0], now) {
        drop_stale(window.drop_first(), now)
    } else {
        window
    }
}

/// How many of the first `upto` strokes pressed `key`.
pub open spec fn count_key(window: Seq<(i32, u64)>, key: i32, upto: int) -> int
    decreases upto,
{
    if upto <= 0 {
        0
    } else {
        count_key(window, key, upto - 1) + if window[upto - 1].0 == key {
            1int
        } else {
            0int
        }
    }
}

/// Total repetition penalty units over the first `upto` strokes: each stroke
/// is charged one unit per earlier stroke of the same key.
pub open spec fn total_repeats(window: Seq<(i32, u64)>, upto: int) -> int
    decreases upto,
{
    if upto <= 0 {
        0
    } else {
        total_repeats(window, upto - 1) + count_key(window, window[upto - 1].0, upto - 1)
    }
}

/// The words-per-minute figure, in hundredths: one hundred per windowed
/// stroke, minus four per repetition unit.
pub open spec fn spec_wpm_hundredths(window: Seq<(i32, u64)>) -> int {
    100 * window.len() - 4 * total_repeats(window, window.len() as int)
}

/// A key count never exceeds the range it was counted over.
proof fn lemma_count_key_bounds(window: Seq<(i32, u64)>, key: i32, upto: int)
    requires
        0 <= upto,
    ensures
        0 <= count_key(window, key, upto) <= upto,
    decreases upto,
{
    if upto > 0 {
        lemma_count_key_bounds(window, key, upto - 1);
    }
}

/// Twice the repetition total stays within `upto * (upto - 1)`.
proof fn lemma_total_repeats_bounds(window: Seq<(i32, u64)>, upto: int)
    requires
        0 <= upto,
    ensures
        0 <= 2 * total_repeats(window, upto) <= upto * (upto - 1),
    decreases upto,
{
    if upto > 0 {
        lemma_total_repeats_bounds(window, upto - 1);
        lemma_count_key_bounds(window, window[upto - 1].0, upto - 1);
        assert((upto - 1) * (upto - 2) + 2 * (upto - 1) == upto * (upto - 1)) by (nonlinear_arith);
        assert(upto * (upto - 1) >= 0) by (nonlinear_arith)
            requires
                upto >= 1,
        ;
    }
}

/// The sliding window of keystrokes: key code and timestamp in
/// milliseconds, oldest first. Timestamps are expected to arrive in
/// nondecreasing order; the window itself never inspects the clock.
pub struct TypingMetrics {
    stroke_window: Vec<(i32, u64)>,
}

impl View for TypingMetrics {
    type V = Seq<(i32, u64)>;

    closed spec fn view(&self) -> Seq<(i32, u64)> {
        self.stroke_window@
    }
}

impl TypingMetrics {
    /// An empty window.
    pub fn new() -> (r: Self)
        ensures
            r@.len() == 0,
    {
        TypingMetrics { stroke_window: Vec::new() }
    }

    /// Record a keystroke with the caller's timestamp. Timestamps should be
    /// at least as recent as previously supplied ones; an out-of-order
    /// timestamp only delays the stroke's expiry.
    pub fn receive_char_stroke_with_timestamp(&mut self, c: i32, timestamp_millis: u64)
        ensures
            final(self)@ == old(self)@.push((c, timestamp_millis)),
    {
        self.stroke_window.push((c, timestamp_millis));
    }

    /// Drop the strokes at the front of the window that are older than the
    /// window span, measured against the caller's `now`.
    pub fn update_stroke_window(&mut self, now_millis: u64)
        ensures
            final(self)@ == drop_stale(old(self)@, now_millis),
    {
        while self.stroke_window.len() > 0 && self.stroke_window[0].1 < now_millis && now_millis
            - self.stroke_window[0].1 > STROKE_WINDOW_MILLIS
            invariant
                drop_stale(self@, now_millis) == drop_stale(old(self)@, now_millis),
            decreases self@.len(),
        {
            self.stroke_window.remove(0);
        }
        proof {
            if self@.len() > 0 {
                assert(!stale(self@[0], now_millis));
            }
            assert(drop_stale(self@, now_millis) == self@);
        }
    }

    /// The current words-per-minute figure in hundredths, over the strokes
    /// still inside the window at `now`: one hundred per stroke, minus four
    /// per repetition of an earlier key.
    pub fn calc_wpm_hundredths(&mut self, now_millis: u64) -> (r: i64)
        requires
            old(self)@.len() < 0x8000_0000,
        ensures
            final(self)@ == drop_stale(old(self)@, now_millis),
            r == spec_wpm_hundredths(final(self)@),
    {
        self.update_stroke_window(now_millis);
        proof {
            lemma_drop_stale_len(old(self)@, now_millis);
        }
        let n: usize = self.stroke_window.len();
        let mut acc: i64 = 0;
        let mut i: usize = 0;
        while i < n
            invariant
                i <= n,
                n == self@.len(),
                self@.len() < 0x8000_0000,
                acc == 100 * i - 4 * total_repeats(self@, i as int),
            decreases n - i,
        {
            proof {
                lemma_total_repeats_bounds(self@, i as int);
                lemma_total_repeats_bounds(self@, i + 1);
                lemma_count_key_bounds(self@, self@[i as int].0, i as int);
                assert((i + 1) * (i as int) <= 0x8000_0000 * 0x7FFF_FFFF) by (nonlinear_arith)
                    requires
                        0 <= i < 0x8000_0000,
                ;
                assert((i as int) * (i - 1) <= 0x8000_0000 * 0x7FFF_FFFF) by (nonlinear_arith)
                    requires
                        0 <= i < 0x8000_0000,
                ;
            }
            let key: i32 = self.stroke_window[i].0;
            let mut count: i64 = 0;
            let mut j: usize = 0;
            while j < i
                invariant
                    j <= i,
                    i < n,
                    n == self@.len(),
                    n < 0x8000_0000,
                    key == self@[i as int].0,
                    count == count_key(self@, key, j as int),
                    0 <= count <= j,
                decreases i - j,
            {
                if self.stroke_window[j].0 == key {
                    count = count + 1;
                }
                j = j + 1;
            }
            acc = acc + 100 - 4 * count;
            i = i + 1;
        }
        acc
    }
}

/// Dropping stale strokes never grows the window.
proof fn lemma_drop_stale_len(window: Seq<(i32, u64)>, now: u64)
    ensures
        drop_stale(window, now).len() <= window.len(),
    decreases window.len(),
{
    if window.len() > 0 && stale(window[0], now) {
        lemma_drop_stale_len(window.drop_first(), now);
    }
}

/// A typed character's place in a typing test.
#[derive(Clone, Copy, Debug, PartialEq, Eq)]
pub enum TypeResult {
    /// Not reached yet.
    NotTypedYet,
    /// Typed and matched the expected character.
    Correct,
    /// Typed and missed.
    Incorrect,
}

/// Pair every character of a test string with `NotTypedYet`.
pub fn from_string_to_type_result(s: String) -> (r: Vec<(char, TypeResult)>)
    ensures
        r@.len() == s@.len(),
        forall|i: int|
            0 <= i < s@.len() ==> (#[trigger] r@[i]).0 == s@[i] && r@[i].1
                == TypeResult::NotTypedYet,
{
    let text: &str = s.as_str();
    let n: usize = text.unicode_len();
    let mut r: Vec<(char, TypeResult)> = Vec::new();
    let mut i: usize = 0;
    while i < n
        invariant
            i <= n,
            n == text@.len(),
            text@ == s@,
            r@.len() == i,
            forall|t: int|
                0 <= t < i ==> (#[trigger] r@[t]).0 == s@[t] && r@[t].1 == TypeResult::NotTypedYet,
        decreases n - i,
    {
        let c: char = text.get_char(i);
        r.push((c, TypeResult::NotTypedYet));
        i = i + 1;
    }
    r
}

} // verus!
