//! Playback strategies and the per-tick state machine that decides which slice
//! of the event log is forwarded.
use crate::frame_counting::FrameCount;
use crate::timestamped_input::TimestampedInputs;
use vstd::prelude::*;

verus! {

/// Which recorded inputs are replayed on each tick.
#[derive(Clone, Copy, Debug, PartialEq, Eq, Structural)]
pub enum PlaybackStrategy {
    /// Replays every record not yet replayed whose frame is at most the current frame.
    FrameCount,
    /// Replays nothing.
    Paused,
    /// Replays the records with `start <= frame < end`, one recorded frame per
    /// tick, then turns into `Paused`.
    FrameRangeOnce(FrameCount, FrameCount),
    /// Replays the records with `start <= frame < end`, one recorded frame per
    /// tick, then rewinds the cursor to the first record with `frame >= start`
    /// and replays the window again, forever.
    FrameRangeLoop(FrameCount, FrameCount),
}

impl PlaybackStrategy {
    /// A range strategy's window is not empty: `start < end`.
    pub open spec fn valid(self) -> bool {
        match self {
            PlaybackStrategy::FrameRangeOnce(a, b) => a.0 < b.0,
            PlaybackStrategy::FrameRangeLoop(a, b) => a.0 < b.0,
            _ => true,
        }
    }

    /// Whether a range strategy's window is not empty.
    pub fn is_valid(&self) -> (r: bool)
        ensures
            r == self.valid(),
    {
        match *self {
            PlaybackStrategy::FrameRangeOnce(a, b) => a.0 < b.0,
            PlaybackStrategy::FrameRangeLoop(a, b) => a.0 < b.0,
            _ => true,
        }
    }
}

impl Default for PlaybackStrategy {
    fn default() -> (r: Self)
        ensures
            r == PlaybackStrategy::FrameCount,
    {
        PlaybackStrategy::FrameCount
    }
}

/// How far a range strategy has come through its window.
#[derive(Clone, Copy, Debug, PartialEq, Eq, Structural)]
pub struct PlaybackProgress {
    /// The recorded frame that the next range tick replays, or `None` when a
    /// range replay starts afresh at its window's start.
    pub range_frame: Option<FrameCount>,
}

impl PlaybackProgress {
    /// No range replay under way.
    pub open spec fn fresh() -> PlaybackProgress {
        PlaybackProgress { range_frame: None }
    }

    /// No range replay under way.
    pub fn new() -> (r: Self)
        ensures
            r == PlaybackProgress::fresh(),
    {
        PlaybackProgress { range_frame: None }
    }
}

impl Default for PlaybackProgress {
    fn default() -> (r: Self)
        ensures
            r == PlaybackProgress::fresh(),
    {
        PlaybackProgress::new()
    }
}

/// What one tick does: the half-open slice `[start, end)` of log indices that it
/// forwards, and the cursor, strategy and progress that it leaves behind.
pub struct TickOutcome {
    /// The first index forwarded.
    pub start: int,
    /// One past the last index forwarded.
    pub end: int,
    /// The cursor after the tick.
    pub cursor: int,
    /// The strategy after the tick.
    pub strategy: PlaybackStrategy,
    /// The range progress after the tick.
    pub progress: PlaybackProgress,
}

/// The first index at or after `i` whose frame is at least `lo` (the log's
/// length if there is none); records before it are passed over.
pub open spec fn skip_before(fs: Seq<u64>, i: int, lo: u64) -> int
    decreases fs.len() - i,
{
    if 0 <= i < fs.len() && fs[i] < lo {
        skip_before(fs, i + 1, lo)
    } else {
        i
    }
}

/// The end of the run of records from `i` on whose frames lie in `[lo, hi]`.
pub open spec fn run_end(fs: Seq<u64>, i: int, lo: u64, hi: u64) -> int
    decreases fs.len() - i,
{
    if 0 <= i < fs.len() && lo <= fs[i] <= hi {
        run_end(fs, i + 1, lo, hi)
    } else {
        i
    }
}

/// The recorded frame that a range strategy starting at `start` replays next.
pub open spec fn range_frame(progress: PlaybackProgress, start: FrameCount) -> u64 {
    match progress.range_frame {
        Some(f) => if f.0 >= start.0 {
            f.0
        } else {
            start.0
        },
        None => start.0,
    }
}

/// The last recorded frame that this tick of a range strategy over
/// `[start, end)` may replay: the next frame of its pace, held inside the window.
pub open spec fn range_limit(progress: PlaybackProgress, start: FrameCount, end: FrameCount) -> u64 {
    let f = range_frame(progress, start);
    if f < end.0 {
        f
    } else {
        (end.0 - 1) as u64
    }
}

/// Whether a range tick that forwarded `[lo, hi)` has run out of its window:
/// the next record lies at or past `end`, or the log ended right after records
/// that this tick forwarded.
pub open spec fn range_exhausted(fs: Seq<u64>, lo: int, hi: int, end: FrameCount) -> bool {
    ||| 0 <= hi < fs.len() && fs[hi] >= end.0
    ||| hi == fs.len() && lo < hi
}

/// One tick of a range strategy over `[start, end)`; `once` tells
/// `FrameRangeOnce` from `FrameRangeLoop`.
///
/// Records below `start` are passed over; then the records up to the pace's
/// frame are forwarded. When that runs out the window, `FrameRangeOnce`
/// turns into `Paused` and `FrameRangeLoop` rewinds the cursor to the first
/// record at or above `start`, on that same tick; either way the pace starts
/// afresh.
pub open spec fn range_tick(
    fs: Seq<u64>,
    cursor: int,
    strategy: PlaybackStrategy,
    progress: PlaybackProgress,
    start: FrameCount,
    end: FrameCount,
    once: bool,
) -> TickOutcome {
    let f = range_limit(progress, start, end);
    let lo = skip_before(fs, cursor, start.0);
    let hi = run_end(fs, lo, start.0, f);
    if range_exhausted(fs, lo, hi, end) {
        if once {
            TickOutcome {
                start: lo,
                end: hi,
                cursor: hi,
                strategy: PlaybackStrategy::Paused,
                progress: PlaybackProgress::fresh(),
            }
        } else {
            TickOutcome {
                start: lo,
                end: hi,
                cursor: skip_before(fs, 0, start.0),
                strategy,
                progress: PlaybackProgress::fresh(),
            }
        }
    } else {
        TickOutcome {
            start: lo,
            end: hi,
            cursor: hi,
            strategy,
            progress: PlaybackProgress { range_frame: Some(FrameCount((f + 1) as u64)) },
        }
    }
}

/// One tick of playback over a log with frame stamps `fs`, on the tick numbered `now`.
pub open spec fn tick(
    fs: Seq<u64>,
    cursor: int,
    strategy: PlaybackStrategy,
    progress: PlaybackProgress,
    now: u64,
) -> TickOutcome {
    match strategy {
        PlaybackStrategy::Paused => TickOutcome { start: cursor, end: cursor, cursor, strategy, progress },
        PlaybackStrategy::FrameCount => {
            let e = run_end(fs, cursor, 0, now);
            TickOutcome { start: cursor, end: e, cursor: e, strategy, progress }
        },
        PlaybackStrategy::FrameRangeOnce(a, b) => range_tick(fs, cursor, strategy, progress, a, b, true),
        PlaybackStrategy::FrameRangeLoop(a, b) => range_tick(fs, cursor, strategy, progress, a, b, false),
    }
}

/// The outcomes of successive ticks numbered `nows[0]`, `nows[1]`, ..., each
/// starting from what the one before left behind.
pub open spec fn ticks(
    fs: Seq<u64>,
    cursor: int,
    strategy: PlaybackStrategy,
    progress: PlaybackProgress,
    nows: Seq<u64>,
) -> Seq<TickOutcome>
    decreases nows.len(),
{
    if nows.len() == 0 {
        Seq::empty()
    } else {
        let t = tick(fs, cursor, strategy, progress, nows[0]);
        seq![t] + ticks(fs, t.cursor, t.strategy, t.progress, nows.drop_first())
    }
}

impl<E> TimestampedInputs<E> {
    /// The first index at or after `i` whose frame is at least `lo`.
    fn skip_before_from(&self, i: usize, lo: u64) -> (r: usize)
        ensures
            r == skip_before(self.frames(), i as int, lo),
    {
        let mut j = i;
        while j < self.events.len() && self.events[j].frame.0 < lo
            invariant
                i <= j,
                skip_before(self.frames(), j as int, lo) == skip_before(self.frames(), i as int, lo),
            decreases self.events@.len() - j,
        {
            assert(self.frames()[j as int] == self.events@[j as int].frame.0);
            j = j + 1;
        }
        if j < self.events.len() {
            assert(self.frames()[j as int] == self.events@[j as int].frame.0);
        }
        j
    }

    /// The end of the run of records from `i` on whose frames lie in `[lo, hi]`.
    fn run_end_from(&self, i: usize, lo: u64, hi: u64) -> (r: usize)
        ensures
            r == run_end(self.frames(), i as int, lo, hi),
    {
        let mut j = i;
        while j < self.events.len() && lo <= self.events[j].frame.0 && self.events[j].frame.0 <= hi
            invariant
                i <= j,
                run_end(self.frames(), j as int, lo, hi) == run_end(self.frames(), i as int, lo, hi),
            decreases self.events@.len() - j,
        {
            assert(self.frames()[j as int] == self.events@[j as int].frame.0);
            j = j + 1;
        }
        if j < self.events.len() {
            assert(self.frames()[j as int] == self.events@[j as int].frame.0);
        }
        j
    }

    /// Runs one tick of playback on the tick numbered `frame`.
    ///
    /// Returns the half-open slice `[start, end)` of log indices whose inputs are
    /// to be forwarded, in that order. Moves the cursor past them, or rewinds it
    /// when a looping window is exhausted, and updates the strategy and the
    /// range progress as [`tick`] describes. The records are left as they are.
    /// A range strategy must have `start < end`.
    pub fn playback(
        &mut self,
        strategy: &mut PlaybackStrategy,
        progress: &mut PlaybackProgress,
        frame: FrameCount,
    ) -> (r: (usize, usize))
        requires
            old(strategy).valid(),
        ensures
            final(strategy).valid(),
            ({
                let t = tick(old(self).frames(), old(self).cursor as int, *old(strategy), *old(progress), frame.0);
                &&& r.0 == t.start
                &&& r.1 == t.end
                &&& final(self).cursor == t.cursor
                &&& *final(strategy) == t.strategy
                &&& *final(progress) == t.progress
            }),
            final(self).events@ == old(self).events@,
            old(self).wf() ==> r.0 <= r.1 <= old(self).events@.len() && final(self).wf(),
    {
        match *strategy {
            PlaybackStrategy::Paused => (self.cursor, self.cursor),
            PlaybackStrategy::FrameCount => {
                let start = self.cursor;
                let end = self.run_end_from(start, 0, frame.0);
                proof {
                    if start <= self.events@.len() {
                        lemma_run_end_bounds(self.frames(), start as int, 0, frame.0);
                    }
                }
                self.cursor = end;
                (start, end)
            },
            PlaybackStrategy::FrameRangeOnce(a, b) => self.range_playback(strategy, progress, a, b, true),
            PlaybackStrategy::FrameRangeLoop(a, b) => self.range_playback(strategy, progress, a, b, false),
        }
    }

    /// One tick of a range strategy over `[a, b)`.
    fn range_playback(
        &mut self,
        strategy: &mut PlaybackStrategy,
        progress: &mut PlaybackProgress,
        a: FrameCount,
        b: FrameCount,
        once: bool,
    ) -> (r: (usize, usize))
        requires
            a.0 < b.0,
        ensures
            ({
                let t = range_tick(old(self).frames(), old(self).cursor as int, *old(strategy), *old(progress), a, b, once);
                &&& r.0 == t.start
                &&& r.1 == t.end
                &&& final(self).cursor == t.cursor
                &&& *final(strategy) == t.strategy
                &&& *final(progress) == t.progress
            }),
            final(self).events@ == old(self).events@,
            old(self).wf() ==> r.0 <= r.1 <= old(self).events@.len() && final(self).wf(),
    {
        proof {
            lemma_skip_before_bounds(self.frames(), 0, a.0);
        }
        let f0 = match progress.range_frame {
            Some(p) => if p.0 >= a.0 {
                p.0
            } else {
                a.0
            },
            None => a.0,
        };
        let f = if f0 < b.0 {
            f0
        } else {
            b.0 - 1
        };
        let lo = self.skip_before_from(self.cursor, a.0);
        let hi = self.run_end_from(lo, a.0, f);
        proof {
            if self.wf() {
                lemma_skip_before_bounds(self.frames(), self.cursor as int, a.0);
                lemma_run_end_bounds(self.frames(), lo as int, a.0, f);
            }
        }
        let n = self.events.len();
        let exhausted = if hi < n {
            assert(self.frames()[hi as int] == self.events@[hi as int].frame.0);
            self.events[hi].frame.0 >= b.0
        } else {
            hi == n && lo < hi
        };
        if exhausted {
            progress.range_frame = None;
            if once {
                *strategy = PlaybackStrategy::Paused;
                self.cursor = hi;
            } else {
                self.cursor = self.skip_before_from(0, a.0);
            }
        } else {
            self.cursor = hi;
            progress.range_frame = Some(FrameCount(f + 1));
        }
        (lo, hi)
    }
}

/// Frames never decrease along the log, as they do when records are appended
/// tick by tick.
pub open spec fn sorted(fs: Seq<u64>) -> bool {
    forall|i: int, j: int| 0 <= i <= j < fs.len() ==> fs[i] <= fs[j]
}

/// `skip_before` passes over records below `lo` only, and stops at the end of
/// the log or at a record at or above `lo`.
pub proof fn lemma_skip_before_bounds(fs: Seq<u64>, i: int, lo: u64)
    requires
        0 <= i <= fs.len(),
    ensures
        i <= skip_before(fs, i, lo) <= fs.len(),
        forall|k: int| i <= k < skip_before(fs, i, lo) ==> fs[k] < lo,
        skip_before(fs, i, lo) < fs.len() ==> fs[skip_before(fs, i, lo)] >= lo,
    decreases fs.len() - i,
{
    if i < fs.len() && fs[i] < lo {
        lemma_skip_before_bounds(fs, i + 1, lo);
    }
}

/// `run_end` takes in records with frames in `[lo, hi]` only, and stops at the
/// end of the log or at a record outside that range.
pub proof fn lemma_run_end_bounds(fs: Seq<u64>, i: int, lo: u64, hi: u64)
    requires
        0 <= i <= fs.len(),
    ensures
        i <= run_end(fs, i, lo, hi) <= fs.len(),
        forall|k: int| i <= k < run_end(fs, i, lo, hi) ==> lo <= #[trigger] fs[k] <= hi,
        run_end(fs, i, lo, hi) < fs.len() ==> !(lo <= fs[run_end(fs, i, lo, hi)] <= hi),
    decreases fs.len() - i,
{
    if i < fs.len() && lo <= fs[i] <= hi {
        lemma_run_end_bounds(fs, i + 1, lo, hi);
    }
}

/// Skipping to a lower bound after skipping to a higher one changes nothing.
proof fn lemma_skip_before_settled(fs: Seq<u64>, i: int, x: u64, y: u64)
    requires
        0 <= i,
        x <= y,
    ensures
        skip_before(fs, skip_before(fs, i, y), x) == skip_before(fs, i, y),
{
    if i <= fs.len() {
        lemma_skip_before_bounds(fs, i, y);
    }
}

/// Skipping to `x` and then to `y >= x` is skipping to `y`.
proof fn lemma_skip_before_chain(fs: Seq<u64>, i: int, x: u64, y: u64)
    requires
        0 <= i,
        x <= y,
    ensures
        skip_before(fs, skip_before(fs, i, x), y) == skip_before(fs, i, y),
    decreases fs.len() - i,
{
    if i < fs.len() && fs[i] < x {
        lemma_skip_before_chain(fs, i + 1, x, y);
    }
}

/// Records below `x` between `i` and `c` are skipped over on the way to `c`.
proof fn lemma_skip_before_through(fs: Seq<u64>, i: int, c: int, x: u64)
    requires
        0 <= i <= c <= fs.len(),
        forall|k: int| i <= k < c ==> fs[k] < x,
    ensures
        skip_before(fs, i, x) == skip_before(fs, c, x),
    decreases c - i,
{
    if i < c {
        lemma_skip_before_through(fs, i + 1, c, x);
    }
}

/// On a sorted log, from a record at or above `lo`, the run of frames in
/// `[lo, hi]` ends at the first record above `hi`.
proof fn lemma_run_end_sorted(fs: Seq<u64>, i: int, lo: u64, hi: u64)
    requires
        sorted(fs),
        0 <= i <= fs.len(),
        i < fs.len() ==> fs[i] >= lo,
        hi < u64::MAX,
    ensures
        run_end(fs, i, lo, hi) == skip_before(fs, i, (hi + 1) as u64),
    decreases fs.len() - i,
{
    if i < fs.len() && fs[i] <= hi {
        lemma_run_end_sorted(fs, i + 1, lo, hi);
    }
}

/// There is one outcome per tick.
pub proof fn lemma_ticks_len(
    fs: Seq<u64>,
    cursor: int,
    strategy: PlaybackStrategy,
    progress: PlaybackProgress,
    nows: Seq<u64>,
)
    ensures
        ticks(fs, cursor, strategy, progress, nows).len() == nows.len(),
    decreases nows.len(),
{
    if nows.len() > 0 {
        let t = tick(fs, cursor, strategy, progress, nows[0]);
        lemma_ticks_len(fs, t.cursor, t.strategy, t.progress, nows.drop_first());
    }
}

/// The first outcome is one tick from the given state; the later ones go on
/// from the state that it leaves behind.
proof fn lemma_ticks_unfold(
    fs: Seq<u64>,
    cursor: int,
    strategy: PlaybackStrategy,
    progress: PlaybackProgress,
    nows: Seq<u64>,
)
    requires
        nows.len() > 0,
    ensures
        ({
            let t = tick(fs, cursor, strategy, progress, nows[0]);
            let ts = ticks(fs, cursor, strategy, progress, nows);
            let rest = ticks(fs, t.cursor, t.strategy, t.progress, nows.drop_first());
            &&& ts.len() == nows.len()
            &&& rest.len() == nows.len() - 1
            &&& ts[0] == t
            &&& forall|j: int| 0 < j < nows.len() ==> #[trigger] ts[j] == rest[j - 1]
        }),
{
    let t = tick(fs, cursor, strategy, progress, nows[0]);
    lemma_ticks_len(fs, t.cursor, t.strategy, t.progress, nows.drop_first());
}

/// Once the cursor is reset to the start, a `FrameCount` tick on a frame at or
/// past every recorded frame forwards the whole log, each record once and in
/// order, and leaves the cursor at the end.
pub proof fn lemma_catch_up_replays_all(fs: Seq<u64>, progress: PlaybackProgress, now: u64)
    requires
        forall|i: int| 0 <= i < fs.len() ==> fs[i] <= now,
    ensures
        tick(fs, 0, PlaybackStrategy::FrameCount, progress, now) == (TickOutcome {
            start: 0,
            end: fs.len() as int,
            cursor: fs.len() as int,
            strategy: PlaybackStrategy::FrameCount,
            progress,
        }),
{
    lemma_run_end_bounds(fs, 0, 0, now);
}

/// Under `Paused`, any number of ticks forwards nothing and leaves the cursor,
/// the strategy and the progress as they were.
pub proof fn lemma_paused_forwards_nothing(
    fs: Seq<u64>,
    cursor: int,
    progress: PlaybackProgress,
    nows: Seq<u64>,
)
    ensures
        forall|j: int|
            0 <= j < nows.len() ==> #[trigger] ticks(fs, cursor, PlaybackStrategy::Paused, progress, nows)[j]
                == (TickOutcome {
                start: cursor,
                end: cursor,
                cursor,
                strategy: PlaybackStrategy::Paused,
                progress,
            }),
    decreases nows.len(),
{
    if nows.len() > 0 {
        let rest = nows.drop_first();
        lemma_paused_forwards_nothing(fs, cursor, progress, rest);
        lemma_ticks_unfold(fs, cursor, PlaybackStrategy::Paused, progress, nows);
    }
}

/// The index of the first record whose frame is at least `x`.
pub open spec fn first_at_or_after(fs: Seq<u64>, x: int) -> int {
    skip_before(fs, 0, x as u64)
}

/// How many recorded frames past `a` the last record of the window `[a, b)`
/// lies (zero when the window holds no record): the tick of that number,
/// counted from zero, is the one on which a range replay runs out.
pub open spec fn last_window_offset(fs: Seq<u64>, a: FrameCount, b: FrameCount) -> int {
    let lo = first_at_or_after(fs, a.0 as int);
    let hi = first_at_or_after(fs, b.0 as int);
    if lo < hi {
        fs[hi - 1] - a.0
    } else {
        0
    }
}

/// The tick forwards the records of recorded frame `x` of a sorted log: the
/// slice from the first record at or above `x` to the first above it.
pub open spec fn forwards_frame(t: TickOutcome, fs: Seq<u64>, x: int) -> bool {
    &&& t.start == first_at_or_after(fs, x)
    &&& t.end == first_at_or_after(fs, x + 1)
}

/// The tick forwards nothing and leaves `strategy` behind.
pub open spec fn forwards_nothing(t: TickOutcome, strategy: PlaybackStrategy) -> bool {
    &&& t.start == t.end
    &&& t.strategy == strategy
}

/// Where the first record at or above a frame lies, on a sorted log.
proof fn lemma_first_at_or_after(fs: Seq<u64>, x: u64)
    requires
        sorted(fs),
    ensures
        0 <= first_at_or_after(fs, x as int) <= fs.len(),
        forall|k: int| 0 <= k < first_at_or_after(fs, x as int) ==> #[trigger] fs[k] < x,
        forall|k: int| first_at_or_after(fs, x as int) <= k < fs.len() ==> #[trigger] fs[k] >= x,
{
    lemma_skip_before_bounds(fs, 0, x);
}

/// Tick `k` of a range replay over `[a, b)`, on a sorted log whose window
/// runs out on tick `last_window_offset`, with `k` at most that.
proof fn lemma_range_step(
    fs: Seq<u64>,
    a: FrameCount,
    b: FrameCount,
    k: int,
    cursor: int,
    progress: PlaybackProgress,
    strategy: PlaybackStrategy,
    once: bool,
)
    requires
        sorted(fs),
        a.0 < b.0,
        first_at_or_after(fs, a.0 as int) < fs.len(),
        0 <= k <= last_window_offset(fs, a, b),
        0 <= cursor <= fs.len(),
        skip_before(fs, cursor, a.0) == first_at_or_after(fs, a.0 + k),
        range_frame(progress, a) == a.0 + k,
    ensures
        last_window_offset(fs, a, b) < b.0 - a.0,
        ({
            let t = range_tick(fs, cursor, strategy, progress, a, b, once);
            &&& forwards_frame(t, fs, a.0 + k)
            &&& k < last_window_offset(fs, a, b) ==> {
                &&& t.cursor == t.end
                &&& t.strategy == strategy
                &&& range_frame(t.progress, a) == a.0 + k + 1
                &&& 0 <= t.cursor <= fs.len()
                &&& skip_before(fs, t.cursor, a.0) == first_at_or_after(fs, a.0 + k + 1)
            }
            &&& k == last_window_offset(fs, a, b) ==> {
                &&& t.end == first_at_or_after(fs, b.0 as int)
                &&& t.progress == PlaybackProgress::fresh()
                &&& once ==> t.strategy == PlaybackStrategy::Paused
                &&& !once ==> t.strategy == strategy && t.cursor == first_at_or_after(fs, a.0 as int)
            }
        }),
{
    let x = (a.0 + k) as u64;
    let y = (a.0 + k + 1) as u64;
    let kk = last_window_offset(fs, a, b);
    let lo_w = first_at_or_after(fs, a.0 as int);
    let hi_w = first_at_or_after(fs, b.0 as int);
    lemma_first_at_or_after(fs, a.0);
    lemma_first_at_or_after(fs, b.0);
    if lo_w < hi_w {
        assert(fs[hi_w - 1] < b.0);
    }
    assert(kk < b.0 - a.0);
    lemma_first_at_or_after(fs, x);
    lemma_first_at_or_after(fs, y);
    let lo = skip_before(fs, cursor, a.0);
    lemma_skip_before_bounds(fs, cursor, a.0);
    lemma_run_end_sorted(fs, lo, a.0, x);
    lemma_skip_before_chain(fs, 0, x, y);
    lemma_skip_before_settled(fs, 0, a.0, y);
    let hi = first_at_or_after(fs, a.0 + k + 1);
    assert(range_limit(progress, a, b) == x);
    if k < kk {
        assert(lo_w < hi_w);
        assert(fs[hi_w - 1] >= y);
        assert(hi <= hi_w - 1);
        assert(fs[hi] < b.0);
        assert(!range_exhausted(fs, lo, hi, b));
    } else {
        if lo_w < hi_w {
            assert(y == fs[hi_w - 1] + 1);
            if hi < hi_w {
                assert(fs[hi] >= y);
                assert(fs[hi] <= fs[hi_w - 1]);
            }
            if hi > hi_w {
                assert(fs[hi_w] < y);
                assert(fs[hi_w] >= b.0);
            }
            assert(hi == hi_w);
            if hi_w == fs.len() {
                assert(lo <= hi_w - 1);
            }
        } else {
            assert(y == a.0 + 1);
            if hi < hi_w {
                assert(fs[hi] >= y);
                assert(fs[hi] < a.0);
            }
            if hi > hi_w {
                assert(fs[hi_w] < y);
                assert(fs[hi_w] >= b.0);
            }
            assert(hi == hi_w);
        }
        assert(range_exhausted(fs, lo, hi, b));
    }
}

/// A range replay whose cursor stands at the end of the log forwards nothing
/// and leaves the strategy and the cursor as they are, tick after tick.
proof fn lemma_range_idle(
    fs: Seq<u64>,
    a: FrameCount,
    b: FrameCount,
    cursor: int,
    progress: PlaybackProgress,
    strategy: PlaybackStrategy,
    nows: Seq<u64>,
)
    requires
        strategy == PlaybackStrategy::FrameRangeOnce(a, b) || strategy == PlaybackStrategy::FrameRangeLoop(a, b),
        cursor == fs.len(),
    ensures
        forall|j: int|
            0 <= j < nows.len() ==> forwards_nothing(#[trigger] ticks(fs, cursor, strategy, progress, nows)[j], strategy)
                && ticks(fs, cursor, strategy, progress, nows)[j].cursor == cursor,
    decreases nows.len(),
{
    if nows.len() > 0 {
        lemma_ticks_unfold(fs, cursor, strategy, progress, nows);
        let t = tick(fs, cursor, strategy, progress, nows[0]);
        lemma_range_idle(fs, a, b, t.cursor, t.progress, strategy, nows.drop_first());
    }
}

/// From a cursor with nothing at or above `a` after it, a range replay ticks
/// idly: the first tick moves the cursor to the end, and none forwards anything.
proof fn lemma_range_idle_from(
    fs: Seq<u64>,
    a: FrameCount,
    b: FrameCount,
    cursor: int,
    strategy: PlaybackStrategy,
    nows: Seq<u64>,
)
    requires
        strategy == PlaybackStrategy::FrameRangeOnce(a, b) || strategy == PlaybackStrategy::FrameRangeLoop(a, b),
        a.0 < b.0,
        0 <= cursor <= fs.len(),
        skip_before(fs, cursor, a.0) == fs.len(),
    ensures
        forall|j: int|
            0 <= j < nows.len() ==> forwards_nothing(#[trigger] ticks(fs, cursor, strategy, PlaybackProgress::fresh(), nows)[j], strategy),
{
    if nows.len() > 0 {
        lemma_ticks_unfold(fs, cursor, strategy, PlaybackProgress::fresh(), nows);
        let t = tick(fs, cursor, strategy, PlaybackProgress::fresh(), nows[0]);
        lemma_range_idle(fs, a, b, t.cursor, t.progress, strategy, nows.drop_first());
    }
}

/// Ticks of `FrameRangeOnce(a, b)` from tick `k` of the window on.
proof fn lemma_once_from(
    fs: Seq<u64>,
    a: FrameCount,
    b: FrameCount,
    k: int,
    cursor: int,
    progress: PlaybackProgress,
    nows: Seq<u64>,
)
    requires
        sorted(fs),
        a.0 < b.0,
        first_at_or_after(fs, a.0 as int) < fs.len(),
        0 <= k <= last_window_offset(fs, a, b),
        0 <= cursor <= fs.len(),
        skip_before(fs, cursor, a.0) == first_at_or_after(fs, a.0 + k),
        range_frame(progress, a) == a.0 + k,
    ensures
        ticks(fs, cursor, PlaybackStrategy::FrameRangeOnce(a, b), progress, nows).len() == nows.len(),
        forall|j: int|
            0 <= j < nows.len() && k + j <= last_window_offset(fs, a, b) ==> forwards_frame(
                #[trigger] ticks(fs, cursor, PlaybackStrategy::FrameRangeOnce(a, b), progress, nows)[j],
                fs,
                a.0 + k + j,
            ),
        forall|j: int|
            0 <= j < nows.len() && k + j < last_window_offset(fs, a, b) ==> (#[trigger] ticks(fs, cursor, PlaybackStrategy::FrameRangeOnce(a, b), progress, nows)[j]).strategy
                == PlaybackStrategy::FrameRangeOnce(a, b),
        forall|j: int|
            0 <= j < nows.len() && k + j == last_window_offset(fs, a, b) ==> {
                &&& (#[trigger] ticks(fs, cursor, PlaybackStrategy::FrameRangeOnce(a, b), progress, nows)[j]).end == first_at_or_after(fs, b.0 as int)
                &&& ticks(fs, cursor, PlaybackStrategy::FrameRangeOnce(a, b), progress, nows)[j].strategy == PlaybackStrategy::Paused
            },
        forall|j: int|
            0 <= j < nows.len() && k + j > last_window_offset(fs, a, b) ==> forwards_nothing(
                #[trigger] ticks(fs, cursor, PlaybackStrategy::FrameRangeOnce(a, b), progress, nows)[j],
                PlaybackStrategy::Paused,
            ),
    decreases nows.len(),
{
    let s = PlaybackStrategy::FrameRangeOnce(a, b);
    lemma_ticks_len(fs, cursor, s, progress, nows);
    if nows.len() > 0 {
        lemma_ticks_unfold(fs, cursor, s, progress, nows);
        let t = tick(fs, cursor, s, progress, nows[0]);
        let rest = nows.drop_first();
        lemma_range_step(fs, a, b, k, cursor, progress, s, true);
        if k < last_window_offset(fs, a, b) {
            lemma_once_from(fs, a, b, k + 1, t.cursor, t.progress, rest);
        } else {
            lemma_paused_forwards_nothing(fs, t.cursor, t.progress, rest);
        }
    }
}

/// Ticks of `FrameRangeLoop(a, b)` from tick `k` of the window on, through the
/// end of the second pass over it.
proof fn lemma_loop_from(
    fs: Seq<u64>,
    a: FrameCount,
    b: FrameCount,
    k: int,
    cursor: int,
    progress: PlaybackProgress,
    nows: Seq<u64>,
)
    requires
        sorted(fs),
        a.0 < b.0,
        first_at_or_after(fs, a.0 as int) < fs.len(),
        0 <= k <= last_window_offset(fs, a, b),
        0 <= cursor <= fs.len(),
        skip_before(fs, cursor, a.0) == first_at_or_after(fs, a.0 + k),
        range_frame(progress, a) == a.0 + k,
    ensures
        ticks(fs, cursor, PlaybackStrategy::FrameRangeLoop(a, b), progress, nows).len() == nows.len(),
        forall|j: int|
            0 <= j < nows.len() && k + j <= last_window_offset(fs, a, b) ==> forwards_frame(
                #[trigger] ticks(fs, cursor, PlaybackStrategy::FrameRangeLoop(a, b), progress, nows)[j],
                fs,
                a.0 + k + j,
            ) && ticks(fs, cursor, PlaybackStrategy::FrameRangeLoop(a, b), progress, nows)[j].strategy == PlaybackStrategy::FrameRangeLoop(a, b),
        forall|j: int|
            0 <= j < nows.len() && k + j == last_window_offset(fs, a, b) ==> {
                &&& (#[trigger] ticks(fs, cursor, PlaybackStrategy::FrameRangeLoop(a, b), progress, nows)[j]).end == first_at_or_after(fs, b.0 as int)
                &&& ticks(fs, cursor, PlaybackStrategy::FrameRangeLoop(a, b), progress, nows)[j].cursor == first_at_or_after(fs, a.0 as int)
                &&& ticks(fs, cursor, PlaybackStrategy::FrameRangeLoop(a, b), progress, nows)[j].progress == PlaybackProgress::fresh()
            },
        forall|j: int|
            0 <= j < nows.len() && last_window_offset(fs, a, b) < k + j <= 2 * last_window_offset(fs, a, b) + 1
                ==> forwards_frame(
                #[trigger] ticks(fs, cursor, PlaybackStrategy::FrameRangeLoop(a, b), progress, nows)[j],
                fs,
                a.0 + (k + j - last_window_offset(fs, a, b) - 1),
            ) && ticks(fs, cursor, PlaybackStrategy::FrameRangeLoop(a, b), progress, nows)[j].strategy == PlaybackStrategy::FrameRangeLoop(a, b),
    decreases nows.len(),
{
    let s = PlaybackStrategy::FrameRangeLoop(a, b);
    lemma_ticks_len(fs, cursor, s, progress, nows);
    if nows.len() > 0 {
        lemma_ticks_unfold(fs, cursor, s, progress, nows);
        let t = tick(fs, cursor, s, progress, nows[0]);
        let rest = nows.drop_first();
        lemma_range_step(fs, a, b, k, cursor, progress, s, false);
        if k < last_window_offset(fs, a, b) {
            lemma_loop_from(fs, a, b, k + 1, t.cursor, t.progress, rest);
        } else {
            lemma_skip_before_bounds(fs, 0, a.0);
            lemma_skip_before_settled(fs, 0, a.0, a.0);
            lemma_loop_from(fs, a, b, 0, t.cursor, t.progress, rest);
        }
    }
}

/// Under `FrameRangeOnce(a, b)` on a log recorded in frame order whose cursor
/// has not passed a record of the window, successive ticks forward the records
/// of frame `a`, then of `a + 1`, and so on, one recorded frame per tick:
/// consecutive slices that together cover exactly the records with
/// `a <= frame < b`, so each of them is forwarded once and in order. On the
/// tick that forwards the window's last record, or finds the next record at or
/// past `b`, the strategy turns into `Paused`, within `b - a` ticks; no later
/// tick forwards anything. When nothing is left at or above `a`, no tick
/// forwards anything and the strategy stays as it is.
pub proof fn lemma_range_once_replays_window_once(
    fs: Seq<u64>,
    cursor: int,
    a: FrameCount,
    b: FrameCount,
    nows: Seq<u64>,
)
    requires
        sorted(fs),
        a.0 < b.0,
        0 <= cursor <= fs.len(),
        forall|i: int| 0 <= i < cursor ==> fs[i] < a.0,
    ensures
        forall|i: int|
            0 <= i < fs.len() ==> (first_at_or_after(fs, a.0 as int) <= i < first_at_or_after(
                fs,
                b.0 as int,
            ) <==> a.0 <= #[trigger] fs[i] < b.0),
        0 <= last_window_offset(fs, a, b) < b.0 - a.0,
        ticks(fs, cursor, PlaybackStrategy::FrameRangeOnce(a, b), PlaybackProgress::fresh(), nows).len() == nows.len(),
        first_at_or_after(fs, a.0 as int) < fs.len() ==> forall|j: int|
            0 <= j < nows.len() && j <= last_window_offset(fs, a, b) ==> forwards_frame(
                #[trigger] ticks(fs, cursor, PlaybackStrategy::FrameRangeOnce(a, b), PlaybackProgress::fresh(), nows)[j],
                fs,
                a.0 + j,
            ),
        first_at_or_after(fs, a.0 as int) < fs.len() ==> forall|j: int|
            0 <= j < nows.len() && j < last_window_offset(fs, a, b) ==> (#[trigger] ticks(fs, cursor, PlaybackStrategy::FrameRangeOnce(a, b), PlaybackProgress::fresh(), nows)[j]).strategy == PlaybackStrategy::FrameRangeOnce(a, b),
        first_at_or_after(fs, a.0 as int) < fs.len() ==> forall|j: int|
            0 <= j < nows.len() && j == last_window_offset(fs, a, b) ==> {
                &&& (#[trigger] ticks(fs, cursor, PlaybackStrategy::FrameRangeOnce(a, b), PlaybackProgress::fresh(), nows)[j]).end == first_at_or_after(fs, b.0 as int)
                &&& ticks(fs, cursor, PlaybackStrategy::FrameRangeOnce(a, b), PlaybackProgress::fresh(), nows)[j].strategy == PlaybackStrategy::Paused
            },
        first_at_or_after(fs, a.0 as int) < fs.len() ==> forall|j: int|
            0 <= j < nows.len() && j > last_window_offset(fs, a, b) ==> forwards_nothing(
                #[trigger] ticks(fs, cursor, PlaybackStrategy::FrameRangeOnce(a, b), PlaybackProgress::fresh(), nows)[j],
                PlaybackStrategy::Paused,
            ),
        first_at_or_after(fs, a.0 as int) == fs.len() ==> forall|j: int|
            0 <= j < nows.len() ==> forwards_nothing(#[trigger] ticks(fs, cursor, PlaybackStrategy::FrameRangeOnce(a, b), PlaybackProgress::fresh(), nows)[j], PlaybackStrategy::FrameRangeOnce(a, b)),
{
    lemma_window_is_slice(fs, cursor, a, b);
    lemma_ticks_len(fs, cursor, PlaybackStrategy::FrameRangeOnce(a, b), PlaybackProgress::fresh(), nows);
    lemma_first_at_or_after(fs, a.0);
    lemma_first_at_or_after(fs, b.0);
    if first_at_or_after(fs, a.0 as int) < fs.len() {
        lemma_range_step(fs, a, b, 0, cursor, PlaybackProgress::fresh(), PlaybackStrategy::FrameRangeOnce(a, b), true);
        lemma_once_from(fs, a, b, 0, cursor, PlaybackProgress::fresh(), nows);
    } else {
        lemma_range_idle_from(fs, a, b, cursor, PlaybackStrategy::FrameRangeOnce(a, b), nows);
    }
}

/// Under `FrameRangeLoop(a, b)`, on the same terms as `FrameRangeOnce(a, b)`,
/// the first pass forwards the window's records frame by frame. On the tick
/// that runs out the window the cursor goes back to the first record with
/// `frame >= a`, the strategy stays as it is, and the ticks after that forward
/// the same slices again, in the same order: tick `m` of the second pass
/// forwards what tick `m` of the first did. When nothing is left at or above
/// `a`, no tick forwards anything.
pub proof fn lemma_range_loop_replays_window_again(
    fs: Seq<u64>,
    cursor: int,
    a: FrameCount,
    b: FrameCount,
    nows: Seq<u64>,
)
    requires
        sorted(fs),
        a.0 < b.0,
        0 <= cursor <= fs.len(),
        forall|i: int| 0 <= i < cursor ==> fs[i] < a.0,
    ensures
        forall|i: int|
            0 <= i < fs.len() ==> (first_at_or_after(fs, a.0 as int) <= i < first_at_or_after(
                fs,
                b.0 as int,
            ) <==> a.0 <= #[trigger] fs[i] < b.0),
        0 <= last_window_offset(fs, a, b) < b.0 - a.0,
        ticks(fs, cursor, PlaybackStrategy::FrameRangeLoop(a, b), PlaybackProgress::fresh(), nows).len() == nows.len(),
        first_at_or_after(fs, a.0 as int) < fs.len() ==> forall|j: int|
            0 <= j < nows.len() && j <= last_window_offset(fs, a, b) ==> forwards_frame(
                #[trigger] ticks(fs, cursor, PlaybackStrategy::FrameRangeLoop(a, b), PlaybackProgress::fresh(), nows)[j],
                fs,
                a.0 + j,
            ) && ticks(fs, cursor, PlaybackStrategy::FrameRangeLoop(a, b), PlaybackProgress::fresh(), nows)[j].strategy == PlaybackStrategy::FrameRangeLoop(a, b),
        first_at_or_after(fs, a.0 as int) < fs.len() ==> forall|j: int|
            0 <= j < nows.len() && j == last_window_offset(fs, a, b) ==> {
                &&& (#[trigger] ticks(fs, cursor, PlaybackStrategy::FrameRangeLoop(a, b), PlaybackProgress::fresh(), nows)[j]).end == first_at_or_after(fs, b.0 as int)
                &&& ticks(fs, cursor, PlaybackStrategy::FrameRangeLoop(a, b), PlaybackProgress::fresh(), nows)[j].cursor == first_at_or_after(fs, a.0 as int)
            },
        first_at_or_after(fs, a.0 as int) < fs.len() ==> forall|j: int|
            0 <= j < nows.len() && last_window_offset(fs, a, b) < j <= 2 * last_window_offset(fs, a, b) + 1
                ==> forwards_frame(
                #[trigger] ticks(fs, cursor, PlaybackStrategy::FrameRangeLoop(a, b), PlaybackProgress::fresh(), nows)[j],
                fs,
                a.0 + (j - last_window_offset(fs, a, b) - 1),
            ) && ticks(fs, cursor, PlaybackStrategy::FrameRangeLoop(a, b), PlaybackProgress::fresh(), nows)[j].strategy == PlaybackStrategy::FrameRangeLoop(a, b),
        first_at_or_after(fs, a.0 as int) == fs.len() ==> forall|j: int|
            0 <= j < nows.len() ==> forwards_nothing(#[trigger] ticks(fs, cursor, PlaybackStrategy::FrameRangeLoop(a, b), PlaybackProgress::fresh(), nows)[j], PlaybackStrategy::FrameRangeLoop(a, b)),
{
    lemma_window_is_slice(fs, cursor, a, b);
    lemma_ticks_len(fs, cursor, PlaybackStrategy::FrameRangeLoop(a, b), PlaybackProgress::fresh(), nows);
    lemma_first_at_or_after(fs, a.0);
    lemma_first_at_or_after(fs, b.0);
    if first_at_or_after(fs, a.0 as int) < fs.len() {
        lemma_range_step(fs, a, b, 0, cursor, PlaybackProgress::fresh(), PlaybackStrategy::FrameRangeLoop(a, b), false);
        lemma_loop_from(fs, a, b, 0, cursor, PlaybackProgress::fresh(), nows);
    } else {
        lemma_range_idle_from(fs, a, b, cursor, PlaybackStrategy::FrameRangeLoop(a, b), nows);
    }
}

/// On a sorted log whose records before `cursor` lie below `a`, the records
/// with `a <= frame < b` form the slice between the first at or above `a` and
/// the first at or above `b`, and skipping to `a` from the cursor lands where
/// it would from the start.
proof fn lemma_window_is_slice(fs: Seq<u64>, cursor: int, a: FrameCount, b: FrameCount)
    requires
        sorted(fs),
        a.0 < b.0,
        0 <= cursor <= fs.len(),
        forall|i: int| 0 <= i < cursor ==> fs[i] < a.0,
    ensures
        forall|i: int|
            0 <= i < fs.len() ==> (first_at_or_after(fs, a.0 as int) <= i < first_at_or_after(
                fs,
                b.0 as int,
            ) <==> a.0 <= #[trigger] fs[i] < b.0),
        skip_before(fs, cursor, a.0) == first_at_or_after(fs, a.0 as int),
        range_frame(PlaybackProgress::fresh(), a) == a.0,
{
    lemma_skip_before_through(fs, 0, cursor, a.0);
    lemma_skip_before_bounds(fs, 0, a.0);
    lemma_skip_before_bounds(fs, 0, b.0);
    lemma_skip_before_chain(fs, 0, a.0, b.0);
    lemma_skip_before_bounds(fs, skip_before(fs, 0, a.0), b.0);
}

/// `FrameCount` ticks on frames that never decrease, from a cursor behind
/// which every record is at or below the first tick's frame.
proof fn lemma_frame_count_from(
    fs: Seq<u64>,
    cursor: int,
    progress: PlaybackProgress,
    nows: Seq<u64>,
)
    requires
        sorted(fs),
        0 <= cursor <= fs.len(),
        forall|i: int, j: int| 0 <= i <= j < nows.len() ==> nows[i] <= nows[j],
        forall|j: int| 0 <= j < nows.len() ==> nows[j] < u64::MAX,
        nows.len() > 0 ==> forall|i: int| 0 <= i < cursor ==> fs[i] <= nows[0],
    ensures
        ticks(fs, cursor, PlaybackStrategy::FrameCount, progress, nows).len() == nows.len(),
        forall|j: int|
            0 <= j < nows.len() ==> {
                &&& (#[trigger] ticks(fs, cursor, PlaybackStrategy::FrameCount, progress, nows)[j]).end
                    == first_at_or_after(fs, nows[j] + 1)
                &&& ticks(fs, cursor, PlaybackStrategy::FrameCount, progress, nows)[j].cursor
                    == first_at_or_after(fs, nows[j] + 1)
                &&& ticks(fs, cursor, PlaybackStrategy::FrameCount, progress, nows)[j].start == if j == 0 {
                    cursor
                } else {
                    first_at_or_after(fs, nows[j - 1] + 1)
                }
                &&& ticks(fs, cursor, PlaybackStrategy::FrameCount, progress, nows)[j].strategy
                    == PlaybackStrategy::FrameCount
            },
    decreases nows.len(),
{
    let s = PlaybackStrategy::FrameCount;
    lemma_ticks_len(fs, cursor, s, progress, nows);
    if nows.len() > 0 {
        lemma_ticks_unfold(fs, cursor, s, progress, nows);
        let n = nows[0];
        let t = tick(fs, cursor, s, progress, n);
        lemma_run_end_sorted(fs, cursor, 0, n);
        lemma_skip_before_through(fs, 0, cursor, (n + 1) as u64);
        lemma_first_at_or_after(fs, (n + 1) as u64);
        let rest = nows.drop_first();
        assert forall|i: int, j: int| 0 <= i <= j < rest.len() implies rest[i] <= rest[j] by {
            assert(rest[i] == nows[i + 1] && rest[j] == nows[j + 1]);
        }
        if rest.len() > 0 {
            assert(rest[0] == nows[1]);
            assert(nows[0] <= nows[1]);
        }
        lemma_frame_count_from(fs, t.cursor, t.progress, rest);
    }
}

/// Under `FrameCount`, from a cursor at the start of a log recorded in frame
/// order, ticks on frames `f_0 <= f_1 <= ...` move the cursor to the number of
/// records with `frame <= f_j` after tick `j`: each tick forwards the records
/// that came due since the one before, so together they forward exactly the
/// records at or below the latest frame, each once and in order.
pub proof fn lemma_frame_count_is_cumulative(fs: Seq<u64>, progress: PlaybackProgress, nows: Seq<u64>)
    requires
        sorted(fs),
        forall|i: int, j: int| 0 <= i <= j < nows.len() ==> nows[i] <= nows[j],
        forall|j: int| 0 <= j < nows.len() ==> nows[j] < u64::MAX,
    ensures
        ticks(fs, 0, PlaybackStrategy::FrameCount, progress, nows).len() == nows.len(),
        forall|j: int|
            0 <= j < nows.len() ==> {
                &&& (#[trigger] ticks(fs, 0, PlaybackStrategy::FrameCount, progress, nows)[j]).start == if j == 0 {
                    0
                } else {
                    ticks(fs, 0, PlaybackStrategy::FrameCount, progress, nows)[j - 1].end
                }
                &&& ticks(fs, 0, PlaybackStrategy::FrameCount, progress, nows)[j].cursor
                    == ticks(fs, 0, PlaybackStrategy::FrameCount, progress, nows)[j].end
                &&& forall|i: int|
                    0 <= i < fs.len() ==> (i < ticks(fs, 0, PlaybackStrategy::FrameCount, progress, nows)[j].end
                        <==> fs[i] <= nows[j])
            },
{
    lemma_frame_count_from(fs, 0, progress, nows);
    let ts = ticks(fs, 0, PlaybackStrategy::FrameCount, progress, nows);
    assert forall|j: int| 0 <= j < nows.len() implies {
        &&& (#[trigger] ticks(fs, 0, PlaybackStrategy::FrameCount, progress, nows)[j]).start == if j == 0 {
            0
        } else {
            ticks(fs, 0, PlaybackStrategy::FrameCount, progress, nows)[j - 1].end
        }
        &&& ticks(fs, 0, PlaybackStrategy::FrameCount, progress, nows)[j].cursor
            == ticks(fs, 0, PlaybackStrategy::FrameCount, progress, nows)[j].end
        &&& forall|i: int|
            0 <= i < fs.len() ==> (i < ticks(fs, 0, PlaybackStrategy::FrameCount, progress, nows)[j].end
                <==> fs[i] <= nows[j])
    } by {
        lemma_first_at_or_after(fs, (nows[j] + 1) as u64);
        if j > 0 {
            assert(ts[j - 1].end == first_at_or_after(fs, nows[j - 1] + 1));
        }
    }
}

} // verus!
