//! Which input kinds are recorded, how a tick's batch of one kind enters the
//! log, and the line format of the persisted log.
use crate::frame_counting::FrameCount;
use crate::timestamped_input::{stamped, Elapsed, TimestampedInputEvent, TimestampedInputs};
use vstd::prelude::*;

verus! {

/// The kinds of raw input that can be recorded.
#[derive(Clone, Copy, Debug, PartialEq, Eq, Structural, Hash)]
pub enum InputKind {
    /// Mouse button presses and releases.
    MouseButton,
    /// Mouse wheel scrolling.
    MouseWheel,
    /// Cursor positions in a window.
    CursorMoved,
    /// Raw mouse motion.
    MouseMotion,
    /// Keyboard keys.
    Keyboard,
    /// Gamepad connections, buttons and axes.
    Gamepad,
    /// Requests to exit the application.
    AppExit,
}

/// The input mechanisms that are recorded. By default all of them are.
#[derive(Clone, Copy, Debug, PartialEq, Eq, Structural)]
pub struct InputModesCaptured {
    /// Mouse buttons and mouse wheel inputs.
    pub mouse_buttons: bool,
    /// Moving the mouse: cursor positions and raw mouse motion.
    pub mouse_motion: bool,
    /// Keyboard inputs.
    pub keyboard: bool,
    /// Gamepad inputs.
    pub gamepad: bool,
}

impl InputModesCaptured {
    /// Records nothing but application exits.
    pub fn disable_all() -> (r: Self)
        ensures
            !r.mouse_buttons && !r.mouse_motion && !r.keyboard && !r.gamepad,
    {
        InputModesCaptured { mouse_buttons: false, mouse_motion: false, keyboard: false, gamepad: false }
    }

    /// Records every supported kind of input.
    pub fn enable_all() -> (r: Self)
        ensures
            r.mouse_buttons && r.mouse_motion && r.keyboard && r.gamepad,
    {
        InputModesCaptured { mouse_buttons: true, mouse_motion: true, keyboard: true, gamepad: true }
    }

    /// Whether inputs of `kind` are recorded. Application exits always are.
    pub open spec fn records(self, kind: InputKind) -> bool {
        match kind {
            InputKind::MouseButton | InputKind::MouseWheel => self.mouse_buttons,
            InputKind::CursorMoved | InputKind::MouseMotion => self.mouse_motion,
            InputKind::Keyboard => self.keyboard,
            InputKind::Gamepad => self.gamepad,
            InputKind::AppExit => true,
        }
    }

    /// Whether inputs of `kind` are recorded.
    pub fn captures(&self, kind: InputKind) -> (r: bool)
        ensures
            r == self.records(kind),
    {
        match kind {
            InputKind::MouseButton | InputKind::MouseWheel => self.mouse_buttons,
            InputKind::CursorMoved | InputKind::MouseMotion => self.mouse_motion,
            InputKind::Keyboard => self.keyboard,
            InputKind::Gamepad => self.gamepad,
            InputKind::AppExit => true,
        }
    }
}

impl Default for InputModesCaptured {
    fn default() -> (r: Self)
        ensures
            r.mouse_buttons && r.mouse_motion && r.keyboard && r.gamepad,
    {
        InputModesCaptured::enable_all()
    }
}

/// Records one tick's batch of inputs of one kind, all stamped with `frame` and
/// `time_since_startup`, in the batch's order, when `modes` records that kind.
/// Otherwise the batch is dropped and the log is left as it was.
pub fn capture_input<E>(
    inputs: &mut TimestampedInputs<E>,
    modes: &InputModesCaptured,
    kind: InputKind,
    frame: FrameCount,
    time_since_startup: Elapsed,
    events: Vec<E>,
)
    requires
        old(inputs).events@.len() + events@.len() <= usize::MAX,
    ensures
        final(inputs).events@ == if modes.records(kind) {
            old(inputs).events@ + stamped(frame, time_since_startup, events@)
        } else {
            old(inputs).events@
        },
        final(inputs).cursor == old(inputs).cursor,
{
    if modes.captures(kind) {
        inputs.send_multiple(frame, time_since_startup, events);
    }
}

/// The separator written after each persisted record.
pub open spec fn record_separator() -> Seq<char> {
    seq![',', '\n']
}

/// The line of the persisted log that holds one serialized record: the record
/// followed by a comma and a newline.
pub fn record_line(serialized: &str) -> (r: String)
    ensures
        r@ == serialized@ + record_separator(),
{
    let line = String::from_str(serialized);
    let r = line.concat(",\n");
    proof {
        reveal_strlit(",\n");
        assert(",\n"@ =~= record_separator());
    }
    r
}

/// The half-open range of log indices still to be persisted, given that the
/// records before `last_persisted` were written and the log holds `len`.
pub fn records_to_persist(last_persisted: usize, len: usize) -> (r: (usize, usize))
    ensures
        r.1 == len,
        r.0 == if last_persisted <= len {
            last_persisted
        } else {
            len
        },
{
    if last_persisted <= len {
        (last_persisted, len)
    } else {
        (len, len)
    }
}

/// The records that one batch of `kind` adds to the log under `modes`.
pub open spec fn captured_batch<E>(
    modes: InputModesCaptured,
    frame: FrameCount,
    time: Elapsed,
    kind: InputKind,
    inputs: Seq<E>,
) -> Seq<TimestampedInputEvent<E>> {
    if modes.records(kind) {
        stamped(frame, time, inputs)
    } else {
        Seq::empty()
    }
}

/// The log after `capture_input` is called on each of `batches` in turn.
pub open spec fn after_captures<E>(
    log: Seq<TimestampedInputEvent<E>>,
    modes: InputModesCaptured,
    frame: FrameCount,
    time: Elapsed,
    batches: Seq<(InputKind, Seq<E>)>,
) -> Seq<TimestampedInputEvent<E>>
    decreases batches.len(),
{
    if batches.len() == 0 {
        log
    } else {
        after_captures(
            log + captured_batch(modes, frame, time, batches[0].0, batches[0].1),
            modes,
            frame,
            time,
            batches.drop_first(),
        )
    }
}

/// The records that `batches` add under `modes`, batch after batch.
pub open spec fn captured_records<E>(
    modes: InputModesCaptured,
    frame: FrameCount,
    time: Elapsed,
    batches: Seq<(InputKind, Seq<E>)>,
) -> Seq<TimestampedInputEvent<E>>
    decreases batches.len(),
{
    if batches.len() == 0 {
        Seq::empty()
    } else {
        captured_batch(modes, frame, time, batches[0].0, batches[0].1) + captured_records(
            modes,
            frame,
            time,
            batches.drop_first(),
        )
    }
}

/// The number of records that `batches` add under `modes`: the sizes of the
/// batches whose kind is recorded.
pub open spec fn captured_count<E>(modes: InputModesCaptured, batches: Seq<(InputKind, Seq<E>)>) -> int
    decreases batches.len(),
{
    if batches.len() == 0 {
        0
    } else {
        (if modes.records(batches[0].0) {
            batches[0].1.len() as int
        } else {
            0
        }) + captured_count(modes, batches.drop_first())
    }
}

/// Capturing a tick's batches one after another keeps everything already in
/// the log and appends exactly the batches of recorded kinds, each stamped and
/// in its own order, batch after batch; the log grows by their total size.
/// From an empty log, its length is that total.
pub proof fn lemma_captures_append_in_order<E>(
    log: Seq<TimestampedInputEvent<E>>,
    modes: InputModesCaptured,
    frame: FrameCount,
    time: Elapsed,
    batches: Seq<(InputKind, Seq<E>)>,
)
    ensures
        captured_count(modes, batches) >= 0,
        after_captures(log, modes, frame, time, batches) == log + captured_records(modes, frame, time, batches),
        after_captures(log, modes, frame, time, batches).len() == log.len() + captured_count(modes, batches),
        forall|i: int|
            0 <= i < log.len() ==> #[trigger] after_captures(log, modes, frame, time, batches)[i] == log[i],
        batches.len() > 0 ==> after_captures(log, modes, frame, time, batches) == after_captures(
            log + captured_batch(modes, frame, time, batches[0].0, batches[0].1),
            modes,
            frame,
            time,
            batches.drop_first(),
        ),
        forall|i: int|
            log.len() <= i < after_captures(log, modes, frame, time, batches).len() ==> (#[trigger] after_captures(
                log,
                modes,
                frame,
                time,
                batches,
            )[i]).frame == frame && after_captures(log, modes, frame, time, batches)[i].time_since_startup == time,
    decreases batches.len(),
{
    if batches.len() > 0 {
        let next = log + captured_batch(modes, frame, time, batches[0].0, batches[0].1);
        lemma_captures_append_in_order(next, modes, frame, time, batches.drop_first());
        let r = after_captures(log, modes, frame, time, batches);
        assert(next + captured_records(modes, frame, time, batches.drop_first()) =~= log
            + captured_records(modes, frame, time, batches));
        assert forall|i: int| 0 <= i < log.len() implies #[trigger] r[i] == log[i] by {
            assert(r[i] == next[i]);
        }
        assert forall|i: int| log.len() <= i < r.len() implies (#[trigger] r[i]).frame == frame
            && r[i].time_since_startup == time by {
            if i < next.len() {
                assert(r[i] == next[i]);
                assert(next[i] == captured_batch(modes, frame, time, batches[0].0, batches[0].1)[i - log.len()]);
            }
        }
    } else {
        assert(log + captured_records(modes, frame, time, batches) =~= log);
    }
}

} // verus!
