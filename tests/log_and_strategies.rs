use input_playback::frame_counting::FrameCount;
use input_playback::input_capture::{
    capture_input, record_line, records_to_persist, InputKind, InputModesCaptured,
};
use input_playback::input_playback::{PlaybackProgress, PlaybackStrategy};
use input_playback::timestamped_input::{Elapsed, TimestampedInputs};

fn t(s: u64) -> Elapsed {
    Elapsed { secs: s, nanos: 0 }
}

fn log_with_frames(frames: &[u64]) -> TimestampedInputs<u32> {
    let mut log = TimestampedInputs::new();
    for (i, f) in frames.iter().enumerate() {
        log.send(FrameCount(*f), t(0), i as u32);
    }
    log
}

/// Runs one tick and returns the payloads forwarded, in order.
fn tick(
    log: &mut TimestampedInputs<u32>,
    strategy: &mut PlaybackStrategy,
    progress: &mut PlaybackProgress,
    frame: u64,
) -> Vec<u32> {
    let (s, e) = log.playback(strategy, progress, FrameCount(frame));
    (s..e).map(|i| log.get(i).input_event).collect()
}

#[test]
fn appends_keep_count_and_order() {
    let mut log = TimestampedInputs::new();
    assert!(log.is_empty());
    for i in 0..7u32 {
        log.send(FrameCount(i as u64 / 2), t(i as u64), i * 10);
        assert_eq!(log.len(), i as usize + 1);
    }
    for i in 0..7usize {
        assert_eq!(log.get(i).input_event, i as u32 * 10);
        assert_eq!(log.get(i).frame, FrameCount(i as u64 / 2));
        assert_eq!(log.get(i).time_since_startup, t(i as u64));
    }
    assert_eq!(log.cursor, 0);
}

#[test]
fn send_multiple_shares_one_stamp() {
    let mut log = log_with_frames(&[0]);
    log.send_multiple(FrameCount(4), t(9), vec![7, 8, 9]);
    assert_eq!(log.len(), 4);
    for i in 1..4usize {
        assert_eq!(log.get(i).frame, FrameCount(4));
        assert_eq!(log.get(i).time_since_startup, t(9));
        assert_eq!(log.get(i).input_event, 6 + i as u32);
    }
}

#[test]
fn reset_then_catch_up_replays_everything_once() {
    let mut log = log_with_frames(&[0, 1, 2, 2, 3]);
    let mut s = PlaybackStrategy::FrameCount;
    let mut p = PlaybackProgress::new();
    assert_eq!(tick(&mut log, &mut s, &mut p, 3), vec![0, 1, 2, 3, 4]);
    assert_eq!(tick(&mut log, &mut s, &mut p, 4), Vec::<u32>::new());
    log.reset_cursor();
    assert_eq!(log.cursor, 0);
    assert_eq!(log.len(), 5);
    assert_eq!(tick(&mut log, &mut s, &mut p, 9), vec![0, 1, 2, 3, 4]);
    assert_eq!(log.cursor, 5);
}

#[test]
fn paused_never_moves() {
    let mut log = log_with_frames(&[0, 1, 2]);
    log.cursor = 1;
    let mut s = PlaybackStrategy::Paused;
    let mut p = PlaybackProgress::new();
    for f in 0..20 {
        assert!(tick(&mut log, &mut s, &mut p, f).is_empty());
        assert_eq!(log.cursor, 1);
        assert_eq!(s, PlaybackStrategy::Paused);
    }
}

#[test]
fn press_then_release_one_per_tick() {
    let mut log = log_with_frames(&[1, 2]);
    let mut s = PlaybackStrategy::FrameCount;
    let mut p = PlaybackProgress::new();
    assert_eq!(tick(&mut log, &mut s, &mut p, 1), vec![0]);
    assert_eq!(tick(&mut log, &mut s, &mut p, 2), vec![1]);
    assert_eq!(log.cursor, 2);
}

#[test]
fn frame_count_is_cumulative() {
    let mut log = log_with_frames(&[0, 1, 2, 2, 3]);
    let mut s = PlaybackStrategy::FrameCount;
    let mut p = PlaybackProgress::new();
    let mut cursors = Vec::new();
    for f in 0..4 {
        tick(&mut log, &mut s, &mut p, f);
        cursors.push(log.cursor);
    }
    assert_eq!(cursors, vec![1, 2, 4, 5]);
}

#[test]
fn range_once_replays_window_then_pauses() {
    let mut log = log_with_frames(&[0, 1, 2, 2, 3]);
    let start = PlaybackStrategy::FrameRangeOnce(FrameCount(2), FrameCount(5));
    let mut s = start;
    let mut p = PlaybackProgress::new();
    assert_eq!(tick(&mut log, &mut s, &mut p, 1), vec![2, 3]);
    assert_eq!(s, start);
    assert_eq!(tick(&mut log, &mut s, &mut p, 2), vec![4]);
    assert_eq!(log.cursor, 5);
    assert_eq!(s, PlaybackStrategy::Paused);
    for f in 3..12 {
        assert!(tick(&mut log, &mut s, &mut p, f).is_empty());
    }
    assert_eq!(log.cursor, 5);
}

#[test]
fn range_once_ends_at_record_stamped_end() {
    let mut log = log_with_frames(&[2, 5]);
    let mut s = PlaybackStrategy::FrameRangeOnce(FrameCount(2), FrameCount(5));
    let mut p = PlaybackProgress::new();
    assert_eq!(tick(&mut log, &mut s, &mut p, 1), vec![0]);
    assert_eq!(s, PlaybackStrategy::Paused);
    assert_eq!(log.cursor, 1);
    assert!(tick(&mut log, &mut s, &mut p, 2).is_empty());
}

#[test]
fn range_paces_one_recorded_frame_per_tick() {
    let mut log = log_with_frames(&[2, 4]);
    let mut s = PlaybackStrategy::FrameRangeOnce(FrameCount(2), FrameCount(9));
    let mut p = PlaybackProgress::new();
    assert_eq!(tick(&mut log, &mut s, &mut p, 0), vec![0]);
    assert_eq!(tick(&mut log, &mut s, &mut p, 0), Vec::<u32>::new());
    assert_eq!(s, PlaybackStrategy::FrameRangeOnce(FrameCount(2), FrameCount(9)));
    assert_eq!(tick(&mut log, &mut s, &mut p, 0), vec![1]);
    assert_eq!(s, PlaybackStrategy::Paused);
}

#[test]
fn range_on_empty_log_changes_nothing() {
    let mut log: TimestampedInputs<u32> = TimestampedInputs::new();
    let once = PlaybackStrategy::FrameRangeOnce(FrameCount(2), FrameCount(5));
    let mut s = once;
    let mut p = PlaybackProgress::new();
    for f in 0..10 {
        assert!(tick(&mut log, &mut s, &mut p, f).is_empty());
        assert_eq!(s, once);
        assert_eq!(log.cursor, 0);
    }
    let mut log = log_with_frames(&[0, 1]);
    let looping = PlaybackStrategy::FrameRangeLoop(FrameCount(2), FrameCount(5));
    let mut s = looping;
    for f in 0..10 {
        assert!(tick(&mut log, &mut s, &mut p, f).is_empty());
        assert_eq!(s, looping);
        assert_eq!(log.cursor, 2);
    }
}

#[test]
fn range_once_stops_before_end_frame() {
    // A record stamped exactly `end` is outside the window.
    let mut log = log_with_frames(&[1, 2, 3, 4]);
    let mut s = PlaybackStrategy::FrameRangeOnce(FrameCount(2), FrameCount(4));
    let mut p = PlaybackProgress::new();
    let mut all = Vec::new();
    for f in 0..6 {
        all.extend(tick(&mut log, &mut s, &mut p, f));
    }
    assert_eq!(all, vec![1, 2]);
    assert_eq!(s, PlaybackStrategy::Paused);
    assert_eq!(log.cursor, 3);
}

#[test]
fn range_loop_rewinds_and_replays() {
    let mut log = log_with_frames(&[0, 1, 2, 2, 3]);
    let start = PlaybackStrategy::FrameRangeLoop(FrameCount(2), FrameCount(5));
    let mut s = start;
    let mut p = PlaybackProgress::new();
    assert_eq!(tick(&mut log, &mut s, &mut p, 0), vec![2, 3]);
    assert_eq!(tick(&mut log, &mut s, &mut p, 1), vec![4]);
    assert_eq!(log.cursor, 2);
    assert_eq!(s, start);
    assert_eq!(p, PlaybackProgress::new());
    assert_eq!(tick(&mut log, &mut s, &mut p, 2), vec![2, 3]);
    assert_eq!(tick(&mut log, &mut s, &mut p, 3), vec![4]);
    assert_eq!(log.cursor, 2);
    assert_eq!(s, start);
}

#[test]
fn empty_log_and_cursor_past_end_are_no_ops() {
    let mut log: TimestampedInputs<u32> = TimestampedInputs::default();
    let mut s = PlaybackStrategy::FrameCount;
    let mut p = PlaybackProgress::new();
    assert!(tick(&mut log, &mut s, &mut p, 5).is_empty());
    assert_eq!(log.cursor, 0);

    let mut log = log_with_frames(&[0, 1]);
    log.cursor = 7;
    assert!(tick(&mut log, &mut s, &mut p, 5).is_empty());
    assert_eq!(log.cursor, 7);
    assert_eq!(s, PlaybackStrategy::FrameCount);
}

#[test]
fn swapping_strategy_keeps_cursor() {
    let mut log = log_with_frames(&[0, 1, 2, 3]);
    let mut s = PlaybackStrategy::FrameCount;
    let mut p = PlaybackProgress::new();
    assert_eq!(tick(&mut log, &mut s, &mut p, 1), vec![0, 1]);
    s = PlaybackStrategy::Paused;
    assert!(tick(&mut log, &mut s, &mut p, 2).is_empty());
    s = PlaybackStrategy::FrameCount;
    assert_eq!(log.cursor, 2);
    assert_eq!(tick(&mut log, &mut s, &mut p, 2), vec![2]);
}

#[test]
fn capture_gating_by_kind() {
    let mut log: TimestampedInputs<u32> = TimestampedInputs::new();
    let mut modes = InputModesCaptured::default();
    modes.keyboard = false;
    capture_input(&mut log, &modes, InputKind::Keyboard, FrameCount(1), t(1), vec![1, 2]);
    assert_eq!(log.len(), 0);
    capture_input(&mut log, &modes, InputKind::MouseWheel, FrameCount(1), t(1), vec![3, 4]);
    assert_eq!(log.len(), 2);
    let off = InputModesCaptured::disable_all();
    capture_input(&mut log, &off, InputKind::Gamepad, FrameCount(2), t(2), vec![5]);
    capture_input(&mut log, &off, InputKind::CursorMoved, FrameCount(2), t(2), vec![6]);
    assert_eq!(log.len(), 2);
    capture_input(&mut log, &off, InputKind::AppExit, FrameCount(2), t(2), vec![7]);
    assert_eq!(log.len(), 3);
    assert_eq!(log.get(2).input_event, 7);
    assert_eq!(log.get(2).frame, FrameCount(2));
}

#[test]
fn modes_map_kinds() {
    let all = InputModesCaptured::enable_all();
    let none = InputModesCaptured::disable_all();
    for k in [
        InputKind::MouseButton,
        InputKind::MouseWheel,
        InputKind::CursorMoved,
        InputKind::MouseMotion,
        InputKind::Keyboard,
        InputKind::Gamepad,
    ] {
        assert!(all.captures(k));
        assert!(!none.captures(k));
    }
    assert!(none.captures(InputKind::AppExit));
    let motion_only = InputModesCaptured { mouse_motion: true, ..none };
    assert!(motion_only.captures(InputKind::MouseMotion));
    assert!(motion_only.captures(InputKind::CursorMoved));
    assert!(!motion_only.captures(InputKind::MouseButton));
    assert_eq!(InputModesCaptured::default(), all);
}

#[test]
fn persisted_line_format() {
    assert_eq!(record_line("(frame: 3)"), "(frame: 3),\n");
    assert_eq!(record_line(""), ",\n");
}

#[test]
fn persist_range() {
    assert_eq!(records_to_persist(0, 3), (0, 3));
    assert_eq!(records_to_persist(3, 5), (3, 5));
    assert_eq!(records_to_persist(5, 5), (5, 5));
    assert_eq!(records_to_persist(9, 5), (5, 5));
}

#[test]
fn frame_counter_advances() {
    let mut f = FrameCount::default();
    assert_eq!(f, FrameCount(0));
    f.advance();
    f.advance();
    assert_eq!(f, FrameCount(2));
    assert!(FrameCount(1) < FrameCount(2));
}

#[test]
fn default_strategy_is_frame_count() {
    assert_eq!(PlaybackStrategy::default(), PlaybackStrategy::FrameCount);
    assert_eq!(PlaybackProgress::default().range_frame, None);
}

#[test]
fn range_windows_must_be_non_empty() {
    assert!(PlaybackStrategy::FrameRangeOnce(FrameCount(2), FrameCount(5)).is_valid());
    assert!(!PlaybackStrategy::FrameRangeOnce(FrameCount(5), FrameCount(5)).is_valid());
    assert!(!PlaybackStrategy::FrameRangeLoop(FrameCount(6), FrameCount(5)).is_valid());
    assert!(PlaybackStrategy::Paused.is_valid());
    assert!(PlaybackStrategy::FrameCount.is_valid());
}

#[test]
fn elapsed_keeps_its_parts() {
    let e = Elapsed::new(3, 999_999_999);
    assert_eq!(e, Elapsed { secs: 3, nanos: 999_999_999 });
}
