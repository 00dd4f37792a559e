use radio_panel::effect::NopEffect;
use radio_panel::sound_loop::{
    frame_has_samples, next_step, ControlPoll, FrameWriter, LoopStep, StreamStarter, WriteResult,
    WriteStep, UNDERRUN,
};

#[test]
fn stop_and_disconnect_end_the_loop() {
    assert!(matches!(next_step(ControlPoll::Stop), LoopStep::Exit));
    assert!(matches!(next_step(ControlPoll::Disconnected), LoopStep::Exit));
    assert!(matches!(next_step(ControlPoll::SetTuning), LoopStep::ApplyTuning));
    assert!(matches!(next_step(ControlPoll::Empty), LoopStep::ProcessFrame));
}

#[test]
fn empty_reads_wait() {
    assert!(!frame_has_samples(0));
    assert!(frame_has_samples(1));
}

#[test]
fn a_frame_is_written_in_full() {
    let mut w = FrameWriter::new(2048);
    assert!(!w.is_done());
    assert_eq!(w.pending(), (0, 2048));
    assert!(matches!(w.record(WriteResult::Wrote(1000)), WriteStep::Continue));
    assert_eq!(w.pending(), (1000, 2048));
    assert!(matches!(w.record(WriteResult::Failed(UNDERRUN)), WriteStep::Recover));
    assert_eq!(w.pending(), (1000, 2048));
    assert!(matches!(w.record(WriteResult::Wrote(1048)), WriteStep::Continue));
    assert!(w.is_done());
}

#[test]
fn other_write_failures_abort() {
    let mut w = FrameWriter::new(10);
    assert!(matches!(w.record(WriteResult::Failed(-5)), WriteStep::Abort));
    assert!(FrameWriter::new(0).is_done());
}

#[test]
fn streams_start_after_the_first_frame_only() {
    let mut s = StreamStarter::new();
    let p = s.after_frame(false, true);
    assert!(p.start_output);
    assert!(!p.start_input);
    let p = s.after_frame(false, false);
    assert!(!p.start_output);
    assert!(!p.start_input);
}

#[test]
fn nop_effect_is_made() {
    let _e: NopEffect = NopEffect::new();
}

#[test]
fn queued_tunings_are_applied_in_order_before_the_frame() {
    let polls = vec![ControlPoll::SetTuning, ControlPoll::SetTuning, ControlPoll::Empty];
    let mut steps = Vec::new();
    for p in polls {
        let s = next_step(p);
        let ends = !matches!(s, LoopStep::ApplyTuning);
        steps.push(s);
        if ends {
            break;
        }
    }
    assert_eq!(steps.len(), 3);
    assert!(matches!(steps[0], LoopStep::ApplyTuning));
    assert!(matches!(steps[1], LoopStep::ApplyTuning));
    assert!(matches!(steps[2], LoopStep::ProcessFrame));
}

#[test]
fn frame_writes_are_contiguous_across_underruns() {
    let mut w = FrameWriter::new(10);
    let mut ranges = Vec::new();
    for result in vec![
        WriteResult::Wrote(4),
        WriteResult::Failed(UNDERRUN),
        WriteResult::Wrote(3),
        WriteResult::Wrote(3),
    ] {
        let (from, to) = w.pending();
        let n = if let WriteResult::Wrote(n) = result { n } else { 0 };
        if n > 0 {
            ranges.push((from, from + n));
        }
        assert!(from + n <= to);
        w.record(result);
    }
    assert_eq!(ranges, vec![(0, 4), (4, 7), (7, 10)]);
    assert!(w.is_done());
}
