//! The decisions of the sound loop. The loop itself, which reads audio
//! frames, runs the effect and writes the frames back, lives with the audio
//! device; at each step it asks this module what to do next.
use vstd::prelude::*;

verus! {

/// What a non-blocking receive on the loop's control channel produced.
pub enum ControlPoll {
    /// A request to stop the loop.
    Stop,
    /// A request to retune the effect.
    SetTuning,
    /// No message is waiting.
    Empty,
    /// Every sender has gone away.
    Disconnected,
}

/// What the loop does after a receive.
pub enum LoopStep {
    /// Leave the loop for good.
    Exit,
    /// Hand the tuning to the effect, then receive again.
    ApplyTuning,
    /// The channel is drained: process one audio frame, then receive again.
    ProcessFrame,
}

pub open spec fn spec_next_step(poll: ControlPoll) -> LoopStep {
    match poll {
        ControlPoll::Stop => LoopStep::Exit,
        ControlPoll::Disconnected => LoopStep::Exit,
        ControlPoll::SetTuning => LoopStep::ApplyTuning,
        ControlPoll::Empty => LoopStep::ProcessFrame,
    }
}

/// The step that follows a receive: all waiting messages are handled before
/// a frame is processed, and a stop request or a closed channel ends the
/// loop.
pub fn next_step(poll: ControlPoll) -> (step: LoopStep)
    ensures
        step == spec_next_step(poll),
        step is Exit <==> (poll is Stop || poll is Disconnected),
{
    match poll {
        ControlPoll::Stop => LoopStep::Exit,
        ControlPoll::Disconnected => LoopStep::Exit,
        ControlPoll::SetTuning => LoopStep::ApplyTuning,
        ControlPoll::Empty => LoopStep::ProcessFrame,
    }
}

/// The steps one round of the loop takes on the messages `polls`, received
/// in that order: one step per message received, until a step other than
/// applying a tuning ends the round.
pub open spec fn round_steps(polls: Seq<ControlPoll>) -> Seq<LoopStep>
    decreases polls.len(),
{
    if polls.len() == 0 {
        Seq::empty()
    } else if spec_next_step(polls[0]) is ApplyTuning {
        seq![LoopStep::ApplyTuning] + round_steps(polls.drop_first())
    } else {
        seq![spec_next_step(polls[0])]
    }
}

/// Tuning requests queued before the channel runs empty are each applied
/// once, in the order they were sent, and only then is a frame processed.
pub proof fn law_queued_tunings_applied_in_order_before_frame(polls: Seq<ControlPoll>, j: int)
    requires
        0 <= j < polls.len(),
        forall|i: int| 0 <= i < j ==> #[trigger] polls[i] is SetTuning,
        polls[j] is Empty,
    ensures
        round_steps(polls).len() == j + 1,
        forall|i: int| 0 <= i < j ==> #[trigger] round_steps(polls)[i] is ApplyTuning,
        round_steps(polls)[j] is ProcessFrame,
    decreases j,
{
    if j > 0 {
        let rest = polls.drop_first();
        assert(polls[0] is SetTuning);
        assert forall|i: int| 0 <= i < j - 1 implies #[trigger] rest[i] is SetTuning by {
            assert(rest[i] == polls[i + 1]);
        }
        law_queued_tunings_applied_in_order_before_frame(rest, j - 1);
        let steps = round_steps(polls);
        assert(steps == seq![LoopStep::ApplyTuning] + round_steps(rest));
        assert forall|i: int| 0 <= i < j implies #[trigger] steps[i] is ApplyTuning by {
            if i > 0 {
                assert(steps[i] == round_steps(rest)[i - 1]);
            }
        }
    }
}

/// A stop request or a closed channel ends the loop without another frame:
/// the tuning requests before it are applied in order, and nothing after
/// it is received.
pub proof fn law_stop_ends_the_loop(polls: Seq<ControlPoll>, j: int)
    requires
        0 <= j < polls.len(),
        forall|i: int| 0 <= i < j ==> #[trigger] polls[i] is SetTuning,
        polls[j] is Stop || polls[j] is Disconnected,
    ensures
        round_steps(polls).len() == j + 1,
        forall|i: int| 0 <= i < j ==> #[trigger] round_steps(polls)[i] is ApplyTuning,
        round_steps(polls)[j] is Exit,
    decreases j,
{
    if j > 0 {
        let rest = polls.drop_first();
        assert(polls[0] is SetTuning);
        assert forall|i: int| 0 <= i < j - 1 implies #[trigger] rest[i] is SetTuning by {
            assert(rest[i] == polls[i + 1]);
        }
        law_stop_ends_the_loop(rest, j - 1);
        let steps = round_steps(polls);
        assert(steps == seq![LoopStep::ApplyTuning] + round_steps(rest));
        assert forall|i: int| 0 <= i < j implies #[trigger] steps[i] is ApplyTuning by {
            if i > 0 {
                assert(steps[i] == round_steps(rest)[i - 1]);
            }
        }
    }
}

/// Whether a frame of `num_read` samples is processed: an empty read makes
/// the loop wait for the device instead.
pub fn frame_has_samples(num_read: usize) -> (b: bool)
    ensures
        b == (num_read > 0),
{
    num_read != 0
}

/// The error code the device reports for an output underrun (`-EPIPE`).
pub const UNDERRUN: i32 = -32;

/// What a write of part of a frame to the output device gave.
pub enum WriteResult {
    /// This many samples were written.
    Wrote(usize),
    /// The write failed with this error code.
    Failed(i32),
}

/// What the loop does after a write.
pub enum WriteStep {
    /// Write what is left, if anything.
    Continue,
    /// The output underran: prepare the device again, then write what is left.
    Recover,
    /// Any other failure: the loop cannot go on.
    Abort,
}

/// The samples written so far after a write that gave `result`, when
/// `written` had been written before it.
pub open spec fn written_after(written: nat, result: WriteResult) -> nat {
    match result {
        WriteResult::Wrote(n) => (written + n) as nat,
        WriteResult::Failed(_) => written,
    }
}

/// The samples written after the writes that gave `results`, in order,
/// starting from `written`.
pub open spec fn written_after_all(written: nat, results: Seq<WriteResult>) -> nat
    decreases results.len(),
{
    if results.len() == 0 {
        written
    } else {
        written_after_all(written_after(written, results[0]), results.drop_first())
    }
}

/// The ranges of samples that the writes giving `results` put out, starting
/// from `written`: each write starts at the first sample not yet written and
/// covers as many samples as it reports; a failed write covers none.
pub open spec fn written_spans(written: nat, results: Seq<WriteResult>) -> Seq<(nat, nat)>
    decreases results.len(),
{
    if results.len() == 0 {
        Seq::empty()
    } else {
        match results[0] {
            WriteResult::Wrote(n) => seq![(written, (written + n) as nat)] + written_spans(
                (written + n) as nat,
                results.drop_first(),
            ),
            WriteResult::Failed(_) => written_spans(written, results.drop_first()),
        }
    }
}

/// The writes of a frame cover the samples from the start, one after the
/// other with no gap and no overlap, across underruns and recoveries: the
/// first range starts where writing started, each range starts where the
/// one before it ended, and the last ends at the count of samples written.
pub proof fn law_frame_written_contiguously(written: nat, results: Seq<WriteResult>)
    ensures
        written_spans(written, results).len() > 0 ==> written_spans(written, results)[0].0
            == written,
        forall|k: int|
            0 <= k < written_spans(written, results).len() - 1 ==> (#[trigger] written_spans(
                written,
                results,
            )[k]).1 == written_spans(written, results)[k + 1].0,
        forall|k: int|
            0 <= k < written_spans(written, results).len() ==> (#[trigger] written_spans(
                written,
                results,
            )[k]).0 <= written_spans(written, results)[k].1,
        written_spans(written, results).len() > 0 ==> written_spans(written, results).last().1
            == written_after_all(written, results),
        written_spans(written, results).len() == 0 ==> written_after_all(written, results)
            == written,
        written_after_all(written, results) >= written,
    decreases results.len(),
{
    if results.len() > 0 {
        let rest = results.drop_first();
        let next = written_after(written, results[0]);
        law_frame_written_contiguously(next, rest);
        let tail = written_spans(next, rest);
        match results[0] {
            WriteResult::Wrote(n) => {
                let spans = written_spans(written, results);
                assert(spans == seq![(written, (written + n) as nat)] + tail);
                assert forall|k: int| 0 <= k < spans.len() - 1 implies (#[trigger] spans[k]).1
                    == spans[k + 1].0 by {
                    if k > 0 {
                        assert(spans[k] == tail[k - 1]);
                    }
                }
                assert forall|k: int| 0 <= k < spans.len() implies (#[trigger] spans[k]).0
                    <= spans[k].1 by {
                    if k > 0 {
                        assert(spans[k] == tail[k - 1]);
                    }
                }
            },
            WriteResult::Failed(_) => {},
        }
    }
}

/// When no write puts out more samples than were still pending, as the
/// device's write never does, the samples written never go past the frame's
/// end: the frame is done exactly when all of `[0, frame_len)` is written.
pub proof fn law_frame_written_exactly(frame_len: nat, written: nat, results: Seq<WriteResult>)
    requires
        written <= frame_len,
        forall|i: int|
            0 <= i < results.len() ==> (#[trigger] results[i] matches WriteResult::Wrote(n)
                ==> written_after_all(written, results.take(i)) + n <= frame_len),
    ensures
        written_after_all(written, results) <= frame_len,
    decreases results.len(),
{
    if results.len() > 0 {
        let rest = results.drop_first();
        let next = written_after(written, results[0]);
        assert(results.take(0) =~= Seq::<WriteResult>::empty());
        assert(results[0] matches WriteResult::Wrote(n) ==> written_after_all(written, results.take(0)) + n <= frame_len);
        assert forall|i: int|
            0 <= i < rest.len() implies (#[trigger] rest[i] matches WriteResult::Wrote(n)
                ==> written_after_all(next, rest.take(i)) + n <= frame_len) by {
            let t = results.take(i + 1);
            assert(t.drop_first() =~= rest.take(i));
            assert(t[0] == results[0]);
            assert(written_after_all(written, t) == written_after_all(next, rest.take(i)));
            assert(rest[i] == results[i + 1]);
        }
        law_frame_written_exactly(frame_len, next, rest);
    }
}

/// The progress of writing one frame of `num_read` samples to the output.
pub struct FrameWriter {
    num_read: usize,
    num_written: usize,
}

impl FrameWriter {
    /// Samples in the frame.
    pub closed spec fn frame_len(&self) -> nat {
        self.num_read as nat
    }

    /// Samples written so far.
    pub closed spec fn written(&self) -> nat {
        self.num_written as nat
    }

    /// A writer for a frame of `num_read` samples, none written yet.
    pub fn new(num_read: usize) -> (w: FrameWriter)
        ensures
            w.frame_len() == num_read,
            w.written() == 0,
    {
        FrameWriter { num_read, num_written: 0 }
    }

    /// Whether the whole frame has been written.
    pub fn is_done(&self) -> (b: bool)
        ensures
            b == (self.written() >= self.frame_len()),
    {
        self.num_written >= self.num_read
    }

    /// The range of samples still to write.
    pub fn pending(&self) -> (range: (usize, usize))
        requires
            self.written() < self.frame_len(),
        ensures
            range.0 == self.written(),
            range.1 == self.frame_len(),
            range.0 < range.1,
    {
        (self.num_written, self.num_read)
    }

    /// Records the outcome of a write and says what to do next. Written
    /// samples count towards the frame; an underrun is recovered from and
    /// any other failure aborts. The count must stay within `usize`.
    pub fn record(&mut self, result: WriteResult) -> (step: WriteStep)
        requires
            result matches WriteResult::Wrote(n) ==> old(self).written() + n <= usize::MAX,
        ensures
            final(self).frame_len() == old(self).frame_len(),
            final(self).written() == written_after(old(self).written(), result),
            match result {
                WriteResult::Wrote(n) => {
                    &&& final(self).written() == old(self).written() + n
                    &&& step is Continue
                },
                WriteResult::Failed(code) => {
                    &&& final(self).written() == old(self).written()
                    &&& (code == UNDERRUN ==> step is Recover)
                    &&& (code != UNDERRUN ==> step is Abort)
                },
            },
    {
        match result {
            WriteResult::Wrote(n) => {
                self.num_written = self.num_written + n;
                WriteStep::Continue
            },
            WriteResult::Failed(code) => {
                if code == UNDERRUN {
                    WriteStep::Recover
                } else {
                    WriteStep::Abort
                }
            },
        }
    }
}

/// Which audio streams to start after a frame.
pub struct StartPlan {
    pub start_output: bool,
    pub start_input: bool,
}

/// The plan after a frame: only after the first frame, and only the streams
/// that are not running yet.
pub open spec fn start_plan(first_frame: bool, output_running: bool, input_running: bool) -> StartPlan {
    StartPlan {
        start_output: first_frame && !output_running,
        start_input: first_frame && !input_running,
    }
}

/// Remembers whether the first frame has gone through, when the streams are
/// started.
pub struct StreamStarter {
    first_frame: bool,
}

impl StreamStarter {
    /// True until the first frame has been processed.
    pub closed spec fn awaits_first_frame(&self) -> bool {
        self.first_frame
    }

    /// A starter for a loop that has processed no frame yet.
    pub fn new() -> (s: StreamStarter)
        ensures
            s.awaits_first_frame(),
    {
        StreamStarter { first_frame: true }
    }

    /// Called after each frame with the streams' states; says which streams
    /// to start.
    pub fn after_frame(&mut self, output_running: bool, input_running: bool) -> (plan: StartPlan)
        ensures
            plan == start_plan(old(self).awaits_first_frame(), output_running, input_running),
            !final(self).awaits_first_frame(),
    {
        let first = self.first_frame;
        self.first_frame = false;
        StartPlan { start_output: first && !output_running, start_input: first && !input_running }
    }
}

/// Once the first frame is through, no stream is ever started again,
/// whatever state the streams are in.
pub proof fn law_streams_start_only_after_first_frame(
    starter: StreamStarter,
    output_running: bool,
    input_running: bool,
)
    requires
        !starter.awaits_first_frame(),
    ensures
        !start_plan(starter.awaits_first_frame(), output_running, input_running).start_output,
        !start_plan(starter.awaits_first_frame(), output_running, input_running).start_input,
{
}


/// A stream that is already running is never started again, whatever the
/// frame; a stream that is not running is started after the first frame.
pub proof fn law_running_streams_left_alone(
    first_frame: bool,
    output_running: bool,
    input_running: bool,
)
    ensures
        output_running ==> !start_plan(first_frame, output_running, input_running).start_output,
        input_running ==> !start_plan(first_frame, output_running, input_running).start_input,
        first_frame && !output_running ==> start_plan(
            first_frame,
            output_running,
            input_running,
        ).start_output,
        first_frame && !input_running ==> start_plan(
            first_frame,
            output_running,
            input_running,
        ).start_input,
{
}

} // verus!
