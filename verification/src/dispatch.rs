//! The background worker's command queue. Rendering a preview is slow and the
//! interface can ask for a new one every frame, so when a preview (or a page
//! render) is taken from the queue the worker first drains what else is
//! queued: a newer request of the same kind replaces it, a prefetch queued
//! behind a page render is dropped, and anything else is handled on the spot,
//! before the pending request, whose own drain may nest in turn.
//!
//! The worker owns the channel and the commands; this module only decides. It
//! sees each command as its kind and an id that the worker chose, and answers
//! with a [`Step`]: what to do next, and which command was dropped, if any.
use vstd::prelude::*;

verus! {

/// The kinds of command the interface sends to the worker.
#[derive(Clone, Copy, Debug, PartialEq, Eq, Structural)]
pub enum CommandKind {
    FlashcardsLoadCsv,
    FlashcardsGenerate,
    ImposeLoad,
    ImposeProcess,
    ImposeGeneratePreview,
    ImposeGenerate,
    ImposeLoadConfig,
    ImposeCalculateStats,
    ViewerLoad,
    ViewerLoadBytes,
    ViewerRenderPage,
    ViewerPrefetchPages,
    ViewerClose,
    TypesetGeneratePreview,
    TypesetGenerate,
    TypesetSendToImpose,
    TypesetImport,
    TypesetReconvert,
    TypesetCompileImported,
    TypesetGenerateImported,
    TypesetSendImportedToImpose,
}

/// A command as the dispatcher sees it: its kind and the worker's id for it.
#[derive(Clone, Copy, Debug, PartialEq, Eq, Structural)]
pub struct QueuedCommand {
    pub kind: CommandKind,
    pub id: u64,
}

/// What the worker does next.
#[derive(Clone, Copy, Debug, PartialEq, Eq, Structural)]
pub enum WorkerAction {
    /// Try to take one more command from the queue without waiting, and report
    /// it with `arrived`, or report `queue_empty`.
    Poll,
    /// Run the handler of this command, then report `finished`.
    Run(u64),
    /// Nothing is pending: wait for the next command and report it with
    /// `arrived`.
    Wait,
}

/// The answer to one report: the next action, and the command that is to be
/// thrown away unhandled, if any.
#[derive(Clone, Copy, Debug, PartialEq, Eq)]
pub struct Step {
    pub action: WorkerAction,
    pub dropped: Option<u64>,
}

/// Whether taking a command of this kind starts a drain of the queue. Page
/// renders only do so where the build has a viewer.
pub open spec fn coalesces(viewer: bool, kind: CommandKind) -> bool {
    ||| kind == CommandKind::ImposeGeneratePreview
    ||| kind == CommandKind::TypesetGeneratePreview
    ||| kind == CommandKind::TypesetCompileImported
    ||| (viewer && kind == CommandKind::ViewerRenderPage)
}

/// The stack of pending requests is well formed: each one drains the queue,
/// and none sits right on top of one of its own kind (it would have replaced
/// it instead).
pub open spec fn frames_ok(viewer: bool, frames: Seq<QueuedCommand>) -> bool {
    &&& forall|i: int| 0 <= i < frames.len() ==> coalesces(viewer, #[trigger] frames[i].kind)
    &&& forall|i: int, j: int|
        0 <= i && j == i + 1 && j < frames.len() ==> #[trigger] frames[i].kind
            != #[trigger] frames[j].kind
}

/// The answer that drops the command `id` and polls on.
pub open spec fn dropping(id: u64) -> Step {
    Step { action: WorkerAction::Poll, dropped: Some(id) }
}

/// The answer that runs the command `id`.
pub open spec fn running(id: u64) -> Step {
    Step { action: WorkerAction::Run(id), dropped: None }
}

/// Taking `cmd` up: a draining kind becomes the new pending request and the
/// queue is polled; any other kind is run at once.
pub open spec fn begin(viewer: bool, frames: Seq<QueuedCommand>, cmd: QueuedCommand) -> (
    Seq<QueuedCommand>,
    Step,
) {
    if coalesces(viewer, cmd.kind) {
        (frames.push(cmd), Step { action: WorkerAction::Poll, dropped: None })
    } else {
        (frames, running(cmd.id))
    }
}

/// A command came from the queue. With nothing pending it is taken up. Else,
/// against the innermost pending request: one of the same kind replaces it
/// (the older one is dropped), a prefetch behind a page render is dropped,
/// and any other command is taken up before the pending one.
pub open spec fn on_arrival(viewer: bool, frames: Seq<QueuedCommand>, cmd: QueuedCommand) -> (
    Seq<QueuedCommand>,
    Step,
) {
    if frames.len() == 0 {
        begin(viewer, frames, cmd)
    } else {
        let top = frames.last();
        if cmd.kind == top.kind {
            (frames.update(frames.len() - 1, cmd), dropping(top.id))
        } else if top.kind == CommandKind::ViewerRenderPage && cmd.kind
            == CommandKind::ViewerPrefetchPages {
            (frames, dropping(cmd.id))
        } else {
            begin(viewer, frames, cmd)
        }
    }
}

/// The queue is empty: the innermost pending request, the latest of its kind,
/// is run; with nothing pending the worker waits.
pub open spec fn on_empty(frames: Seq<QueuedCommand>) -> (Seq<QueuedCommand>, Step) {
    if frames.len() == 0 {
        (frames, Step { action: WorkerAction::Wait, dropped: None })
    } else {
        (frames.drop_last(), running(frames.last().id))
    }
}

/// A handler returned: an enclosing drain goes on polling, else the worker
/// waits.
pub open spec fn on_finished(frames: Seq<QueuedCommand>) -> Step {
    if frames.len() == 0 {
        Step { action: WorkerAction::Wait, dropped: None }
    } else {
        Step { action: WorkerAction::Poll, dropped: None }
    }
}

/// The pending requests after `cmds` arrive one after another.
pub open spec fn fed(viewer: bool, frames: Seq<QueuedCommand>, cmds: Seq<QueuedCommand>) -> Seq<QueuedCommand>
    decreases cmds.len(),
{
    if cmds.len() == 0 {
        frames
    } else {
        fed(viewer, on_arrival(viewer, frames, cmds[0]).0, cmds.drop_first())
    }
}

/// The answers given while `cmds` arrive one after another.
pub open spec fn fed_steps(viewer: bool, frames: Seq<QueuedCommand>, cmds: Seq<QueuedCommand>) -> Seq<Step>
    decreases cmds.len(),
{
    if cmds.len() == 0 {
        Seq::empty()
    } else {
        seq![on_arrival(viewer, frames, cmds[0]).1] + fed_steps(
            viewer,
            on_arrival(viewer, frames, cmds[0]).0,
            cmds.drop_first(),
        )
    }
}

proof fn lemma_arrival_keeps_frames_ok(viewer: bool, frames: Seq<QueuedCommand>, cmd: QueuedCommand)
    requires
        frames_ok(viewer, frames),
    ensures
        frames_ok(viewer, on_arrival(viewer, frames, cmd).0),
{
    let after = on_arrival(viewer, frames, cmd).0;
    if frames.len() > 0 && cmd.kind == frames.last().kind {
        assert forall|i: int| 0 <= i < after.len() implies #[trigger] after[i].kind
            == frames[i].kind by {}
    }
}

/// While a request waits for the queue to drain, newer requests of its kind
/// replace it one by one, each dropping the one before, and when the queue
/// runs dry only the newest of them is run.
pub proof fn latest_request_wins(
    viewer: bool,
    frames: Seq<QueuedCommand>,
    cmds: Seq<QueuedCommand>,
)
    requires
        frames_ok(viewer, frames),
        frames.len() > 0,
        cmds.len() > 0,
        forall|i: int| 0 <= i < cmds.len() ==> #[trigger] cmds[i].kind == frames.last().kind,
    ensures
        fed(viewer, frames, cmds) == frames.update(frames.len() - 1, cmds.last()),
        fed_steps(viewer, frames, cmds).len() == cmds.len(),
        forall|i: int|
            0 <= i < cmds.len() ==> #[trigger] fed_steps(viewer, frames, cmds)[i] == dropping(
                (if i == 0 { frames.last().id } else { cmds[i - 1].id }),
            ),
        on_empty(fed(viewer, frames, cmds)) == (frames.drop_last(), running(cmds.last().id)),
    decreases cmds.len(),
{
    let first = on_arrival(viewer, frames, cmds[0]);
    lemma_arrival_keeps_frames_ok(viewer, frames, cmds[0]);
    assert(first.0 == frames.update(frames.len() - 1, cmds[0]));
    if cmds.len() > 1 {
        let rest = cmds.drop_first();
        assert forall|i: int| 0 <= i < rest.len() implies #[trigger] rest[i].kind
            == first.0.last().kind by {
            assert(rest[i] == cmds[i + 1]);
        }
        latest_request_wins(viewer, first.0, rest);
        assert(first.0.update(first.0.len() - 1, rest.last()) =~= frames.update(
            frames.len() - 1,
            cmds.last(),
        ));
        let steps = fed_steps(viewer, frames, cmds);
        let tail = fed_steps(viewer, first.0, rest);
        assert(steps == seq![first.1] + tail);
        assert forall|i: int| 0 <= i < cmds.len() implies #[trigger] steps[i] == dropping(
            (if i == 0 { frames.last().id } else { cmds[i - 1].id }),
        ) by {
            if i > 0 {
                assert(steps[i] == tail[i - 1]);
                if i > 1 {
                    assert(rest[i - 2] == cmds[i - 1]);
                }
            }
        }
    } else {
        let rest = cmds.drop_first();
        assert(rest.len() == 0);
        assert(fed(viewer, first.0, rest) == first.0);
        assert(fed_steps(viewer, first.0, rest) == Seq::<Step>::empty());
        assert(fed_steps(viewer, frames, cmds) =~= seq![first.1]);
    }
    let result = fed(viewer, frames, cmds);
    assert(result == frames.update(frames.len() - 1, cmds.last()));
    assert(result.drop_last() =~= frames.drop_last());
}

/// Nothing is lost on an arrival: the new command is run, dropped or left
/// pending, and every request that was pending stays pending unless it is
/// the one dropped.
pub proof fn arrivals_lose_nothing(viewer: bool, frames: Seq<QueuedCommand>, cmd: QueuedCommand)
    ensures
        ({
            let (after, step) = on_arrival(viewer, frames, cmd);
            &&& step.action == WorkerAction::Run(cmd.id) || step.dropped == Some(cmd.id)
                || after.contains(cmd)
            &&& forall|i: int|
                0 <= i < frames.len() ==> after.contains(#[trigger] frames[i]) || step.dropped
                    == Some(frames[i].id)
        }),
{
    let (after, step) = on_arrival(viewer, frames, cmd);
    if frames.len() > 0 && cmd.kind == frames.last().kind {
        assert(after[frames.len() - 1] == cmd);
        assert forall|i: int| 0 <= i < frames.len() implies after.contains(#[trigger] frames[i])
            || step.dropped == Some(frames[i].id) by {
            if i < frames.len() - 1 {
                assert(after[i] == frames[i]);
            }
        }
    } else if step.action != WorkerAction::Run(cmd.id) && step.dropped != Some(cmd.id) {
        assert(after == frames.push(cmd));
        assert(after[frames.len() as int] == cmd);
        assert forall|i: int| 0 <= i < frames.len() implies after.contains(#[trigger] frames[i]) by {
            assert(after[i] == frames[i]);
        }
    } else {
        assert forall|i: int| 0 <= i < frames.len() implies after.contains(#[trigger] frames[i]) by {
            assert(after[i] == frames[i]);
        }
    }
}

/// The commands run, in order, among a sequence of answers.
pub open spec fn ran(steps: Seq<Step>) -> Seq<u64>
    decreases steps.len(),
{
    if steps.len() == 0 {
        seq![]
    } else {
        let rest = ran(steps.drop_first());
        match steps[0].action {
            WorkerAction::Run(id) => seq![id] + rest,
            _ => rest,
        }
    }
}

/// Whether a request of kind `kind`, while it waits, absorbs `cmd`: a newer
/// request of its kind replaces it, and a prefetch behind a page render is
/// dropped.
pub open spec fn absorbs(kind: CommandKind, cmd: QueuedCommand) -> bool {
    cmd.kind == kind || (kind == CommandKind::ViewerRenderPage && cmd.kind
        == CommandKind::ViewerPrefetchPages)
}

/// The ids of the commands of `cmds` that a waiting request of kind `kind`
/// does not absorb, in order.
pub open spec fn passed_through(kind: CommandKind, cmds: Seq<QueuedCommand>) -> Seq<u64>
    decreases cmds.len(),
{
    if cmds.len() == 0 {
        seq![]
    } else {
        let rest = passed_through(kind, cmds.drop_first());
        if absorbs(kind, cmds[0]) {
            rest
        } else {
            seq![cmds[0].id] + rest
        }
    }
}

/// The newest request of `pending`'s kind among `cmds`, or `pending` itself.
pub open spec fn newest(pending: QueuedCommand, cmds: Seq<QueuedCommand>) -> QueuedCommand
    decreases cmds.len(),
{
    if cmds.len() == 0 {
        pending
    } else if cmds[0].kind == pending.kind {
        newest(cmds[0], cmds.drop_first())
    } else {
        newest(pending, cmds.drop_first())
    }
}

/// A waiting request drains a queue of commands that either it absorbs or
/// that start no drain of their own: those others are run once each, in
/// queue order, before it; then only the newest request of its kind is run,
/// and nothing is left pending.
pub proof fn the_queue_runs_in_order_then_the_newest_request(
    viewer: bool,
    pending: QueuedCommand,
    cmds: Seq<QueuedCommand>,
)
    requires
        coalesces(viewer, pending.kind),
        forall|i: int|
            0 <= i < cmds.len() ==> absorbs(pending.kind, #[trigger] cmds[i]) || !coalesces(
                viewer,
                cmds[i].kind,
            ),
    ensures
        fed(viewer, seq![pending], cmds) == seq![newest(pending, cmds)],
        ran(fed_steps(viewer, seq![pending], cmds)) == passed_through(pending.kind, cmds),
        on_empty(fed(viewer, seq![pending], cmds)) == (
            Seq::<QueuedCommand>::empty(),
            running(newest(pending, cmds).id),
        ),
    decreases cmds.len(),
{
    let frames = seq![pending];
    if cmds.len() == 0 {
        assert(frames.drop_last() =~= Seq::<QueuedCommand>::empty());
    } else {
        let c = cmds[0];
        let rest = cmds.drop_first();
        assert forall|i: int| 0 <= i < rest.len() implies absorbs(pending.kind, #[trigger] rest[i])
            || !coalesces(viewer, rest[i].kind) by {
            assert(rest[i] == cmds[i + 1]);
        }
        let first = on_arrival(viewer, frames, c);
        let next = if c.kind == pending.kind {
            c
        } else {
            pending
        };
        assert(frames.last() == pending);
        if c.kind == pending.kind {
            assert(first.0 =~= seq![c]);
        } else {
            assert(first.0 =~= frames);
        }
        assert(first.0 == seq![next]);
        assert forall|i: int| 0 <= i < rest.len() implies absorbs(next.kind, #[trigger] rest[i])
            || !coalesces(viewer, rest[i].kind) by {
            assert(absorbs(pending.kind, rest[i]) || !coalesces(viewer, rest[i].kind));
        }
        the_queue_runs_in_order_then_the_newest_request(viewer, next, rest);
        let steps = fed_steps(viewer, frames, cmds);
        let tail = fed_steps(viewer, first.0, rest);
        assert(steps == seq![first.1] + tail);
        assert(steps.drop_first() =~= tail);
        if absorbs(pending.kind, c) {
            assert(ran(steps) == ran(tail));
        } else {
            assert(first.1 == running(c.id));
            assert(ran(steps) == seq![c.id] + ran(tail));
        }
    }
}

/// Prefetches that arrive while a page render waits are dropped, each as it
/// comes, and leave the pending requests as they were.
pub proof fn prefetches_yield_to_a_pending_render(
    viewer: bool,
    frames: Seq<QueuedCommand>,
    cmds: Seq<QueuedCommand>,
)
    requires
        frames_ok(viewer, frames),
        frames.len() > 0,
        frames.last().kind == CommandKind::ViewerRenderPage,
        forall|i: int| 0 <= i < cmds.len() ==> #[trigger] cmds[i].kind == CommandKind::ViewerPrefetchPages,
    ensures
        fed(viewer, frames, cmds) == frames,
        fed_steps(viewer, frames, cmds).len() == cmds.len(),
        forall|i: int|
            0 <= i < cmds.len() ==> #[trigger] fed_steps(viewer, frames, cmds)[i] == dropping(
                cmds[i].id,
            ),
    decreases cmds.len(),
{
    if cmds.len() > 0 {
        let rest = cmds.drop_first();
        assert forall|i: int| 0 <= i < rest.len() implies #[trigger] rest[i].kind
            == CommandKind::ViewerPrefetchPages by {
            assert(rest[i] == cmds[i + 1]);
        }
        prefetches_yield_to_a_pending_render(viewer, frames, rest);
        let steps = fed_steps(viewer, frames, cmds);
        let tail = fed_steps(viewer, frames, rest);
        assert(steps == seq![on_arrival(viewer, frames, cmds[0]).1] + tail);
        assert forall|i: int| 0 <= i < cmds.len() implies #[trigger] steps[i] == dropping(
            cmds[i].id,
        ) by {
            if i > 0 {
                assert(steps[i] == tail[i - 1]);
                assert(rest[i - 1] == cmds[i]);
            }
        }
    }
}

/// Takes `cmd` up against the pending requests `frames`.
fn take_up(viewer: bool, frames: &mut Vec<QueuedCommand>, cmd: QueuedCommand) -> (step: Step)
    requires
        frames_ok(viewer, old(frames)@),
        old(frames)@.len() > 0 ==> old(frames)@.last().kind != cmd.kind,
    ensures
        final(frames)@ == begin(viewer, old(frames)@, cmd).0,
        step == begin(viewer, old(frames)@, cmd).1,
        frames_ok(viewer, final(frames)@),
{
    let coalescing = match cmd.kind {
        CommandKind::ImposeGeneratePreview => true,
        CommandKind::TypesetGeneratePreview => true,
        CommandKind::TypesetCompileImported => true,
        CommandKind::ViewerRenderPage => viewer,
        _ => false,
    };
    if coalescing {
        frames.push(cmd);
        Step { action: WorkerAction::Poll, dropped: None }
    } else {
        Step { action: WorkerAction::Run(cmd.id), dropped: None }
    }
}

/// Applies the arrival of `cmd` to the pending requests `frames`.
fn arrive(viewer: bool, frames: &mut Vec<QueuedCommand>, cmd: QueuedCommand) -> (step: Step)
    requires
        frames_ok(viewer, old(frames)@),
    ensures
        final(frames)@ == on_arrival(viewer, old(frames)@, cmd).0,
        step == on_arrival(viewer, old(frames)@, cmd).1,
        frames_ok(viewer, final(frames)@),
{
    let n = frames.len();
    if n == 0 {
        take_up(viewer, frames, cmd)
    } else {
        let top = frames[n - 1];
        if cmd.kind == top.kind {
            frames.set(n - 1, cmd);
            Step { action: WorkerAction::Poll, dropped: Some(top.id) }
        } else if top.kind == CommandKind::ViewerRenderPage && cmd.kind
            == CommandKind::ViewerPrefetchPages {
            Step { action: WorkerAction::Poll, dropped: Some(cmd.id) }
        } else {
            take_up(viewer, frames, cmd)
        }
    }
}

/// Decides, report by report, what the worker does with its queue.
pub struct Dispatcher {
    viewer: bool,
    frames: Vec<QueuedCommand>,
}

impl Dispatcher {
    #[verifier::type_invariant]
    spec fn well_formed(&self) -> bool {
        frames_ok(self.viewer, self.frames@)
    }

    /// Whether the build has a viewer, so that page renders are coalesced.
    pub closed spec fn viewer(&self) -> bool {
        self.viewer
    }

    /// The pending requests whose drains are under way, outermost first.
    pub closed spec fn pending(&self) -> Seq<QueuedCommand> {
        self.frames@
    }

    /// A dispatcher with nothing pending.
    pub fn new(viewer: bool) -> (d: Self)
        ensures
            d.viewer() == viewer,
            d.pending() == Seq::<QueuedCommand>::empty(),
    {
        Dispatcher { viewer, frames: Vec::new() }
    }

    /// Reports a command taken from the queue, by waiting or by polling.
    pub fn arrived(&mut self, cmd: QueuedCommand) -> (step: Step)
        ensures
            final(self).viewer() == old(self).viewer(),
            (final(self).pending(), step) == on_arrival(old(self).viewer(), old(self).pending(), cmd),
            frames_ok(final(self).viewer(), final(self).pending()),
    {
        proof {
            use_type_invariant(&*self);
        }
        let mut frames = Vec::new();
        std::mem::swap(&mut frames, &mut self.frames);
        let step = arrive(self.viewer, &mut frames, cmd);
        self.frames = frames;
        step
    }

    /// Reports that polling found the queue empty.
    pub fn queue_empty(&mut self) -> (step: Step)
        ensures
            final(self).viewer() == old(self).viewer(),
            (final(self).pending(), step) == on_empty(old(self).pending()),
            frames_ok(final(self).viewer(), final(self).pending()),
    {
        proof {
            use_type_invariant(&*self);
        }
        let mut frames = Vec::new();
        std::mem::swap(&mut frames, &mut self.frames);
        let step = match frames.pop() {
            Some(top) => Step { action: WorkerAction::Run(top.id), dropped: None },
            None => Step { action: WorkerAction::Wait, dropped: None },
        };
        self.frames = frames;
        step
    }

    /// Reports that the handler of the last `Run` returned.
    pub fn finished(&self) -> (step: Step)
        ensures
            step == on_finished(self.pending()),
            frames_ok(self.viewer(), self.pending()),
    {
        proof {
            use_type_invariant(self);
        }
        if self.frames.len() == 0 {
            Step { action: WorkerAction::Wait, dropped: None }
        } else {
            Step { action: WorkerAction::Poll, dropped: None }
        }
    }
}

} // verus!
