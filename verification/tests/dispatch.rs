use print_typeset::dispatch::{CommandKind, Dispatcher, QueuedCommand, Step, WorkerAction};

fn cmd(kind: CommandKind, id: u64) -> QueuedCommand {
    QueuedCommand { kind, id }
}

fn poll() -> Step {
    Step { action: WorkerAction::Poll, dropped: None }
}

fn run(id: u64) -> Step {
    Step { action: WorkerAction::Run(id), dropped: None }
}

fn wait() -> Step {
    Step { action: WorkerAction::Wait, dropped: None }
}

fn drop_and_poll(id: u64) -> Step {
    Step { action: WorkerAction::Poll, dropped: Some(id) }
}

#[test]
fn plain_commands_run_at_once() {
    let mut d = Dispatcher::new(true);
    assert_eq!(d.arrived(cmd(CommandKind::ImposeLoad, 1)), run(1));
    assert_eq!(d.finished(), wait());
}

#[test]
fn only_the_newest_preview_is_rendered() {
    let mut d = Dispatcher::new(true);
    assert_eq!(d.arrived(cmd(CommandKind::ImposeGeneratePreview, 1)), poll());
    assert_eq!(d.arrived(cmd(CommandKind::ImposeGeneratePreview, 2)), drop_and_poll(1));
    assert_eq!(d.arrived(cmd(CommandKind::ImposeGeneratePreview, 3)), drop_and_poll(2));
    assert_eq!(d.queue_empty(), run(3));
    assert_eq!(d.finished(), wait());
}

#[test]
fn other_commands_run_before_the_pending_preview() {
    let mut d = Dispatcher::new(true);
    assert_eq!(d.arrived(cmd(CommandKind::TypesetGeneratePreview, 1)), poll());
    assert_eq!(d.arrived(cmd(CommandKind::TypesetGenerate, 2)), run(2));
    assert_eq!(d.finished(), poll());
    assert_eq!(d.arrived(cmd(CommandKind::TypesetGeneratePreview, 3)), drop_and_poll(1));
    assert_eq!(d.queue_empty(), run(3));
    assert_eq!(d.finished(), wait());
}

#[test]
fn prefetches_are_dropped_behind_a_page_render() {
    let mut d = Dispatcher::new(true);
    assert_eq!(d.arrived(cmd(CommandKind::ViewerRenderPage, 1)), poll());
    assert_eq!(d.arrived(cmd(CommandKind::ViewerPrefetchPages, 2)), drop_and_poll(2));
    assert_eq!(d.arrived(cmd(CommandKind::ViewerRenderPage, 3)), drop_and_poll(1));
    assert_eq!(d.arrived(cmd(CommandKind::ViewerPrefetchPages, 4)), drop_and_poll(4));
    assert_eq!(d.queue_empty(), run(3));
}

#[test]
fn without_a_viewer_page_renders_run_at_once() {
    let mut d = Dispatcher::new(false);
    assert_eq!(d.arrived(cmd(CommandKind::ViewerRenderPage, 1)), run(1));
    assert_eq!(d.finished(), wait());
}

#[test]
fn a_different_preview_opens_a_nested_drain() {
    let mut d = Dispatcher::new(true);
    assert_eq!(d.arrived(cmd(CommandKind::ImposeGeneratePreview, 1)), poll());
    assert_eq!(d.arrived(cmd(CommandKind::TypesetCompileImported, 2)), poll());
    assert_eq!(d.arrived(cmd(CommandKind::TypesetCompileImported, 3)), drop_and_poll(2));
    assert_eq!(d.queue_empty(), run(3));
    assert_eq!(d.finished(), poll());
    assert_eq!(d.arrived(cmd(CommandKind::ImposeGeneratePreview, 4)), drop_and_poll(1));
    assert_eq!(d.queue_empty(), run(4));
    assert_eq!(d.finished(), wait());
    assert_eq!(d.queue_empty(), wait());
}

#[test]
fn a_mixed_queue_runs_others_in_order_then_the_newest_preview() {
    let mut d = Dispatcher::new(true);
    assert_eq!(d.arrived(cmd(CommandKind::ImposeGeneratePreview, 1)), poll());
    assert_eq!(d.arrived(cmd(CommandKind::ImposeLoad, 2)), run(2));
    assert_eq!(d.finished(), poll());
    assert_eq!(d.arrived(cmd(CommandKind::ImposeGeneratePreview, 3)), drop_and_poll(1));
    assert_eq!(d.arrived(cmd(CommandKind::TypesetGenerate, 4)), run(4));
    assert_eq!(d.finished(), poll());
    assert_eq!(d.queue_empty(), run(3));
    assert_eq!(d.finished(), wait());
}
