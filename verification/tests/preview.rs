use print_typeset::preview::{ImportProgress, PreviewRequest, PreviewTrigger};

fn trigger(stale: bool, import: ImportProgress) -> PreviewTrigger {
    PreviewTrigger { needs_regeneration: stale, import }
}

#[test]
fn edited_text_is_typeset_once() {
    let mut t = trigger(true, ImportProgress::NotImported);
    assert_eq!(t.maybe_regenerate("# Title\n\nBody"), PreviewRequest::GeneratePreview);
    assert!(!t.needs_regeneration);
    assert_eq!(t.maybe_regenerate("# Title\n\nBody"), PreviewRequest::Nothing);
}

#[test]
fn blank_text_is_not_typeset() {
    let mut t = trigger(true, ImportProgress::NotImported);
    assert_eq!(t.maybe_regenerate(" \n\t "), PreviewRequest::Nothing);
    assert!(t.needs_regeneration);
    assert_eq!(t.maybe_regenerate(""), PreviewRequest::Nothing);
}

#[test]
fn converted_import_recompiles_when_stale() {
    let mut t = trigger(false, ImportProgress::Converted);
    assert_eq!(t.maybe_regenerate(""), PreviewRequest::Nothing);
    t.needs_regeneration = true;
    assert_eq!(t.maybe_regenerate(""), PreviewRequest::CompileImported);
    assert_eq!(t, trigger(false, ImportProgress::Converted));
}

#[test]
fn restored_import_reconverts_only_once() {
    let mut t = trigger(false, ImportProgress::Restored { reconvert_requested: false });
    assert_eq!(t.maybe_regenerate("ignored"), PreviewRequest::Reconvert);
    assert_eq!(t, trigger(false, ImportProgress::Restored { reconvert_requested: true }));
    t.needs_regeneration = true;
    assert_eq!(t.maybe_regenerate("ignored"), PreviewRequest::Nothing);
    assert!(t.needs_regeneration);
}
