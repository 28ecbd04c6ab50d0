//! When the typesetting view asks the worker for a fresh preview. It checks
//! once per frame, after every settings section had its chance to mark the
//! preview stale, and picks the cheapest request that brings it up to date.
use vstd::prelude::*;

use crate::text::{chars_of, trim, trim_chars};

verus! {

/// Where an imported document stands.
#[derive(Clone, Copy, Debug, PartialEq, Eq, Structural)]
pub enum ImportProgress {
    /// No document was imported; the preview comes from the editable text.
    NotImported,
    /// The import is converted and its `Typst` body is at hand.
    Converted,
    /// The import was restored from a saved project and still has to be
    /// converted again from its stored HTML; the flag says whether that was
    /// asked for already.
    Restored { reconvert_requested: bool },
}

/// The request sent to the worker, if any.
#[derive(Clone, Copy, Debug, PartialEq, Eq, Structural)]
pub enum PreviewRequest {
    Nothing,
    /// Compile the converted import again with the current settings.
    CompileImported,
    /// Convert the restored import's HTML again, then compile it.
    Reconvert,
    /// Typeset the editable text with the current settings.
    GeneratePreview,
}

/// The view's preview bookkeeping.
#[derive(Clone, Copy, Debug, PartialEq, Eq, Structural)]
pub struct PreviewTrigger {
    /// A setting or the text changed since the last request.
    pub needs_regeneration: bool,
    pub import: ImportProgress,
}

/// The request for `t`, and the bookkeeping after it is sent, given whether
/// the editable text is blank. A converted import is recompiled when stale;
/// a restored one is reconverted once, whatever else changed; blank text is
/// never typeset.
pub open spec fn regeneration(t: PreviewTrigger, blank_text: bool) -> (PreviewTrigger, PreviewRequest) {
    match t.import {
        ImportProgress::Converted => if t.needs_regeneration {
            (PreviewTrigger { needs_regeneration: false, ..t }, PreviewRequest::CompileImported)
        } else {
            (t, PreviewRequest::Nothing)
        },
        ImportProgress::Restored { reconvert_requested } => if !reconvert_requested {
            (
                PreviewTrigger {
                    needs_regeneration: false,
                    import: ImportProgress::Restored { reconvert_requested: true },
                },
                PreviewRequest::Reconvert,
            )
        } else {
            (t, PreviewRequest::Nothing)
        },
        ImportProgress::NotImported => if t.needs_regeneration && !blank_text {
            (PreviewTrigger { needs_regeneration: false, ..t }, PreviewRequest::GeneratePreview)
        } else {
            (t, PreviewRequest::Nothing)
        },
    }
}

/// A restored import is converted again at most once: whatever changes
/// after the first check, later checks send no second reconversion.
pub proof fn restored_import_reconverts_once(
    t: PreviewTrigger,
    blank_first: bool,
    blank_then: bool,
    stale_then: bool,
)
    requires
        t.import is Restored,
    ensures
        (regeneration(t, blank_first).1 == PreviewRequest::Reconvert) == (t.import
            == ImportProgress::Restored { reconvert_requested: false }),
        regeneration(
            PreviewTrigger { needs_regeneration: stale_then, ..regeneration(t, blank_first).0 },
            blank_then,
        ).1 == PreviewRequest::Nothing,
{
}

/// Every request sent leaves the preview marked up to date.
pub proof fn a_request_clears_staleness(t: PreviewTrigger, blank_text: bool)
    requires
        regeneration(t, blank_text).1 != PreviewRequest::Nothing,
    ensures
        !regeneration(t, blank_text).0.needs_regeneration,
{
}

impl PreviewTrigger {
    /// Decides this frame's request for the editable text `source_text` and
    /// updates the bookkeeping as if it were sent.
    pub fn maybe_regenerate(&mut self, source_text: &str) -> (r: PreviewRequest)
        ensures
            (*final(self), r) == regeneration(*old(self), trim(source_text@).len() == 0),
    {
        match self.import {
            ImportProgress::Converted => {
                if self.needs_regeneration {
                    self.needs_regeneration = false;
                    PreviewRequest::CompileImported
                } else {
                    PreviewRequest::Nothing
                }
            },
            ImportProgress::Restored { reconvert_requested } => {
                if !reconvert_requested {
                    self.import = ImportProgress::Restored { reconvert_requested: true };
                    self.needs_regeneration = false;
                    PreviewRequest::Reconvert
                } else {
                    PreviewRequest::Nothing
                }
            },
            ImportProgress::NotImported => {
                if self.needs_regeneration && trim_chars(&chars_of(source_text)).len() != 0 {
                    self.needs_regeneration = false;
                    PreviewRequest::GeneratePreview
                } else {
                    PreviewRequest::Nothing
                }
            },
        }
    }
}

} // verus!
