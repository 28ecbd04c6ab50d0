//! The document behind a preview: which document it shows, how many pages it
//! has, the one rendered page held for display, the page the reader is on,
//! and where a request to change page takes the reader. Rendering happens in the worker; the bitmap of a finished
//! render is handed in here, and only ever shown for its own page.
//!
//! The bitmap type is the caller's (`B`); so is the page size in points,
//! which the caller keeps beside this state.
use vstd::prelude::*;

use crate::page_cache::DocumentId;

verus! {

/// The last page of a document of `total` pages (0 when it has none).
pub open spec fn last_page(total: nat) -> nat {
    if total == 0 {
        0
    } else {
        (total - 1) as nat
    }
}

/// Where a request for page `requested` takes a reader on page `current` of
/// a document of `total` pages: the requested page, or the last one if it
/// lies beyond; `None` when that is where the reader is already, so nothing
/// needs rendering.
pub fn page_to_show(current: usize, total: usize, requested: usize) -> (r: Option<usize>)
    ensures
        ({
            let target = if requested <= last_page(total as nat) {
                requested as nat
            } else {
                last_page(total as nat)
            };
            r == (if target == current {
                None
            } else {
                Some(target as usize)
            })
        }),
        total > 0 ==> (r matches Some(p) ==> p < total),
{
    let last = if total == 0 {
        0
    } else {
        total - 1
    };
    let target = if requested <= last {
        requested
    } else {
        last
    };
    if target == current {
        None
    } else {
        Some(target)
    }
}

/// A previewed document and its one display slot.
pub struct PreviewDoc<B> {
    doc_id: DocumentId,
    page_count: usize,
    slot: Option<(usize, B)>,
}

impl<B> PreviewDoc<B> {
    /// The document shown.
    pub closed spec fn doc(&self) -> DocumentId {
        self.doc_id
    }

    /// Its number of pages.
    pub closed spec fn pages(&self) -> nat {
        self.page_count as nat
    }

    /// The page held for display and its bitmap, if any.
    pub closed spec fn held(&self) -> Option<(usize, B)> {
        self.slot
    }

    /// A document of `page_count` pages with nothing rendered yet.
    pub fn new(doc_id: DocumentId, page_count: usize) -> (d: Self)
        ensures
            d.doc() == doc_id,
            d.pages() == page_count,
            d.held() is None,
    {
        PreviewDoc { doc_id, page_count, slot: None }
    }

    /// The number of pages.
    pub fn page_count(&self) -> (n: usize)
        ensures
            n == self.pages(),
    {
        self.page_count
    }

    /// The bitmap to show for `page`: the held one if it belongs to that page,
    /// so that a stale render never stands in for another page.
    pub fn page_bitmap(&self, page: usize) -> (r: Option<&B>)
        ensures
            r == (match self.held() {
                Some((p, b)) => if p == page {
                    Some(&b)
                } else {
                    None
                },
                None => None,
            }),
    {
        match &self.slot {
            Some((p, img)) => if *p == page {
                Some(img)
            } else {
                None
            },
            None => None,
        }
    }
}

/// An embedded preview: its document, the page the reader is on, and whether
/// it offers a Close button.
pub struct ViewerState<B> {
    doc: PreviewDoc<B>,
    current_page: usize,
    show_close_button: bool,
}

impl<B> ViewerState<B> {
    /// The document behind the preview.
    pub closed spec fn document(&self) -> PreviewDoc<B> {
        self.doc
    }

    /// The page the reader is on.
    pub closed spec fn page(&self) -> usize {
        self.current_page
    }

    /// Whether the preview offers a Close button.
    pub closed spec fn closable(&self) -> bool {
        self.show_close_button
    }

    /// The page the reader is on.
    pub fn current_page(&self) -> (p: usize)
        ensures
            p == self.page(),
    {
        self.current_page
    }

    /// Moves the reader to `page` (the widget's navigation).
    pub fn set_current_page(&mut self, page: usize)
        ensures
            final(self).page() == page,
            final(self).document() == old(self).document(),
            final(self).closable() == old(self).closable(),
    {
        self.current_page = page;
    }

    /// Whether the preview offers a Close button.
    pub fn show_close_button(&self) -> (b: bool)
        ensures
            b == self.closable(),
    {
        self.show_close_button
    }

    /// A preview of `page_count` pages of `doc_id`, on its first page.
    pub fn new(doc_id: DocumentId, page_count: usize, show_close_button: bool) -> (v: Self)
        ensures
            v.document().doc() == doc_id,
            v.document().pages() == page_count,
            v.document().held() is None,
            v.page() == 0,
            v.closable() == show_close_button,
    {
        ViewerState { doc: PreviewDoc::new(doc_id, page_count), current_page: 0, show_close_button }
    }

    /// The document shown (to route the worker's renders here).
    pub fn current_doc_id(&self) -> (id: DocumentId)
        ensures
            id == self.document().doc(),
    {
        self.doc.doc_id
    }

    /// The document's number of pages (to bound prefetching).
    pub fn total_pages(&self) -> (n: usize)
        ensures
            n == self.document().pages(),
    {
        self.doc.page_count
    }

    /// The document, for the widget that draws it.
    pub fn doc(&self) -> (d: &PreviewDoc<B>)
        ensures
            *d == self.document(),
    {
        &self.doc
    }

    /// Holds a finished render of `page_index` for display. `None` stands for
    /// a render whose pixels could not be turned into a bitmap: the slot then
    /// keeps what it had.
    pub fn set_rendered_page(&mut self, page_index: usize, bitmap: Option<B>)
        ensures
            final(self).document().doc() == old(self).document().doc(),
            final(self).document().pages() == old(self).document().pages(),
            final(self).document().held() == (match bitmap {
                Some(b) => Some((page_index, b)),
                None => old(self).document().held(),
            }),
            final(self).page() == old(self).page(),
            final(self).closable() == old(self).closable(),
    {
        if let Some(b) = bitmap {
            self.doc.slot = Some((page_index, b));
        }
    }

    /// Points the preview at a new document of `new_page_count` pages (a
    /// re-imposed preview, say): the held bitmap is dropped and the reader
    /// stays on the same page where it still exists, else on the last one.
    /// Returns the previous document, for the caller to free in the worker.
    pub fn update_for_new_document(&mut self, new_doc_id: DocumentId, new_page_count: usize) -> (old_id: DocumentId)
        ensures
            old_id == old(self).document().doc(),
            final(self).document().doc() == new_doc_id,
            final(self).document().pages() == new_page_count,
            final(self).document().held() is None,
            final(self).page() == (if old(self).page() + 1 <= new_page_count {
                old(self).page() as int
            } else if new_page_count == 0 {
                0
            } else {
                new_page_count - 1
            }),
            new_page_count > 0 ==> final(self).page() < new_page_count,
            final(self).closable() == old(self).closable(),
    {
        let old_id = self.doc.doc_id;
        self.doc = PreviewDoc::new(new_doc_id, new_page_count);
        let last = if new_page_count == 0 {
            0
        } else {
            new_page_count - 1
        };
        if self.current_page > last {
            self.current_page = last;
        }
        old_id
    }
}

} // verus!
