use print_typeset::page_cache::DocumentId;
use print_typeset::preview_doc::{page_to_show, ViewerState};

fn rgba(w: usize, h: usize) -> Vec<u8> {
    vec![0u8; w * h * 4]
}

#[test]
fn page_bitmap_only_for_current_slot_page() {
    let mut v: ViewerState<Vec<u8>> = ViewerState::new(DocumentId(1), 3, false);
    assert!(v.doc().page_bitmap(0).is_none());
    v.set_rendered_page(2, Some(rgba(10, 10)));
    assert!(v.doc().page_bitmap(2).is_some());
    assert!(
        v.doc().page_bitmap(0).is_none(),
        "a stale slot must not texture another page"
    );
}

#[test]
fn update_for_new_document_resets_and_clamps() {
    let mut v: ViewerState<Vec<u8>> = ViewerState::new(DocumentId(1), 10, false);
    v.set_current_page(8);
    v.set_rendered_page(8, Some(rgba(10, 10)));
    let old = v.update_for_new_document(DocumentId(2), 3);
    assert_eq!(old, DocumentId(1));
    assert_eq!(v.current_doc_id(), DocumentId(2));
    assert_eq!(v.total_pages(), 3);
    assert_eq!(v.current_page(), 2, "page clamped to the new last page");
    assert!(v.doc().page_bitmap(8).is_none(), "slot cleared for the new document");
}

#[test]
fn a_failed_conversion_keeps_the_held_page() {
    let mut v: ViewerState<Vec<u8>> = ViewerState::new(DocumentId(4), 5, true);
    v.set_rendered_page(1, Some(vec![1, 2, 3]));
    v.set_rendered_page(2, None);
    assert_eq!(v.doc().page_bitmap(1), Some(&vec![1, 2, 3]));
    assert!(v.doc().page_bitmap(2).is_none());
    assert!(v.show_close_button());
}

#[test]
fn switching_keeps_a_page_that_still_exists() {
    let mut v: ViewerState<u8> = ViewerState::new(DocumentId(1), 10, false);
    v.set_current_page(1);
    assert_eq!(v.update_for_new_document(DocumentId(2), 4), DocumentId(1));
    assert_eq!(v.current_page(), 1);
    assert_eq!(v.update_for_new_document(DocumentId(3), 0), DocumentId(2));
    assert_eq!(v.current_page(), 0);
    assert_eq!(v.doc().page_count(), 0);
}

#[test]
fn navigation_clamps_and_skips_the_current_page() {
    assert_eq!(page_to_show(0, 10, 3), Some(3));
    assert_eq!(page_to_show(3, 10, 3), None);
    assert_eq!(page_to_show(2, 10, 25), Some(9));
    assert_eq!(page_to_show(9, 10, 25), None);
    assert_eq!(page_to_show(0, 0, 4), None);
}
