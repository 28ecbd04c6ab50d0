use print_typeset::file_list::{add_input_file, FileListEditor, FileListEdits};

fn names(v: &[&str]) -> Vec<String> {
    v.iter().map(|s| s.to_string()).collect()
}

#[test]
fn file_list_moves_and_removes_entries() {
    let mut files = names(&["a.pdf", "b.pdf", "c.pdf"]);
    let none = FileListEdits { move_up: None, move_down: None, remove: None };
    assert!(!FileListEditor::new(&mut files).apply(none));
    assert_eq!(files, names(&["a.pdf", "b.pdf", "c.pdf"]));

    let up = FileListEdits { move_up: Some(2), ..none };
    assert!(FileListEditor::new(&mut files).apply(up));
    assert_eq!(files, names(&["a.pdf", "c.pdf", "b.pdf"]));

    let down = FileListEdits { move_down: Some(0), ..none };
    assert!(FileListEditor::new(&mut files).apply(down));
    assert_eq!(files, names(&["c.pdf", "a.pdf", "b.pdf"]));

    let remove = FileListEdits { remove: Some(1), ..none };
    assert!(FileListEditor::new(&mut files).apply(remove));
    assert_eq!(files, names(&["c.pdf", "b.pdf"]));
}

#[test]
fn file_list_applies_edits_in_order() {
    let mut files = names(&["a", "b", "c", "d"]);
    let all = FileListEdits { move_up: Some(1), move_down: Some(2), remove: Some(0) };
    assert!(FileListEditor::new(&mut files).apply(all));
    assert_eq!(files, names(&["a", "d", "c"]));
}

#[test]
fn a_typeset_pdf_is_added_to_the_inputs_once() {
    let mut files = names(&["a.pdf"]);
    assert!(add_input_file(&mut files, "/tmp/book.pdf".to_string()));
    assert_eq!(files, names(&["a.pdf", "/tmp/book.pdf"]));
    assert!(!add_input_file(&mut files, "/tmp/book.pdf".to_string()));
    assert_eq!(files, names(&["a.pdf", "/tmp/book.pdf"]));
}
