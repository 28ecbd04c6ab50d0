use print_typeset::fonts::{default_serif, sorted_families};

fn names(v: &[&str]) -> Vec<String> {
    v.iter().map(|s| s.to_string()).collect()
}

#[test]
fn families_are_sorted_by_code_point_without_repeats() {
    let got = sorted_families(names(&["b", "a", "b", "A", "é", "ab", "a"]));
    assert_eq!(got, names(&["A", "a", "ab", "b", "é"]));
    // Byte order of UTF-8 is the order of `String`'s `Ord`.
    let mut expected = names(&["b", "a", "b", "A", "é", "ab", "a"]);
    expected.sort();
    expected.dedup();
    assert_eq!(got, expected);
}

#[test]
fn no_families_give_an_empty_list() {
    assert!(sorted_families(Vec::new()).is_empty());
}

#[test]
fn default_serif_is_the_first_installed_preference() {
    let installed = names(&["DejaVu Serif", "georgia", "Noto Sans"]);
    assert_eq!(default_serif(&installed), Some("Georgia".to_string()));
    let installed = names(&["DEJAVU SERIF"]);
    assert_eq!(default_serif(&installed), Some("DejaVu Serif".to_string()));
}

#[test]
fn no_preferred_serif_installed_gives_none() {
    assert_eq!(default_serif(&names(&["Noto Sans", "Arial"])), None);
    assert_eq!(default_serif(&Vec::new()), None);
}
