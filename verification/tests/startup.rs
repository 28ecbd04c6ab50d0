use print_typeset::startup::{Mode, StartupBehavior, StartupSettings};

#[test]
fn recent_projects_are_deduplicated_and_capped() {
    let mut s = StartupSettings::default();
    for i in 0..10 {
        s.push_recent_project(format!("/p/{i}"));
    }
    assert_eq!(s.recent_projects.len(), 8);
    assert_eq!(s.recent_projects[0], "/p/9");
    s.push_recent_project("/p/5".to_string());
    assert_eq!(s.recent_projects[0], "/p/5");
    assert_eq!(s.recent_projects.iter().filter(|p| *p == "/p/5").count(), 1);
    assert_eq!(s.recent_projects.len(), 8);
}

#[test]
fn initial_mode_follows_behavior() {
    let mut s = StartupSettings::default();
    s.last_mode = Mode::Impose;
    s.default_mode = Mode::Typesetting;
    assert_eq!(s.initial_mode(), Mode::Impose);
    assert!(s.should_show_on_launch());
    s.behavior = StartupBehavior::AlwaysUse;
    assert_eq!(s.initial_mode(), Mode::Typesetting);
    assert!(!s.should_show_on_launch());
    s.behavior = StartupBehavior::UseLast;
    assert_eq!(s.initial_mode(), Mode::Impose);
}
