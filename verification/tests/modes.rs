use codescout::config::modes::{Context, Mode};

#[test]
fn default_mode_is_interactive() {
    assert_eq!(Mode::default(), Mode::Interactive);
}

#[test]
fn default_context_is_agent() {
    assert_eq!(Context::default(), Context::Agent);
}

#[test]
fn modes_compare_by_variant() {
    assert_ne!(Mode::Planning, Mode::Editing);
    assert_eq!(Mode::OneShot.clone(), Mode::OneShot);
    assert_ne!(Context::DesktopApp, Context::IdeAssistant);
}
