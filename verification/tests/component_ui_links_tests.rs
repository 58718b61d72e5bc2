use harmony::component_ui_link::{ComponentUILink, UIUsageContext};
use harmony::component_ui_links::ComponentUILinkManager;

#[test]
fn test_add_and_get_links() {
    let mut manager = ComponentUILinkManager::new();

    let link = ComponentUILink::new(
        "button-primary".to_string(),
        "app-shell".to_string(),
        "src/ui/app-shell.html".to_string(),
        UIUsageContext::Template,
    );

    manager.add_link(link);

    let locations = manager.get_ui_locations("button-primary");
    assert_eq!(locations.len(), 1);
    assert_eq!(locations[0].ui_location, "app-shell");
}

#[test]
fn test_get_components_in_ui() {
    let mut manager = ComponentUILinkManager::new();

    manager.add_link(ComponentUILink::new(
        "button-primary".to_string(),
        "app-shell".to_string(),
        "src/ui/app-shell.html".to_string(),
        UIUsageContext::Template,
    ));

    manager.add_link(ComponentUILink::new(
        "icon-play".to_string(),
        "app-shell".to_string(),
        "src/ui/app-shell.html".to_string(),
        UIUsageContext::Template,
    ));

    let components = manager.get_components_in_ui("app-shell");
    assert_eq!(components.len(), 2);
}

#[test]
fn test_usage_count() {
    let mut manager = ComponentUILinkManager::new();

    manager.add_link(ComponentUILink::new(
        "button-primary".to_string(),
        "app-shell".to_string(),
        "src/ui/app-shell.html".to_string(),
        UIUsageContext::Template,
    ));

    manager.add_link(ComponentUILink::new(
        "button-primary".to_string(),
        "playback-view".to_string(),
        "src/ui/playback-view.html".to_string(),
        UIUsageContext::Template,
    ));

    assert_eq!(manager.get_usage_count("button-primary"), 2);
    assert_eq!(manager.get_usage_count("nonexistent"), 0);
}

#[test]
fn test_remove_component_links() {
    let mut manager = ComponentUILinkManager::new();
    manager.add_link(ComponentUILink::new(
        "button-primary".to_string(),
        "app-shell".to_string(),
        "src/ui/app-shell.html".to_string(),
        UIUsageContext::Template,
    ));
    assert_eq!(manager.get_usage_count("button-primary"), 1);

    manager.remove_component_links("button-primary");
    assert_eq!(manager.get_usage_count("button-primary"), 0);
    assert!(manager.get_ui_locations("button-primary").is_empty());

    // Removing an unknown component changes nothing and is safe.
    manager.remove_component_links("never-added");
}

#[test]
fn test_components_in_ui_filters_location() {
    let mut manager = ComponentUILinkManager::new();
    manager.add_link(ComponentUILink::new(
        "a".to_string(),
        "shell".to_string(),
        "shell.html".to_string(),
        UIUsageContext::Template,
    ));
    manager.add_link(ComponentUILink::new(
        "a".to_string(),
        "sidebar".to_string(),
        "sidebar.html".to_string(),
        UIUsageContext::DynamicImport,
    ));
    manager.add_link(ComponentUILink::new(
        "b".to_string(),
        "shell".to_string(),
        "shell.html".to_string(),
        UIUsageContext::WebComponentTag,
    ));

    let in_shell = manager.get_components_in_ui("shell");
    assert_eq!(in_shell.len(), 2);
    assert_eq!(in_shell[0].component_id, "a");
    assert_eq!(in_shell[1].component_id, "b");
    assert!(manager.get_components_in_ui("footer").is_empty());
}

#[test]
fn test_component_ui_link_creation() {
    let link = ComponentUILink::new(
        "button-primary".to_string(),
        "app-shell".to_string(),
        "src/ui/app-shell.html".to_string(),
        UIUsageContext::Template,
    );

    assert_eq!(link.component_id, "button-primary");
    assert_eq!(link.ui_location, "app-shell");
    assert_eq!(link.usage_context, UIUsageContext::Template);
}

#[test]
fn test_with_line_number() {
    let link = ComponentUILink::new(
        "button-primary".to_string(),
        "app-shell".to_string(),
        "src/ui/app-shell.html".to_string(),
        UIUsageContext::Template,
    )
    .with_line_number(42);

    assert_eq!(link.line_number, Some(42));
}
