use app_shell::registry::{PanelDefinition, PanelRegistry};

#[test]
fn test_panel_definition() {
    let def = PanelDefinition::new("editor", "Code Editor").with_closable(false).with_maximizable(
        true,
    );

    assert_eq!(def.id, "editor");
    assert_eq!(def.title, "Code Editor");
    assert!(!def.closable);
    assert!(def.maximizable);
}

#[test]
fn test_registry_operations() {
    let mut registry = PanelRegistry::new();

    registry.register(PanelDefinition::new("files", "Files"));
    registry.register(PanelDefinition::new("editor", "Editor"));
    registry.register(PanelDefinition::new("console", "Console"));

    assert_eq!(registry.len(), 3);
    assert!(registry.get("files").is_some());
    assert!(registry.get("unknown").is_none());

    // Check order
    let ids: Vec<String> = registry.panel_ids();
    assert_eq!(ids, vec!["files", "editor", "console"]);

    // Remove
    registry.remove("editor");
    assert_eq!(registry.len(), 2);
    assert!(registry.get("editor").is_none());
}

#[test]
fn test_default_panels() {
    let registry = PanelRegistry::with_default_panels(9);
    assert_eq!(registry.len(), 9);
    assert!(registry.get("panel_0").is_some());
    assert!(registry.get("panel_8").is_some());
}

#[test]
fn test_footer_definition_flags() {
    let def = PanelDefinition::footer("timeline", "Timeline");
    assert_eq!(def.id, "timeline");
    assert_eq!(def.title, "Timeline");
    assert!(def.closable);
    assert!(!def.maximizable);
    assert!(def.fullscreenable);
}

#[test]
fn test_register_replaces_in_place() {
    let mut registry = PanelRegistry::new();
    registry.register(PanelDefinition::new("files", "Files"));
    registry.register(PanelDefinition::new("editor", "Editor"));
    registry.register(PanelDefinition::new("files", "File Browser"));

    assert_eq!(registry.len(), 2);
    let ids: Vec<String> = registry.panel_ids();
    assert_eq!(ids, vec!["files", "editor"]);
    assert_eq!(registry.get("files").unwrap().title, "File Browser");
}

#[test]
fn test_register_all_and_clear() {
    let mut registry = PanelRegistry::new();
    registry.register_all(vec![
        PanelDefinition::new("a", "A"),
        PanelDefinition::new("b", "B"),
    ]);
    assert_eq!(registry.len(), 2);
    assert!(!registry.is_empty());

    let panels = registry.panels();
    assert_eq!(panels.len(), 2);
    assert_eq!(panels[0].id, "a");
    assert_eq!(panels[1].id, "b");

    registry.clear();
    assert!(registry.is_empty());
    assert_eq!(registry.len(), 0);
}

#[test]
fn test_default_footer_panels() {
    let registry = PanelRegistry::with_default_footer_panels(7);
    assert_eq!(registry.len(), 7);
    let def = registry.get("footer_panel_6").unwrap();
    assert_eq!(def.title, "Footer 7");
    assert!(def.fullscreenable);
    assert!(!def.maximizable);
}

#[test]
fn test_remove_unknown_is_noop() {
    let mut registry = PanelRegistry::with_default_panels(3);
    assert!(registry.remove("panel_7").is_none());
    assert_eq!(registry.len(), 3);
    let removed = registry.remove("panel_1").unwrap();
    assert_eq!(removed.id, "panel_1");
    let ids: Vec<String> = registry.panel_ids();
    assert_eq!(ids, vec!["panel_0", "panel_2"]);
}
