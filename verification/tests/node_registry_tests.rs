use harmony::node_registry::{NodeTypeMetadata, WASMNodeRegistry};

fn metadata(type_id: &str, category: &str, memory: u32, parallel: bool) -> NodeTypeMetadata {
    NodeTypeMetadata {
        type_id: type_id.to_string(),
        display_name: type_id.to_string(),
        category: category.to_string(),
        inputs: Vec::new(),
        outputs: Vec::new(),
        parameters: Vec::new(),
        wasm_function: format!("process_{}", type_id.replace('.', "_")),
        memory_requirement: memory,
        is_parallel_safe: parallel,
        version: "1.0.0".to_string(),
    }
}

#[test]
fn test_register_and_get() {
    let mut reg = WASMNodeRegistry::new();
    assert!(reg.register(metadata("audio.gain", "audio", 128, true)));
    assert!(reg.has("audio.gain"));
    let m = reg.get("audio.gain").unwrap();
    assert_eq!(m.category, "audio");
    assert_eq!(reg.get_total_memory(), 128);
}

#[test]
fn test_register_duplicate_refused() {
    let mut reg = WASMNodeRegistry::new();
    assert!(reg.register(metadata("audio.gain", "audio", 128, true)));
    assert!(!reg.register(metadata("audio.gain", "audio", 64, false)));
    assert_eq!(reg.get_total_memory(), 128);
}

#[test]
fn test_unregister_releases_memory_and_entry() {
    let mut reg = WASMNodeRegistry::new();
    reg.register(metadata("audio.gain", "audio", 128, true));
    reg.register(metadata("midi.transpose", "midi", 64, false));

    assert!(reg.unregister("audio.gain"));
    assert!(!reg.has("audio.gain"));
    assert_eq!(reg.get_total_memory(), 64);
    assert!(!reg.unregister("audio.gain"));
}

#[test]
fn test_category_listing() {
    let mut reg = WASMNodeRegistry::new();
    reg.register(metadata("audio.gain", "audio", 1, true));
    reg.register(metadata("audio.pan", "audio", 1, true));
    reg.register(metadata("midi.transpose", "midi", 1, false));

    assert_eq!(
        reg.list_by_category("audio"),
        vec!["audio.gain".to_string(), "audio.pan".to_string()]
    );
    assert!(reg.list_by_category("video").is_empty());
    assert_eq!(reg.list_categories(), vec!["audio".to_string(), "midi".to_string()]);
    assert_eq!(
        reg.list_all(),
        vec![
            "audio.gain".to_string(),
            "audio.pan".to_string(),
            "midi.transpose".to_string()
        ]
    );
}

#[test]
fn test_stats_and_clear() {
    let mut reg = WASMNodeRegistry::new();
    reg.register(metadata("audio.gain", "audio", 10, true));
    reg.register(metadata("midi.transpose", "midi", 20, false));

    let stats = reg.get_stats();
    assert_eq!(stats.total_nodes, 2);
    assert_eq!(stats.total_categories, 2);
    assert_eq!(stats.total_memory, 30);
    assert_eq!(stats.parallel_safe_count, 1);

    reg.clear();
    assert_eq!(reg.get_stats().total_nodes, 0);
    assert_eq!(reg.get_total_memory(), 0);
    assert!(!reg.has("audio.gain"));
}
