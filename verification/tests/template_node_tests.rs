use harmony::template_node::{ShadowConfig, ShadowMode, SlotDefinition, TemplateNode};

#[test]
fn test_template_node_creation() {
    let template = TemplateNode::new("test-button".to_string(), "button".to_string())
        .with_attribute("class".to_string(), "hds-button".to_string())
        .with_shadow(ShadowConfig { mode: ShadowMode::Open, delegates_focus: true });

    assert_eq!(template.template_id, "test-button");
    assert_eq!(template.element_type, "button");
    assert_eq!(template.attributes.len(), 1);
    assert!(template.shadow_config.is_some());
}

#[test]
fn test_slot_definition() {
    let slot = SlotDefinition {
        slot_name: "icon".to_string(),
        fallback_content: None,
        allowed_types: vec!["svg".to_string()],
        required: false,
    };

    assert_eq!(slot.slot_name, "icon");
    assert!(!slot.required);
}

#[test]
fn test_builders_accumulate() {
    let slot = SlotDefinition {
        slot_name: String::new(),
        fallback_content: Some("fallback-node".to_string()),
        allowed_types: Vec::new(),
        required: true,
    };
    let template = TemplateNode::new("panel".to_string(), "div".to_string())
        .with_attribute("role".to_string(), "region".to_string())
        .with_attribute("tabindex".to_string(), "0".to_string())
        .with_slot(slot);

    assert_eq!(template.attributes.len(), 2);
    assert_eq!(template.attributes[0].name, "role");
    assert_eq!(template.attributes[1].name, "tabindex");
    assert_eq!(template.slots.len(), 1);
    assert!(template.slots[0].required);
    assert!(template.gpu_metadata.is_none());
}
