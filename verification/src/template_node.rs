//! Template node schema: HTML templates, Shadow DOM configuration and
//! slot definitions stored in graph nodes.

use vstd::prelude::*;

verus! {

/// HTML attribute key-value pair.
#[derive(Debug, Clone)]
pub struct Attribute {
    pub name: String,
    pub value: String,
}

/// Slot definition for component composition.
#[derive(Debug, Clone)]
pub struct SlotDefinition {
    /// Slot name (empty string for default slot).
    pub slot_name: String,
    /// Fallback content (node ID or inline text).
    pub fallback_content: Option<String>,
    /// Allowed element types (for validation).
    pub allowed_types: Vec<String>,
    /// Whether this slot must be filled.
    pub required: bool,
}

/// Shadow DOM mode enumeration.
#[derive(Debug, Clone, PartialEq, Eq, Structural)]
pub enum ShadowMode {
    Open,
    Closed,
}

/// Shadow DOM configuration.
#[derive(Debug, Clone)]
pub struct ShadowConfig {
    /// Shadow DOM mode (open or closed).
    pub mode: ShadowMode,
    /// Whether focus is delegated to first focusable element.
    pub delegates_focus: bool,
}

/// GPU acceleration metadata for a template.
#[derive(Debug, Clone)]
pub struct GpuMetadata {
    /// Whether this template uses GPU acceleration.
    pub gpu_accelerated: bool,
    /// CSS properties that are GPU-accelerated.
    pub gpu_properties: Vec<String>,
    /// Shader uniform bindings.
    pub shader_bindings: Vec<String>,
}

/// Template node stored in the graph.
#[derive(Debug, Clone)]
pub struct TemplateNode {
    /// Unique identifier for this template.
    pub template_id: String,
    /// HTML element type (div, span, button, etc.).
    pub element_type: String,
    /// HTML attributes for the element.
    pub attributes: Vec<Attribute>,
    /// Slot definitions for composition.
    pub slots: Vec<SlotDefinition>,
    /// Child node IDs (references to other graph nodes).
    pub children: Vec<String>,
    /// Shadow DOM configuration (if applicable).
    pub shadow_config: Option<ShadowConfig>,
    /// GPU acceleration metadata.
    pub gpu_metadata: Option<GpuMetadata>,
}

impl TemplateNode {
    /// Create a new template node with no attributes, slots, children
    /// or configuration.
    pub fn new(template_id: String, element_type: String) -> (r: Self)
        ensures
            r.template_id == template_id,
            r.element_type == element_type,
            r.attributes@.len() == 0,
            r.slots@.len() == 0,
            r.children@.len() == 0,
            r.shadow_config is None,
            r.gpu_metadata is None,
    {
        Self {
            template_id,
            element_type,
            attributes: Vec::new(),
            slots: Vec::new(),
            children: Vec::new(),
            shadow_config: None,
            gpu_metadata: None,
        }
    }

    /// Add an attribute to the template.
    pub fn with_attribute(self, name: String, value: String) -> (r: Self)
        ensures
            r.template_id == self.template_id,
            r.element_type == self.element_type,
            r.attributes@.len() == self.attributes@.len() + 1,
            r.attributes@.take(self.attributes@.len() as int) == self.attributes@,
            r.attributes@.last().name == name,
            r.attributes@.last().value == value,
            r.slots == self.slots,
            r.children == self.children,
            r.shadow_config == self.shadow_config,
            r.gpu_metadata == self.gpu_metadata,
    {
        let mut r = self;
        let ghost pre = r.attributes@;
        r.attributes.push(Attribute { name, value });
        proof {
            assert(r.attributes@.take(pre.len() as int) =~= pre);
        }
        r
    }

    /// Add a slot definition.
    pub fn with_slot(self, slot: SlotDefinition) -> (r: Self)
        ensures
            r.template_id == self.template_id,
            r.element_type == self.element_type,
            r.attributes == self.attributes,
            r.slots@ == self.slots@.push(slot),
            r.children == self.children,
            r.shadow_config == self.shadow_config,
            r.gpu_metadata == self.gpu_metadata,
    {
        let mut r = self;
        r.slots.push(slot);
        r
    }

    /// Set the shadow DOM configuration.
    pub fn with_shadow(self, config: ShadowConfig) -> (r: Self)
        ensures
            r.template_id == self.template_id,
            r.element_type == self.element_type,
            r.attributes == self.attributes,
            r.slots == self.slots,
            r.children == self.children,
            r.shadow_config == Some(config),
            r.gpu_metadata == self.gpu_metadata,
    {
        Self { shadow_config: Some(config), ..self }
    }

    /// Enable GPU acceleration.
    pub fn with_gpu(self, metadata: GpuMetadata) -> (r: Self)
        ensures
            r.template_id == self.template_id,
            r.element_type == self.element_type,
            r.attributes == self.attributes,
            r.slots == self.slots,
            r.children == self.children,
            r.shadow_config == self.shadow_config,
            r.gpu_metadata == Some(metadata),
    {
        Self { gpu_metadata: Some(metadata), ..self }
    }
}

} // verus!
