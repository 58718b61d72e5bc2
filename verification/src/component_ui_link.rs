//! Component-to-UI link: tracks where a component is used in the
//! application UI.

use vstd::prelude::*;

verus! {

/// Types of UI usage contexts.
#[derive(Debug, Clone, PartialEq)]
pub enum UIUsageContext {
    /// Used in HTML template.
    Template,
    /// Dynamically imported in JavaScript.
    DynamicImport,
    /// Used as web component tag.
    WebComponentTag,
    /// Referenced in CSS.
    StyleReference,
    /// Other usage type.
    Other(String),
}

/// Represents a link from a component to a UI location where it's used.
#[derive(Debug, Clone, PartialEq)]
pub struct ComponentUILink {
    /// ID of the source component.
    pub component_id: String,
    /// UI location where component is used (e.g., "app-shell").
    pub ui_location: String,
    /// File path where the usage occurs.
    pub file_path: String,
    /// Line number in the file (optional).
    pub line_number: Option<u32>,
    /// Context of usage.
    pub usage_context: UIUsageContext,
}

impl ComponentUILink {
    /// Create a new component-to-UI link, without a line number.
    pub fn new(
        component_id: String,
        ui_location: String,
        file_path: String,
        usage_context: UIUsageContext,
    ) -> (r: Self)
        ensures
            r.component_id == component_id,
            r.ui_location == ui_location,
            r.file_path == file_path,
            r.line_number is None,
            r.usage_context == usage_context,
    {
        Self { component_id, ui_location, file_path, line_number: None, usage_context }
    }

    /// Set the line number for this usage.
    pub fn with_line_number(self, line_number: u32) -> (r: Self)
        ensures
            r.component_id == self.component_id,
            r.ui_location == self.ui_location,
            r.file_path == self.file_path,
            r.line_number == Some(line_number),
            r.usage_context == self.usage_context,
    {
        Self { line_number: Some(line_number), ..self }
    }
}

} // verus!
