//! Options that the surrounding program hands to the library's users: what
//! to build, how to template labels, how to draw.

use vstd::prelude::*;

verus! {

/// Which package, binary and features `cargo` should inspect.
pub struct CargoOptions {
    pub package: Option<String>,
    pub bin: Option<String>,
    pub features: Option<String>,
    pub all_features: bool,
    pub no_default_features: bool,
    pub release: bool,
}

/// How the graph is drawn.
pub struct DotOptions {
    /// Highlight towards dependencies (`true`) or dependents (`false`).
    pub highlight: Option<bool>,
    /// The binary whose own size is added to the root.
    pub bin: Option<String>,
    pub inverse_gradient: bool,
    pub dark_mode: bool,
}

/// Custom label and tooltip templates.
pub struct TemplateOptions {
    pub node_label_template: Option<String>,
    pub node_tooltip_template: Option<String>,
    pub edge_label_template: Option<String>,
    pub edge_tooltip_template: Option<String>,
}

} // verus!
