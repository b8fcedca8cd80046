//! The editor as a custom element of a web page: what gets registered. The
//! page itself is driven from outside the library.
use vstd::prelude::*;

verus! {

/// The tag under which the editor element is defined.
pub open spec fn editor_tag() -> Seq<char> {
    "uiua-editor"@
}

/// How the editor element is defined: its tag, whether its shadow root is
/// open to the page's scripts, and the attributes whose changes it observes.
pub struct ElementDefinition {
    pub tag: String,
    pub shadow_open: bool,
    pub observed_attributes: Vec<String>,
}

/// The editor element.
pub struct UiuaEditorApp;

impl UiuaEditorApp {
    /// The definition under which the editor element is registered: the tag
    /// `uiua-editor`, an open shadow root, no observed attributes.
    pub fn register() -> (r: ElementDefinition)
        ensures
            r.tag@ == editor_tag(),
            r.shadow_open,
            r.observed_attributes@.len() == 0,
    {
        ElementDefinition { tag: "uiua-editor".to_string(), shadow_open: true, observed_attributes: Vec::new() }
    }
}

} // verus!
