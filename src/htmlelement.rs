//! The part shared by every HTML element: its tag, name and prefix.
use vstd::prelude::*;
use crate::document::Node;
use crate::eventtarget::EventTarget;
use crate::typeid::{HTMLElementTypeId, html_path, html_type_id};

verus! {

/// An HTML element of some kind, not yet handed to a document.
pub struct HTMLElement {
    pub node: Node,
}

impl HTMLElement {
    /// An element of kind `type_id`; its tag is fixed from here on.
    pub fn new_inherited(type_id: HTMLElementTypeId, local_name: String, prefix: Option<String>) -> (r:
        HTMLElement)
        ensures
            r.node.target@ == html_path(type_id),
            r.node.name == local_name,
            r.node.prefix == prefix,
    {
        HTMLElement {
            node: Node { target: EventTarget::new(html_type_id(type_id)), name: local_name, prefix },
        }
    }
}

} // verus!
