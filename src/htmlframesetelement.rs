use vstd::prelude::*;
use crate::document::{DocModel, Document, NodeId, opt_view};
use crate::htmlelement::HTMLElement;
use crate::typeid::{HTMLElementTypeId, html_path};

verus! {

/// A `<frameset>` element: the body of a document laid out in frames.
pub struct HTMLFrameSetElement {
    pub htmlelement: HTMLElement,
}

impl HTMLFrameSetElement {
    fn new_inherited(local_name: String, prefix: Option<String>) -> (r: HTMLFrameSetElement)
        ensures
            r.htmlelement.node.target@ == html_path(HTMLElementTypeId::HTMLFrameSetElement),
            r.htmlelement.node.name == local_name,
            r.htmlelement.node.prefix == prefix,
    {
        HTMLFrameSetElement {
            htmlelement: HTMLElement::new_inherited(HTMLElementTypeId::HTMLFrameSetElement, local_name, prefix),
        }
    }

    /// Creates a `<frameset>` element and registers it with `document`, as a tree
    /// of its own; returns its identifier.
    pub fn new(local_name: String, prefix: Option<String>, document: &mut Document) -> (r: NodeId)
        requires
            old(document).wf(),
            old(document)@.tags.len() < usize::MAX,
        ensures
            final(document).wf(),
            r == old(document)@.tags.len(),
            final(document)@ == (DocModel {
                order: old(document)@.order.push(r),
                depth: old(document)@.depth.push(0),
                tags: old(document)@.tags.push(html_path(HTMLElementTypeId::HTMLFrameSetElement)),
                names: old(document)@.names.push(local_name@),
                prefixes: old(document)@.prefixes.push(opt_view(prefix)),
                window: old(document)@.window,
            }),
    {
        let element = HTMLFrameSetElement::new_inherited(local_name, prefix);
        document.reflect_node(element.htmlelement.node)
    }
}

} // verus!
