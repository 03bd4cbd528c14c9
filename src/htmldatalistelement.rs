use vstd::prelude::*;
use crate::document::{DocModel, Document, NodeId, opt_view};
use crate::htmlcollection::{CollectionFilter, HTMLCollection};
use crate::htmlelement::HTMLElement;
use crate::typeid::{HTMLElementTypeId, html_path};

verus! {

/// A `<datalist>` element: a set of suggested values, held as `<option>`
/// descendants.
pub struct HTMLDataListElement {
    pub htmlelement: HTMLElement,
}

impl HTMLDataListElement {
    fn new_inherited(local_name: String, prefix: Option<String>) -> (r: HTMLDataListElement)
        ensures
            r.htmlelement.node.target@ == html_path(HTMLElementTypeId::HTMLDataListElement),
            r.htmlelement.node.name == local_name,
            r.htmlelement.node.prefix == prefix,
    {
        HTMLDataListElement {
            htmlelement: HTMLElement::new_inherited(HTMLElementTypeId::HTMLDataListElement, local_name, prefix),
        }
    }

    /// Creates a `<datalist>` element and registers it with `document`, as a tree
    /// of its own; returns its identifier.
    pub fn new(local_name: String, prefix: Option<String>, document: &mut Document) -> (r: NodeId)
        requires
            old(document).wf(),
            old(document)@.tags.len() < usize::MAX,
        ensures
            final(document).wf(),
            r == old(document)@.tags.len(),
            final(document)@ == (DocModel {
                order: old(document)@.order.push(r),
                depth: old(document)@.depth.push(0),
                tags: old(document)@.tags.push(html_path(HTMLElementTypeId::HTMLDataListElement)),
                names: old(document)@.names.push(local_name@),
                prefixes: old(document)@.prefixes.push(opt_view(prefix)),
                window: old(document)@.window,
            }),
    {
        let element = HTMLDataListElement::new_inherited(local_name, prefix);
        document.reflect_node(element.htmlelement.node)
    }

    /// The `<option>` elements below the datalist `this`, as a live
    /// collection.
    pub fn options(document: &Document, this: NodeId) -> (r: HTMLCollection)
        ensures
            r.window == document@.window,
            r.root == this,
            r.filter == CollectionFilter::HTMLKind(HTMLElementTypeId::HTMLOptionElement),
    {
        let filter = CollectionFilter::HTMLKind(HTMLElementTypeId::HTMLOptionElement);
        HTMLCollection::create(document.window(), this, filter)
    }
}

} // verus!
