use vstd::prelude::*;

verus! {

/// The concrete kinds of HTML element known to this core (a closed catalog).
#[derive(Clone, Copy, Debug, PartialEq, Eq, Structural)]
pub enum HTMLElementTypeId {
    HTMLDataListElement,
    HTMLFrameSetElement,
    HTMLOptionElement,
    HTMLSelectElement,
    HTMLDivElement,
    /// An HTML element with no more specific interface.
    HTMLElement,
}

/// The element level of the hierarchy.
#[derive(Clone, Copy, Debug, PartialEq, Eq, Structural)]
pub enum ElementTypeId {
    HTMLElement(HTMLElementTypeId),
    /// An element outside the HTML namespace.
    Element,
}

/// The node level of the hierarchy.
#[derive(Clone, Copy, Debug, PartialEq, Eq, Structural)]
pub enum NodeTypeId {
    Element(ElementTypeId),
    Text,
    Comment,
    ProcessingInstruction,
    DocumentType,
    DocumentFragment,
    Document,
}

/// The top level of the hierarchy: the full path of an object's kind.
#[derive(Clone, Copy, Debug, PartialEq, Eq, Structural)]
pub enum EventTargetTypeId {
    Node(NodeTypeId),
    Window,
    XMLHttpRequest,
}

/// The full path of an HTML element of kind `k`.
pub open spec fn html_path(k: HTMLElementTypeId) -> EventTargetTypeId {
    EventTargetTypeId::Node(NodeTypeId::Element(ElementTypeId::HTMLElement(k)))
}

/// Whether a path belongs to an element (HTML or not).
pub open spec fn is_element_path(t: EventTargetTypeId) -> bool {
    t matches EventTargetTypeId::Node(NodeTypeId::Element(_))
}

/// Builds the full path of an HTML element of kind `k`.
pub fn html_type_id(k: HTMLElementTypeId) -> (r: EventTargetTypeId)
    ensures
        r == html_path(k),
{
    EventTargetTypeId::Node(NodeTypeId::Element(ElementTypeId::HTMLElement(k)))
}

impl EventTargetTypeId {
    /// Whether this path is exactly the path of an HTML element of kind `k`:
    /// every level must agree.
    pub fn is_html_kind(&self, k: HTMLElementTypeId) -> (r: bool)
        ensures
            r == (*self == html_path(k)),
    {
        match self {
            EventTargetTypeId::Node(NodeTypeId::Element(ElementTypeId::HTMLElement(h))) => *h == k,
            _ => false,
        }
    }

    /// Whether this path is the path of an element.
    pub fn is_element(&self) -> (r: bool)
        ensures
            r == is_element_path(*self),
    {
        match self {
            EventTargetTypeId::Node(NodeTypeId::Element(_)) => true,
            _ => false,
        }
    }
}

/// Two HTML kinds have the same full path exactly when they are the same
/// kind: a query for one kind never answers true for an object of another.
pub proof fn lemma_html_path_exact(k: HTMLElementTypeId, q: HTMLElementTypeId)
    ensures
        (html_path(k) == html_path(q)) <==> (k == q),
{
}

/// Equality of paths is reflexive.
pub proof fn lemma_path_eq_reflexive(t: EventTargetTypeId)
    ensures
        t == t,
{
}

} // verus!
