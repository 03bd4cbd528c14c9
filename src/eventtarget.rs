use vstd::prelude::*;
use crate::typeid::{EventTargetTypeId, HTMLElementTypeId, html_path};

verus! {

/// The tag-bearing base of every object of the tree. Its path is fixed when
/// the value is built: no method changes it.
pub struct EventTarget {
    type_id: EventTargetTypeId,
}

impl View for EventTarget {
    type V = EventTargetTypeId;

    closed spec fn view(&self) -> EventTargetTypeId {
        self.type_id
    }
}

impl EventTarget {
    /// A target whose path is `type_id`.
    pub fn new(type_id: EventTargetTypeId) -> (r: EventTarget)
        ensures
            r@ == type_id,
    {
        EventTarget { type_id }
    }

    /// The full path of this target's kind.
    pub fn type_id(&self) -> (r: EventTargetTypeId)
        ensures
            r == self@,
    {
        self.type_id
    }

    /// Whether this target is a `<datalist>` element.
    pub fn is_htmldatalistelement(&self) -> (r: bool)
        ensures
            r == (self@ == html_path(HTMLElementTypeId::HTMLDataListElement)),
    {
        self.type_id.is_html_kind(HTMLElementTypeId::HTMLDataListElement)
    }

    /// Whether this target is a `<frameset>` element.
    pub fn is_htmlframesetelement(&self) -> (r: bool)
        ensures
            r == (self@ == html_path(HTMLElementTypeId::HTMLFrameSetElement)),
    {
        self.type_id.is_html_kind(HTMLElementTypeId::HTMLFrameSetElement)
    }

    /// Whether this target is an `<option>` element.
    pub fn is_htmloptionelement(&self) -> (r: bool)
        ensures
            r == (self@ == html_path(HTMLElementTypeId::HTMLOptionElement)),
    {
        self.type_id.is_html_kind(HTMLElementTypeId::HTMLOptionElement)
    }
}

} // verus!
