//! A small document-object-model core: a closed hierarchy of type tags for
//! tree participants, a document that owns a forest of nodes kept in
//! document order, concrete element kinds built on top of it, and live
//! collections that re-walk the tree on every read.
pub mod typeid;
pub mod eventtarget;
pub mod forest;
pub mod document;
pub mod htmlcollection;
pub mod htmlelement;
pub mod htmldatalistelement;
pub mod htmlframesetelement;
