//! Trusted bindings to the kuchikiki DOM.
//!
//! The HTML rewriter parses, walks, mutates and serializes documents
//! through the kuchikiki crate.  A `NodeRef` is opaque here: these
//! bindings only hand nodes, tag names, attribute values and text back
//! and forth as plain values, and every decision about them is made by
//! the verified walk in the `html` module.
//!
//! None of the bindings carries an `ensures`.  kuchikiki nodes are
//! reference-counted and mutate through interior mutability, so every
//! handle aliases every other: a contract over a `&NodeRef` value would
//! be falsified by a mutation made through a different handle, and a
//! sound contract would need the whole document owned by one structure
//! with a ghost model of the tree.  These bindings keep instead to the
//! weaker, honest position that nothing is claimed of the tree at all;
//! the strings written into it are pinned down by the exact contracts of
//! the functions in `html` that produce them.

use vstd::prelude::*;

use kuchikiki::traits::TendrilSink;

verus! {

#[verifier::external_type_specification]
#[verifier::external_body]
pub struct ExNodeRef(kuchikiki::NodeRef);

/// Relies on `kuchikiki::parse_html` (with `TendrilSink::one`): parse an
/// HTML document, html5ever tree construction included, into a DOM tree.
#[verifier::external_body]
pub(crate) fn parse_document(html: &str) -> (doc: kuchikiki::NodeRef) {
    kuchikiki::parse_html().one(html)
}

/// Relies on `kuchikiki::NodeRef::children`: the child nodes of a node,
/// in document order.
#[verifier::external_body]
pub(crate) fn child_nodes(n: &kuchikiki::NodeRef) -> (r: Vec<kuchikiki::NodeRef>) {
    n.children().collect()
}

/// Relies on `kuchikiki::ElementData::template_contents`: the document
/// fragment that is the root of a `<template>` element's content, when
/// the node is such an element.
#[verifier::external_body]
pub(crate) fn template_contents(n: &kuchikiki::NodeRef) -> (r: Option<kuchikiki::NodeRef>) {
    match n.as_element() {
        Some(e) => e.template_contents.clone(),
        None => None,
    }
}

/// Relies on `kuchikiki::NodeRef::as_element`: the local tag name when
/// the node is an element, as the parser produced it.
#[verifier::external_body]
pub(crate) fn element_name(n: &kuchikiki::NodeRef) -> (r: Option<String>) {
    n.as_element().map(|e| e.name.local.to_string())
}

/// Relies on `kuchikiki::Attributes::get`: the value of the attribute
/// with this local name, when the node is an element that has it.
#[verifier::external_body]
pub(crate) fn get_attr(n: &kuchikiki::NodeRef, name: &str) -> (r: Option<String>) {
    match n.as_element() {
        Some(e) => e.attributes.borrow().get(name).map(|v| v.to_string()),
        None => None,
    }
}

/// Relies on `kuchikiki::Attributes::get_mut`: overwrite the value of an
/// attribute the element already has; an absent attribute stays absent.
#[verifier::external_body]
pub(crate) fn set_attr(n: &kuchikiki::NodeRef, name: &str, value: &str) {
    if let Some(e) = n.as_element() {
        if let Some(v) = e.attributes.borrow_mut().get_mut(name) {
            *v = value.to_string();
        }
    }
}

/// Relies on `kuchikiki::NodeRef::as_text`: the text held by a text
/// node.
#[verifier::external_body]
pub(crate) fn text_of(n: &kuchikiki::NodeRef) -> (r: Option<String>) {
    n.as_text().map(|t| t.borrow().clone())
}

/// Relies on `kuchikiki::NodeRef::detach`: remove a node from its
/// parent.
#[verifier::external_body]
pub(crate) fn detach_node(n: &kuchikiki::NodeRef) {
    n.detach()
}

/// Relies on `kuchikiki::NodeRef::new_text`: a fresh text node holding
/// this string.
#[verifier::external_body]
pub(crate) fn new_text_node(s: &str) -> (r: kuchikiki::NodeRef) {
    kuchikiki::NodeRef::new_text(s)
}

/// Relies on `kuchikiki::NodeRef::append`: add a node as the last child.
#[verifier::external_body]
pub(crate) fn append_child(n: &kuchikiki::NodeRef, child: kuchikiki::NodeRef) {
    n.append(child)
}

/// Relies on `kuchikiki::NodeRef::prepend`: add a node as the first
/// child.
#[verifier::external_body]
pub(crate) fn prepend_child(n: &kuchikiki::NodeRef, child: kuchikiki::NodeRef) {
    n.prepend(child)
}

/// Relies on `kuchikiki::NodeRef::serialize` (html5ever serialization)
/// and `String::from_utf8`: the HTML text of the node and its
/// descendants, or `None` when serialization fails.
#[verifier::external_body]
pub(crate) fn serialize_node(n: &kuchikiki::NodeRef) -> (r: Option<String>) {
    let mut buf: Vec<u8> = Vec::new();
    if n.serialize(&mut buf).is_err() {
        return None;
    }
    String::from_utf8(buf).ok()
}

} // verus!
