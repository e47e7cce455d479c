//! A read-only document object model for XML.
//!
//! A [`Document`] owns one parsed tree. Everything handed out while walking it
//! (elements, text, attributes, namespaces, iterators) borrows from the
//! document and cannot outlive it. Documents are parsed from memory or pulled
//! from a [`Reader`], and can be written back out through a [`Writer`].
//!
//! The modules, from the ground up: `tree` holds the node graph; `dom` and
//! `iter` the borrowed views and the walks over sibling lists; `io` the byte
//! sources and sinks with their adapters; `syntax`, `grammar`, `parse` and
//! `serialize` the engine that turns bytes into trees and back, with
//! `roundtrip` showing that what it writes, it reads; `document` the owner of
//! a tree; `basic` the plain view of elements and text.

pub mod basic;
pub mod document;
pub mod dom;
pub mod grammar;
pub mod io;
pub mod iter;
pub mod parse;
pub mod roundtrip;
pub mod serialize;
pub mod syntax;
pub mod text;
pub mod tree;

pub use document::{read_memory, read_memory_with_url, Document};
pub use dom::{AttributeChild, BorrowedAttribute, BorrowedCData, BorrowedComment};
pub use dom::{BorrowedElement, BorrowedNamespace, BorrowedText, ElementChild, NamedNode, TextNode};
pub use iter::{AttributeChildrenIterator, ElementAttributeIterator, ElementChildrenIterator};
pub use io::{IoError, IoErrorKind, ReadContext, Reader, WriteContext, Writer};
pub use tree::{xmlAttr, xmlDoc, xmlElementType, xmlNode, xmlNs};
pub use tree::{AttrView, DocView, NodeView, NsView};
