//! Reference resolution and merging for JSON-RPC schema documents.
//!
//! A document declares components, and its components and methods refer to components of the same or
//! of another document. [`components::ref_load`] collects what the documents declare,
//! [`resolve::ref_resolved`] puts in place of each reference the component that it leads to,
//! [`methods::documents_replace`] does so for the methods, and [`methods::methods_merge`] merges the
//! methods into one document. [`pipeline::merge_documents`] goes the whole way.
//!
//! References are replaced in methods that are the members of an object, and methods are merged that
//! are the items of an array. So the whole way, which does both to the same documents, always ends in a
//! problem once there is a document: see [`pipeline::law_never_merged`].

pub mod components;
pub mod depth;
pub mod dereferenced;
pub mod equations;
pub mod files;
pub mod json;
pub mod methods;
pub mod order;
pub mod pipeline;
pub mod pointer;
pub mod problem;
pub mod resolve;
mod text;
