//! Language features for Odoo addons: locations of XML documents that resolve to symbols,
//! completion in XML documents, and signature help in python files.
//!
//! The features read an analysed code base, [`symbols::SessionInfo`], and answer in byte offsets of
//! the source.
//!
//! - [`xml_ast_utils`] walks a parsed document for what its parts refer to, [`xml_scope`] says which
//!   model the fields in a part belong to, [`xml_lookup`] what a name there resolves to.
//! - [`xml_completion`] says what the position under the cursor expects, [`completion_items`] what it
//!   may become, [`xml_repair`] closes what a document being typed leaves open.
//! - [`signature_help`] builds the signatures of a call.
//! - The modules whose names end in `laws` state what holds of the features: [`lookup_laws`] of what
//!   names resolve to, [`scope_laws`] of the model in scope, [`reference_laws`], [`xml_walk_laws`] and
//!   [`xml_view_laws`] of the locations of a document, [`target_laws`], [`member_laws`], [`item_laws`]
//!   and [`completion_laws`] of completions, [`repair_laws`] of documents being typed, [`call_laws`] of
//!   signature help.
pub mod call_laws;
pub mod completion_items;
pub mod completion_laws;
pub mod item_laws;
pub mod js_templates;
pub mod lookup_laws;
pub mod member_laws;
pub mod reference_laws;
pub mod repair_laws;
pub mod scope_laws;
pub mod seqs;
pub mod signature_help;
pub mod sorting;
pub mod symbols;
pub mod target_laws;
pub mod text;
pub mod xml_ast_utils;
pub mod xml_completion;
pub mod xml_document;
pub mod xml_lookup;
pub mod xml_repair;
pub mod xml_scope;
pub mod xml_spans;
pub mod xml_view_laws;
pub mod xml_walk_laws;
