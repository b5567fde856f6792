//! Picture OCR for converted documents: the decisions, the document
//! transforms and the request handling around them.

pub mod base64;
pub mod batch;
pub mod batch_laws;
pub mod bytes;
pub mod cache;
pub mod cache_laws;
pub mod canonical;
pub mod cli;
pub mod cli_laws;
pub mod config;
pub mod config_laws;
pub mod conversion;
pub mod conversion_laws;
pub mod converted;
pub mod det;
pub mod document;
pub mod document_laws;
pub mod engine;
pub mod engine_laws;
pub mod form_laws;
pub mod image_laws;
pub mod input;
pub mod json;
pub mod json_laws;
pub mod layout;
pub mod layout_laws;
pub mod local;
pub mod multipart;
pub mod multipart_laws;
pub mod order;
pub mod paddle;
pub mod paddle_laws;
pub mod path_order;
pub mod paths;
pub mod pixels;
pub mod postprocess;
pub mod postprocess_laws;
pub mod query;
pub mod query_laws;
pub mod recognition;
pub mod remote;
pub mod render_laws;
pub mod serve;
pub mod serve_laws;
pub mod text;
pub mod text_laws;
pub mod tree;
pub mod tree_laws;
pub mod vlm;
pub mod vlm_laws;
pub mod walk_laws;
