pub mod limits;
pub mod types;
pub mod ast;
pub mod text;
pub mod xref;
pub mod reference_resolver;
pub mod struct_tree;
pub mod schema;
pub mod performance;
pub mod serialization;
pub mod lazy;
pub mod recovery;
pub mod security;
pub mod object_parser;
pub mod document;
pub mod pdf_file;
pub mod encoding;
pub mod diagnostics;
pub mod type_names;
pub mod document_serial;
pub mod reconstruction;
