//! License resolution for bill-of-materials documents, and the XML emitter
//! that writes resolved licenses and tool records into a document tree.
pub mod license;
pub mod tool;
pub mod xml;
