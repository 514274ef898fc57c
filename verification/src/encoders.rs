//! Content-transfer-encoders and the encoding classifier.

pub mod base64;
pub mod encode;
pub mod quoted_printable;
