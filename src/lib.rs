//! Validation of parsed JSON documents against draft-04 JSON Schema
//! fragments, with diagnostics anchored to source spans.

pub mod json;
pub mod document;
pub mod report;
pub mod pattern;
pub mod checks;
pub mod validator;
pub mod format;
pub mod expected;
