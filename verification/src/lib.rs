//! SAML2 metadata documents: a typed model of entity descriptors and their
//! encrypted-content leaves, with verified conversion to and from XML text.
//!
//! Encoding goes through `quick_xml`'s event writer; decoding is a verified
//! recursive-descent parser over the XML subset that these documents use.

pub mod cipher;
pub mod descriptor;
pub mod entity;
pub mod error;
pub mod parse;
pub mod timestamp;
pub mod xml;
