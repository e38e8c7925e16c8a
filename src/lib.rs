//! OCSP request messages (RFC 6960, section 4.1.1) and their DER form.
//!
//! Values that this library stores without interpreting them (algorithm
//! identifiers, general names, extension lists, certificates) are held as
//! single DER elements; the message structure around them, with its context
//! tags, optional fields and default version, is encoded and decoded here.
pub mod tlv;
pub mod request;
pub mod laws;
