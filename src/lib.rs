//! Authentication and authorization core of a boarding-house ("kost") rental
//! backend: signed bearer tokens, the request gates that read them, the
//! ownership guard that handlers apply to loaded resources, and the field
//! rules and account steps around them.
pub mod claims;
pub mod payload;
pub mod token;
pub mod gate;
pub mod schemas;
pub mod accounts;
