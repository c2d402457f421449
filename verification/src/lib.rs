//! Email list validation: extraction of addresses from free text, syntax
//! checks, domain pre-checks, per-address validation decisions, output
//! selection and request planning for the HTTP interface.

pub mod text;
pub mod email;
pub mod order;
pub mod ingestion;
pub mod cli;
pub mod validation;
pub mod precheck;
pub mod output;
pub mod server;
