//! Invoice ledger kept in plain files: how invoices are identified, how their
//! status is encoded in file names and document text, how that status is
//! changed, and how yearly summaries are derived from the documents.

pub mod commit;
pub mod date;
pub mod decimal;
pub mod extract;
pub mod ident;
pub mod lifecycle;
pub mod model;
pub mod partition;
pub mod pattern;
pub mod status;
pub mod summary;
pub mod text;
pub mod transition;
