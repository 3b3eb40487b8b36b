//! The query-service layer that wraps the core: party roles, messages and
//! data shares as the service exchanges them.

pub mod communication;
pub mod server;
pub mod share;
