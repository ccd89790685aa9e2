//! Incident lifecycle management: the domain rules (severities, statuses and
//! the transitions between them, timeline events), an incident store with
//! verified operations, and the request handling that sits on top of it.

pub mod api;
pub mod domain;
pub mod ids;
pub mod infra;
pub mod laws;
pub mod order;
pub mod outside;
pub mod text;
