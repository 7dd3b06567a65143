//! Library of the Zenoh Hammer desktop tool: the state of its pages, the
//! decisions of its session loop, and the decoding of admin-space payloads.

pub mod json;
pub mod page_admin;
pub mod nesting;
pub mod page_liveliness;
pub mod page_session;
pub mod task_zenoh;
pub mod text;
