//! Replay viewer for agent audit events: decoding, ordering, grouping and
//! presentation of event streams, with machine-checked contracts.
pub mod text;
pub mod json;
pub mod members;
pub mod member_laws;
pub mod timestamp;
pub mod event;
pub mod event_laws;
pub mod order;
pub mod order_laws;
pub mod group;
pub mod group_laws;
pub mod sessions;
pub mod rows;
pub mod row_laws;
pub mod app;
pub mod app_laws;
pub mod area;
pub mod ui;
pub mod ui_laws;
pub mod tui;
pub mod loopback;
pub mod loopback_laws;
pub mod transport;
pub mod backoff;
pub mod cli;
pub mod iggy;
pub mod session;
pub mod session_laws;
pub mod runtime;
pub mod testsupport;
