//! The decision logic of a multipath UDP stream.

pub mod bench;
pub mod buffers;
pub mod chat;
pub mod client_ctx;
pub mod client_laws;
pub mod client_ui;
pub mod client_view;
pub mod clock;
pub mod fec;
pub mod health_report;
pub mod keys;
pub mod name_map;
pub mod number_text;
pub mod obs;
pub mod options;
pub mod ordered;
pub mod path_events;
pub mod path_info;
pub mod path_link;
pub mod preview;
pub mod protocol;
pub mod rates;
pub mod receive;
pub mod remote;
pub mod reorder;
pub mod reorder_events;
pub mod reorder_flows;
pub mod reorder_laws;
pub mod reorder_model;
pub mod reorder_progress;
pub mod reorder_restarts;
pub mod reorder_sources;
pub mod repair_cache;
pub mod routes;
pub mod sending;
pub mod sending_effects;
pub mod sending_laws;
pub mod sending_limits;
pub mod sequence;
pub mod server_ctx;
pub mod server_flow;
pub mod server_health;
pub mod server_laws;
pub mod server_ui;
pub mod server_view;
pub mod split;
pub mod strategy;
pub mod strategy_laws;
pub mod tc;
pub mod text;
pub mod time;
pub mod tracking;
pub mod view_laws;
pub mod wire_laws;
