pub mod agent_config;
pub mod agent_state;
pub mod api;
pub mod assignment_engine;
pub mod collections;
pub mod controller_client;
pub mod controller_config;
pub mod controller_state;
pub mod errors;
pub mod ids;
pub mod int_parse;
pub mod listing;
pub mod node;
pub mod node_registry;
pub mod reassignment;
pub mod reconcile;
pub mod restore;
pub mod service;
pub mod service_listing;
pub mod service_runtime;
pub mod stale_nodes;
pub mod state_flows;
pub mod storage_codec;
pub mod text;
pub mod time;
