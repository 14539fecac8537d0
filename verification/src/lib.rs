//! A stateless model checker for message-passing programs.

pub mod assoc;
pub mod comm_close;
pub mod config;
pub mod cons;
pub mod debug;
pub mod event;
pub mod event_label;
pub mod exec_graph;
pub mod layout;
pub mod linear;
pub mod loc;
pub mod must;
pub mod random;
pub mod replay;
pub mod revisit;
pub mod summarizable;
pub mod symbolic;
pub mod text;
pub mod thread_map;
pub mod vector_clock;
