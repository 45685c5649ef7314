//! The core of a terminal client for MQTT brokers.
//!
//! Topics arrive as flat strings such as `a/b/c`. [`topic_view`] derives
//! the tree nodes they imply and decides which of them are shown, given
//! the set of nodes the user has opened; [`topic`], [`order`] and
//! [`listing`] hold what it is built from. [`connection`] decides what a
//! client is set up with to reach the broker.

pub mod connection;
pub mod listing;
pub mod order;
pub mod topic;
pub mod topic_view;
