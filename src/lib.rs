//! A retained-mode reactive view reconciliation engine: declarative views are
//! materialised into a host node graph and kept in sync with minimal churn.
//!
//! - `node_span`: the handles a view contributes, and their order.
//! - `host`: the host node graph, addressed by handle.
//! - `view`: the view protocol (build, update, raze, nodes) and its combinators.
//! - `lcs`: the keyed-list diff, a longest common subsequence of keys.
//! - `tracking`: resource and component stores with change ticks, and the
//!   record of what one presenter invocation read.
//! - `cx`: the context handed to presenters, with their local slots.
//! - `presenter`: the presenter lifecycle and the reconciliation pass.

pub mod cx;
pub mod host;
pub mod lcs;
pub mod node_span;
pub mod presenter;
pub mod tracking;
pub mod view;
