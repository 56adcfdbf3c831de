//! X-ray: what a live inspector panel for Ankurah applications decides, computes
//! and says — event DAGs, head clocks, live query traffic and connection state.
//!
//! - [`launcher`]: the master switch, and what is observed while it is on
//! - [`host`]: what the panel learns from the application that mounts it
//! - [`bus`]: the registry of live queries, the bounded event feed, and the
//!   connection log
//! - [`system_panel`], [`feed`], [`env`]: what the cards of the panel say
//! - [`inspector`]: the per-entity drawer
//! - [`walk`]: the walk over an entity's event history
//! - [`dag`], [`plan`], [`dag_view`]: the layout of a history and its picture
//! - [`decode`], [`wire`]: per-backend operation summaries, and which bytes can be
//!   decoded
//! - [`event`], [`ids`], [`text`]: events, ids and clocks, and texts
//!
//! What holds across operations is stated in the modules that end in `_laws`.

pub mod bus;
pub mod bus_laws;
pub mod course_laws;
pub mod dag;
pub mod dag_laws;
pub mod dag_view;
pub mod decode;
pub mod decode_laws;
pub mod env;
pub mod event;
pub mod feed;
pub mod feed_laws;
pub mod format_laws;
pub mod host;
pub mod host_laws;
pub mod ids;
pub mod ids_laws;
pub mod inspector;
pub mod launcher;
pub mod launcher_laws;
pub mod order_laws;
pub mod panel_laws;
pub mod picture_laws;
pub mod plan;
pub mod plan_laws;
pub mod system_panel;
pub mod text;
pub mod view_laws;
pub mod walk;
pub mod walk_laws;
pub mod wire;
pub mod wire_laws;

pub use host::{is_installed, lww_provenance, InstallError, NodeStatus, Resolved, XRay};
pub use launcher::{state, InspectTarget, XRayState};
