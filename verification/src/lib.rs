//! An event-sourced store for work items.
//!
//! Work items are durable records with a full change history. Every mutation
//! goes through the same pipeline: the item's current snapshot is turned into
//! a document, a patch (discrete path assignments or an RFC 7396 merge patch)
//! is applied, the old and new documents are diffed, and each leaf-level
//! difference becomes a typed event appended to the item's log. The log is
//! append-only; replaying it in order is the item's full history.

pub mod clock;
pub mod config;
pub mod diff;
pub mod error;
pub mod event;
pub mod flow;
pub mod item;
pub mod json;
pub mod patch;
pub mod protocol;
pub mod store;
pub mod text;
pub mod value;

pub use error::CoreError;
pub use error::FsError;
pub use event::AiActionPayload;
pub use event::AssigneeChangePayload;
pub use event::CommentPayload;
pub use event::EventPayload;
pub use event::EventType;
pub use event::FieldChangePayload;
pub use event::LabelPayload;
pub use event::StateChangePayload;
pub use event::WorkEvent;
pub use item::WorkItem;
pub use patch::SetOperation;
pub use patch::apply_merge_patch;
pub use patch::apply_set_operation;
pub use patch::resolve_path;
pub use diff::diff_values;
pub use store::ItemFilter;
pub use store::Workspace;
pub use value::DocValue;
pub use config::WorkspaceConfig;
