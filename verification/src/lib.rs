//! Anchor-addressed line editing: per-line content fingerprints, "line:hash"
//! anchors validated and relocated against the current file, and batches of
//! line- and substring-level edits applied bottom-up as one atomic
//! transformation — either every anchor resolves and the whole batch applies,
//! or an error reports why and nothing changes.

pub mod anchor;
pub mod edits;
pub mod errors;
pub mod fingerprint;
pub mod render;
pub mod text;
