//! The OpenClaw memory import: reading entries out of an OpenClaw workspace
//! (its sqlite store and its markdown notes), de-duplicating them, and
//! deciding, entry by entry, under which key each is stored in the target
//! memory backend.
pub mod entry;
pub mod markdown;
pub mod sqlite;
pub mod files;
pub mod import;
