//! Mission Control: the project-level view over many chats.
//!
//! A chat's transcript answers what was said. This library answers what has been
//! happening across every chat: recent conversations and what each accomplished, the
//! activity of each day, the files that several conversations keep returning to, and the
//! work that was left outstanding in conversations nobody reopened.
//!
//! A client derives the digest of a conversation and has it indexed; the client reads the
//! index state and sends what moved. Everything but the narrative of a conversation is an
//! indexed fact, so a node without a model has a working dashboard.
//!
//! - [`model`] holds the values that are stored and served, [`tables`] the tables they are
//!   stored in, and [`store`] the operations on them.
//! - [`window`] and [`listing`] say what a window asks for and what is listed of it,
//!   [`days`] and [`hot`] what it rolls up to, by day and by file; [`order`] arranges the
//!   rows, and [`sums`] says what they add up to.
//! - [`summary`] and [`host`] make a digest a prompt, and a reply a narrative.
//! - [`api`] answers the routes, behind the secret of [`gate`].
//! - [`calendar`] asks SQLite for local dates, and [`text`] holds what all of these need
//!   of characters.

pub mod api;
pub mod calendar;
pub mod days;
pub mod gate;
pub mod host;
pub mod hot;
pub mod listing;
pub mod model;
pub mod order;
pub mod store;
pub mod summary;
pub mod sums;
pub mod tables;
pub mod text;
pub mod window;

pub use host::Host;
pub use store::{Filter, Store, DB_FILE_NAME};
