//! Session search: fuzzy ranking, ordering and tabular display of
//! recorded coding-assistant sessions.
pub mod session;
pub mod sorting;
pub mod text;
pub mod fuzzy;
pub mod display;
pub mod cli;
pub mod db;
pub mod search;
pub mod app;
