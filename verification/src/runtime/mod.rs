//! The database side of the server.
pub mod db;
