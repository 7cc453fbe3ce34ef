//! Verified core of the Trellis notes application: text handling for the
//! palette and search, backup planning, journal import and small naming rules.

pub mod text;
pub mod palette;
pub mod order;
pub mod backup;
pub mod civil;
pub mod journal;
pub mod names;
pub mod history;
pub mod access;
pub mod session;
pub mod capture;
pub mod links;
pub mod switcher;
pub mod grants;
pub mod undo;
pub mod laws;
