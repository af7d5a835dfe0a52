//! Configuration and settings logic for a desktop control panel: reading,
//! writing and removing entries of line-based configuration files, and the
//! decisions made by the settings tabs.

pub mod text;
pub mod config;
pub mod applications;
pub mod region;
pub mod update;
