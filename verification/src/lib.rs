//! Relay's profile model, Mihomo renderer, source stores, runtime decisions and diagnostics.
pub mod diagnostics;
pub mod helper;
pub mod logs;
pub mod profile;
pub mod qx_record;
pub mod render;
pub mod runtime;
pub mod sources;
pub mod store;
pub mod subscription;
pub mod system_proxy;
pub mod text;
pub mod tray;
