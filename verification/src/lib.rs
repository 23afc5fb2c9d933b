//! System statistics for the Windows taskbar: the rules, parsers and state
//! machines behind the strip, its popups, its menu, the agents that feed it
//! over the network, and the wire protocol between them.

pub mod about;
pub mod agent;
pub mod canvas;
pub mod commands;
pub mod config;
pub mod i18n;
pub mod menu;
pub mod metrics;
pub mod number;
pub mod order;
pub mod popup;
pub mod proto;
pub mod remote;
pub mod session;
pub mod share;
pub mod strip;
pub mod taskbar;
pub mod text;
pub mod tracking;
pub mod update;
pub mod util;
pub mod widgets;
