//! A launcher for a terminal: which apps there are, which of them a query
//! finds, what keys and the mouse do, and what is started in the end.

pub mod app;
pub mod app_laws;
pub mod catalog;
pub mod clock;
pub mod color;
pub mod config;
pub mod desktop;
pub mod desktop_laws;
pub mod event_laws;
pub mod events;
pub mod history_laws;
pub mod input;
pub mod key_laws;
pub mod keys;
pub mod launch;
pub mod list_laws;
pub mod menu;
pub mod menu_laws;
pub mod paths;
pub mod ranking;
pub mod refresh_laws;
pub mod search;
pub mod session;
pub mod storage;
pub mod storage_laws;
pub mod table;
pub mod text;
pub mod text_laws;
