//! The rules behind a menu bar gauge of how far quotas are used up.

pub mod api;
pub mod app_state;
pub mod bars;
pub mod brand;
pub mod calendar;
pub mod clock;
pub mod credentials;
pub mod double;
pub mod history;
pub mod icons;
pub mod menu;
pub mod notifications;
pub mod poller;
pub mod pricing;
pub mod ranking;
pub mod rollup;
pub mod settings;
pub mod table;
pub mod text;
pub mod theme;
pub mod time_fmt;
pub mod transcript;
