//! A terminal markdown reader: the rendering, navigation and selection
//! logic, with contracts checked by Verus.

pub mod text;
pub mod style;
pub mod theme;
pub mod markdown;
pub mod browser;
pub mod state;
pub mod config;
pub mod ui;
pub mod highlight;
pub mod keys;
