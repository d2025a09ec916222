//! Desktop fences: the rules that decide what a fence shows, how it is ordered
//! and what every user action does to it.
pub mod autostart;
pub mod bytes;
pub mod defaults;
pub mod desk;
pub mod display;
pub mod drag;
pub mod grid;
pub mod hosts;
pub mod iconcache;
pub mod keys;
pub mod lang;
pub mod listing;
pub mod menu;
pub mod model;
pub mod motion;
pub mod order;
pub mod panel;
pub mod paths;
pub mod pictures;
pub mod release;
pub mod rename;
pub mod rows;
pub mod scan;
pub mod selection;
pub mod settings;
pub mod snapshot;
pub mod system;
pub mod text;
pub mod text_map;
pub mod usage;
pub mod utf16;
pub mod wallpaper;
pub mod welcome;
