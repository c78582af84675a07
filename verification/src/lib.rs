//! Verified core of the Orbital desktop utilities: UI metrics and the desktop
//! icon grid, launcher command lines and menus, the settings panel, desktop
//! notifications, and the animated wallpaper's tile and pixel arithmetic.

pub mod metrics;
pub mod text;
pub mod exec;
pub mod settings;
pub mod notify;
pub mod rng;
pub mod tiles;
pub mod pixels;
pub mod damage;
pub mod frames;
pub mod blend;
pub mod background;
pub mod order;
pub mod packages;
pub mod menus;
pub mod launcher;
pub mod bar;
