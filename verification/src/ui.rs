//! What the screen shows and what keys do.
pub mod format;
pub mod input;
pub mod loading;
pub mod screen;
