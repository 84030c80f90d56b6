//! Core of a small overlay panel: a software pixel canvas, a row/alignment
//! layout engine, a capability interface for widgets, and the registry that
//! drives them.
pub mod config;
pub mod draw;
pub mod layout;
pub mod module;
pub mod modules;
pub mod panel;

pub use crate::draw::Canvas;
pub use crate::module::interface::{Module, ModuleEvent, Rect};
