//! The widget capability interface and the registry that owns the widgets.
pub mod interface;
pub mod registry;

pub use interface::{Module, ModuleError, ModuleEvent, Rect};
pub use registry::ModuleRegistry;
