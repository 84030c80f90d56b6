//! Built-in modules, and the module type the running panel holds.
pub mod clock;
pub mod loaded;

pub use clock::ClockModule;
pub use loaded::LoadedModule;
