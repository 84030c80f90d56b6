//! A module held by the running panel: a built-in one, or one built by a
//! plugin behind the module interface.
use crate::draw::Canvas;
use crate::module::interface::{Module, ModuleError, ModuleEvent, Rect};
use crate::module::registry::{builtin_id, BuiltinFactory, BuiltinModule};
use crate::modules::clock::ClockModule;
use vstd::prelude::*;

verus! {

/// A built-in module or a plugin's module.
pub enum LoadedModule {
    Clock(ClockModule),
    Plugin(Box<dyn Module>),
}

impl Module for LoadedModule {
    open spec fn spec_id(&self) -> Seq<char> {
        match self {
            LoadedModule::Clock(m) => m.spec_id(),
            LoadedModule::Plugin(m) => m.spec_id(),
        }
    }

    open spec fn spec_preferred_size(&self) -> (u32, u32) {
        match self {
            LoadedModule::Clock(m) => m.spec_preferred_size(),
            LoadedModule::Plugin(m) => m.spec_preferred_size(),
        }
    }

    open spec fn spec_handles(&self, event: ModuleEvent, area: Rect) -> bool {
        match self {
            LoadedModule::Clock(m) => m.spec_handles(event, area),
            LoadedModule::Plugin(m) => m.spec_handles(event, area),
        }
    }

    open spec fn spec_init_ok(&self, config: toml::Table) -> bool {
        match self {
            LoadedModule::Clock(m) => m.spec_init_ok(config),
            LoadedModule::Plugin(m) => m.spec_init_ok(config),
        }
    }

    open spec fn spec_draws(
        &self,
        before: Seq<u8>,
        after: Seq<u8>,
        w: int,
        h: int,
        text: Option<Seq<u8>>,
        area: Rect,
    ) -> bool {
        match self {
            LoadedModule::Clock(m) => m.spec_draws(before, after, w, h, text, area),
            LoadedModule::Plugin(m) => m.spec_draws(before, after, w, h, text, area),
        }
    }

    fn id(&self) -> (r: &str) {
        match self {
            LoadedModule::Clock(m) => m.id(),
            LoadedModule::Plugin(m) => m.id(),
        }
    }

    fn name(&self) -> &str {
        match self {
            LoadedModule::Clock(m) => m.name(),
            LoadedModule::Plugin(m) => m.name(),
        }
    }

    fn init(&mut self, config: &toml::Table) -> (r: Result<(), ModuleError>) {
        match self {
            LoadedModule::Clock(m) => m.init(config),
            LoadedModule::Plugin(m) => m.init(config),
        }
    }

    fn draw(&self, canvas: &mut Canvas, area: Rect) -> (r: Result<(), ModuleError>) {
        match self {
            LoadedModule::Clock(m) => m.draw(canvas, area),
            LoadedModule::Plugin(m) => m.draw(canvas, area),
        }
    }

    fn handle_event(&mut self, event: &ModuleEvent, area: Rect) -> (r: bool) {
        match self {
            LoadedModule::Clock(m) => m.handle_event(event, area),
            LoadedModule::Plugin(m) => m.handle_event(event, area),
        }
    }

    fn preferred_size(&self) -> (r: (u32, u32)) {
        match self {
            LoadedModule::Clock(m) => m.preferred_size(),
            LoadedModule::Plugin(m) => m.preferred_size(),
        }
    }
}

impl BuiltinFactory for LoadedModule {
    fn create_builtin(kind: BuiltinModule) -> (m: Self) {
        match kind {
            BuiltinModule::Clock => LoadedModule::Clock(ClockModule::new()),
        }
    }
}

} // verus!
