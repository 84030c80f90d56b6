//! The types every module shares: rectangles, events and the capability
//! interface that built-in and plugin modules implement.
use crate::draw::{unchanged_outside, Canvas};
use vstd::prelude::*;

verus! {

#[verifier::external_type_specification]
#[verifier::external_body]
#[verifier::reject_recursive_types(K)]
#[verifier::reject_recursive_types(V)]
pub struct ExTomlMap<K, V>(toml::map::Map<K, V>);

#[verifier::external_type_specification]
#[verifier::external_body]
pub struct ExTomlValue(toml::Value);

/// The keys a configuration table holds.
pub uninterp spec fn table_keys(t: toml::Table) -> Set<Seq<char>>;

/// Relies on `toml::map::Map::new`: a table with no keys.
#[verifier::external_body]
pub(crate) fn empty_table() -> (t: toml::Table)
    ensures
        table_keys(t) == Set::<Seq<char>>::empty(),
{
    toml::Table::new()
}

/// An axis-aligned pixel rectangle in canvas coordinates.
#[derive(Debug, Clone, Copy, PartialEq, Eq, Structural)]
pub struct Rect {
    pub x: i32,
    pub y: i32,
    pub width: u32,
    pub height: u32,
}

impl Rect {
    /// Whether the point `(px, py)` lies in the half-open rectangle.
    pub open spec fn contains_spec(&self, px: int, py: int) -> bool {
        self.x <= px < self.x + self.width && self.y <= py < self.y + self.height
    }

    /// Whether the point `(px, py)` lies in the half-open rectangle.
    pub fn contains(&self, px: i32, py: i32) -> (r: bool)
        ensures
            r == self.contains_spec(px as int, py as int),
    {
        let x = px as i64;
        let y = py as i64;
        self.x as i64 <= x && x < self.x as i64 + self.width as i64 && self.y as i64 <= y && y
            < self.y as i64 + self.height as i64
    }
}

/// Events delivered to modules. Positions are canvas-local whole pixels
/// (the pointer position rounded down).
#[derive(Debug, Clone, Copy, PartialEq, Eq, Structural)]
pub enum ModuleEvent {
    /// The pointer entered the module area.
    Enter { x: i32, y: i32 },
    /// The pointer left the module area.
    Leave,
    /// The pointer moved within the module area.
    Motion { x: i32, y: i32 },
    /// A pointer button was pressed within the module area.
    Press { button: u32, x: i32, y: i32 },
    /// A pointer button was released within the module area.
    Release { button: u32, x: i32, y: i32 },
    /// The module should update its state (a clock tick).
    Update,
    /// Update while the panel is expanded.
    UpdateExpanded,
    /// Update while the panel is collapsed.
    UpdateCollapsed,
}

impl ModuleEvent {
    /// The position of a positional event; `None` for the others, which are
    /// broadcast rather than hit-tested.
    pub open spec fn position_spec(&self) -> Option<(i32, i32)> {
        match *self {
            ModuleEvent::Enter { x, y } => Some((x, y)),
            ModuleEvent::Motion { x, y } => Some((x, y)),
            ModuleEvent::Press { x, y, .. } => Some((x, y)),
            ModuleEvent::Release { x, y, .. } => Some((x, y)),
            _ => None,
        }
    }

    /// The position of a positional event.
    pub fn position(&self) -> (r: Option<(i32, i32)>)
        ensures
            r == self.position_spec(),
    {
        match *self {
            ModuleEvent::Enter { x, y } => Some((x, y)),
            ModuleEvent::Motion { x, y } => Some((x, y)),
            ModuleEvent::Press { x, y, .. } => Some((x, y)),
            ModuleEvent::Release { x, y, .. } => Some((x, y)),
            _ => None,
        }
    }
}

/// An error reported by a module.
#[derive(Debug, Clone)]
pub struct ModuleError {
    pub message: String,
}

/// The capability interface every module, built-in or loaded from a
/// plugin, implements.
pub trait Module {
    /// The module's stable identifier. Modules verified with this library
    /// define it; the default stands for modules built elsewhere (plugins),
    /// whose contracts nothing checks.
    closed spec fn spec_id(&self) -> Seq<char> {
        Seq::empty()
    }

    /// The footprint the module asks the layout for; defined like `spec_id`.
    closed spec fn spec_preferred_size(&self) -> (u32, u32) {
        (0, 0)
    }

    /// The unique identifier used for configuration, layout and areas.
    fn id(&self) -> (r: &str)
        ensures
            r@ == self.spec_id(),
    ;

    /// A human-readable name.
    fn name(&self) -> &str;

    /// Whether the module, as it is, consumes `event` delivered with
    /// `area`; defined like `spec_id`.
    closed spec fn spec_handles(&self, event: ModuleEvent, area: Rect) -> bool {
        false
    }

    /// Whether the module, as it is, accepts the configuration `config`;
    /// defined like `spec_id`.
    closed spec fn spec_init_ok(&self, config: toml::Table) -> bool {
        true
    }

    /// Whether drawing the module, as it is, into `area` may turn the pixels
    /// `before` of a `w` x `h` canvas into `after`, where `text` is the font
    /// data of the canvas's text renderer, if any; defined like `spec_id`.
    closed spec fn spec_draws(
        &self,
        before: Seq<u8>,
        after: Seq<u8>,
        w: int,
        h: int,
        text: Option<Seq<u8>>,
        area: Rect,
    ) -> bool {
        true
    }

    /// One-time configuration.
    fn init(&mut self, config: &toml::Table) -> (r: Result<(), ModuleError>)
        ensures
            final(self).spec_id() == old(self).spec_id(),
            r is Ok == old(self).spec_init_ok(*config),
    ;

    /// Draw the module's content within `area`; no pixel outside it
    /// changes.
    fn draw(&self, canvas: &mut Canvas, area: Rect) -> (r: Result<(), ModuleError>)
        ensures
            final(canvas).spec_width() == old(canvas).spec_width(),
            final(canvas).spec_height() == old(canvas).spec_height(),
            final(canvas).text_source() == old(canvas).text_source(),
            self.spec_draws(
                old(canvas).pixels(),
                final(canvas).pixels(),
                old(canvas).spec_width() as int,
                old(canvas).spec_height() as int,
                old(canvas).text_source(),
                area,
            ),
            unchanged_outside(
                old(canvas).pixels(),
                final(canvas).pixels(),
                old(canvas).spec_width() as int,
                area,
            ),
    ;

    /// Handle an event; `true` when it was consumed.
    fn handle_event(&mut self, event: &ModuleEvent, area: Rect) -> (r: bool)
        ensures
            final(self).spec_id() == old(self).spec_id(),
            r == old(self).spec_handles(*event, area),
    ;

    /// The preferred `(width, height)`.
    fn preferred_size(&self) -> (r: (u32, u32))
        ensures
            r == self.spec_preferred_size(),
    ;
}

/// A boxed module is a module: every call goes to the module inside, so a
/// registry can hold modules of different kinds as `Box<dyn Module>`.
impl<T: Module + ?Sized> Module for Box<T> {
    open spec fn spec_id(&self) -> Seq<char> {
        (**self).spec_id()
    }

    open spec fn spec_preferred_size(&self) -> (u32, u32) {
        (**self).spec_preferred_size()
    }

    open spec fn spec_handles(&self, event: ModuleEvent, area: Rect) -> bool {
        (**self).spec_handles(event, area)
    }

    open spec fn spec_init_ok(&self, config: toml::Table) -> bool {
        (**self).spec_init_ok(config)
    }

    open spec fn spec_draws(
        &self,
        before: Seq<u8>,
        after: Seq<u8>,
        w: int,
        h: int,
        text: Option<Seq<u8>>,
        area: Rect,
    ) -> bool {
        (**self).spec_draws(before, after, w, h, text, area)
    }

    fn id(&self) -> (r: &str) {
        (**self).id()
    }

    fn name(&self) -> &str {
        (**self).name()
    }

    fn init(&mut self, config: &toml::Table) -> (r: Result<(), ModuleError>) {
        (**self).init(config)
    }

    fn draw(&self, canvas: &mut Canvas, area: Rect) -> (r: Result<(), ModuleError>) {
        (**self).draw(canvas, area)
    }

    fn handle_event(&mut self, event: &ModuleEvent, area: Rect) -> (r: bool) {
        (**self).handle_event(event, area)
    }

    fn preferred_size(&self) -> (r: (u32, u32)) {
        (**self).preferred_size()
    }
}

/// Whether two strings hold the same characters.
pub fn same_text(a: &str, b: &str) -> (r: bool)
    ensures
        r == (a@ == b@),
{
    let sa = a.to_owned();
    let sb = b.to_owned();
    sa == sb
}

} // verus!
