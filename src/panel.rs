//! The panel's own state between events: whether it is expanded and
//! configured, its current size, and when it was last drawn. The event
//! loop feeds it pointer events and clock readings and carries out what it
//! decides (resize, redraw, update the modules).
use crate::config::{NotchConfig, NotchStyleResolved};
use crate::module::interface::ModuleEvent;
use vstd::prelude::*;

verus! {

/// Shortest time between two draws, in milliseconds.
pub const MIN_DRAW_INTERVAL_MS: u64 = 16;

/// What the pointer did, as the panel sees it. Positions are canvas-local
/// whole pixels.
#[derive(Debug, Clone, Copy, PartialEq, Eq, Structural)]
pub enum PointerKind {
    Enter,
    Leave,
    Motion,
    Press { button: u32 },
    Release { button: u32 },
    /// Anything else (axis scrolling and the like).
    Other,
}

/// The module event for a pointer event at `(x, y)`, if it has one.
pub open spec fn pointer_event_spec(kind: PointerKind, x: i32, y: i32) -> Option<ModuleEvent> {
    match kind {
        PointerKind::Enter => Some(ModuleEvent::Enter { x, y }),
        PointerKind::Leave => Some(ModuleEvent::Leave),
        PointerKind::Motion => Some(ModuleEvent::Motion { x, y }),
        PointerKind::Press { button } => Some(ModuleEvent::Press { button, x, y }),
        PointerKind::Release { button } => Some(ModuleEvent::Release { button, x, y }),
        PointerKind::Other => None,
    }
}

/// Convert a pointer event to a module event.
pub fn convert_pointer_event(kind: PointerKind, x: i32, y: i32) -> (r: Option<ModuleEvent>)
    ensures
        r == pointer_event_spec(kind, x, y),
{
    match kind {
        PointerKind::Enter => Some(ModuleEvent::Enter { x, y }),
        PointerKind::Leave => Some(ModuleEvent::Leave),
        PointerKind::Motion => Some(ModuleEvent::Motion { x, y }),
        PointerKind::Press { button } => Some(ModuleEvent::Press { button, x, y }),
        PointerKind::Release { button } => Some(ModuleEvent::Release { button, x, y }),
        PointerKind::Other => None,
    }
}

/// What to do after a pointer event.
#[derive(Debug, Clone, Copy, PartialEq, Eq, Structural)]
pub struct PointerOutcome {
    /// The panel changed size: lay out again, apply the size and redraw.
    pub resized: bool,
    /// Send the modules their update event.
    pub update_modules: bool,
}

/// The panel state the event loop keeps.
pub struct PanelState {
    expanded: bool,
    configured: bool,
    width: u32,
    height: u32,
    last_draw_ms: Option<u64>,
}

impl PanelState {
    /// Whether the panel is expanded.
    pub closed spec fn spec_expanded(&self) -> bool {
        self.expanded
    }

    /// Whether the panel is expanded.
    pub fn is_expanded(&self) -> (r: bool)
        ensures
            r == self.spec_expanded(),
    {
        self.expanded
    }

    /// Whether the surface has been configured.
    pub closed spec fn spec_configured(&self) -> bool {
        self.configured
    }

    /// Current size.
    pub closed spec fn spec_size(&self) -> (u32, u32) {
        (self.width, self.height)
    }

    /// When the last draw happened.
    pub closed spec fn spec_last_draw(&self) -> Option<u64> {
        self.last_draw_ms
    }

    /// A collapsed, unconfigured panel of the collapsed style's size.
    pub fn new(config: &NotchConfig) -> (r: Self)
        ensures
            !r.spec_expanded(),
            !r.spec_configured(),
            r.spec_size() == (config.style_spec(false).width, config.style_spec(false).height),
            r.spec_last_draw() is None,
    {
        let style = config.style_for(false);
        PanelState {
            expanded: false,
            configured: false,
            width: style.width,
            height: style.height,
            last_draw_ms: None,
        }
    }

    pub fn is_configured(&self) -> (r: bool)
        ensures
            r == self.spec_configured(),
    {
        self.configured
    }

    pub fn set_configured(&mut self, configured: bool)
        ensures
            final(self).spec_configured() == configured,
            final(self).spec_expanded() == old(self).spec_expanded(),
            final(self).spec_size() == old(self).spec_size(),
            final(self).spec_last_draw() == old(self).spec_last_draw(),
    {
        self.configured = configured;
    }

    /// Current `(width, height)`.
    pub fn size(&self) -> (r: (u32, u32))
        ensures
            r == self.spec_size(),
    {
        (self.width, self.height)
    }

    pub fn update_size(&mut self, width: u32, height: u32)
        ensures
            final(self).spec_size() == (width, height),
            final(self).spec_expanded() == old(self).spec_expanded(),
            final(self).spec_configured() == old(self).spec_configured(),
            final(self).spec_last_draw() == old(self).spec_last_draw(),
    {
        self.width = width;
        self.height = height;
    }

    /// Expand or collapse; returns whether anything changed. On a change
    /// the size becomes that of the new state's style.
    pub fn resize(&mut self, config: &NotchConfig, expand: bool) -> (changed: bool)
        ensures
            changed == (old(self).spec_expanded() != expand),
            final(self).spec_expanded() == expand,
            final(self).spec_size() == if changed {
                (config.style_spec(expand).width, config.style_spec(expand).height)
            } else {
                old(self).spec_size()
            },
            final(self).spec_configured() == old(self).spec_configured(),
            final(self).spec_last_draw() == old(self).spec_last_draw(),
    {
        if self.expanded == expand {
            return false;
        }
        self.expanded = expand;
        self.apply_style(config);
        true
    }

    /// Take the size of the current state's style (after a reload).
    pub fn apply_style(&mut self, config: &NotchConfig) -> (style: NotchStyleResolved)
        ensures
            style == config.style_spec(old(self).spec_expanded()),
            final(self).spec_size() == (style.width, style.height),
            final(self).spec_expanded() == old(self).spec_expanded(),
            final(self).spec_configured() == old(self).spec_configured(),
            final(self).spec_last_draw() == old(self).spec_last_draw(),
    {
        let style = config.style_for(self.expanded);
        self.width = style.width;
        self.height = style.height;
        style
    }

    /// Whether a draw may happen at `now_ms`: the surface is configured
    /// and no draw happened in the last `MIN_DRAW_INTERVAL_MS` milliseconds.
    pub open spec fn draw_due_spec(&self, now_ms: u64) -> bool {
        self.spec_configured() && match self.spec_last_draw() {
            Some(last) => !(last <= now_ms && now_ms - last < MIN_DRAW_INTERVAL_MS),
            None => true,
        }
    }

    /// Start a draw at `now_ms` if one is due: record the time and take the
    /// current state's style, which is returned for drawing.
    pub fn begin_draw(&mut self, config: &NotchConfig, now_ms: u64) -> (r: Option<
        NotchStyleResolved,
    >)
        ensures
            r is Some == old(self).draw_due_spec(now_ms),
            r is Some ==> {
                &&& r->Some_0 == config.style_spec(old(self).spec_expanded())
                &&& final(self).spec_last_draw() == Some(now_ms)
                &&& final(self).spec_size() == (r->Some_0.width, r->Some_0.height)
            },
            r is None ==> final(self).spec_last_draw() == old(self).spec_last_draw()
                && final(self).spec_size() == old(self).spec_size(),
            final(self).spec_expanded() == old(self).spec_expanded(),
            final(self).spec_configured() == old(self).spec_configured(),
    {
        if !self.configured {
            return None;
        }
        if let Some(last) = self.last_draw_ms {
            if last <= now_ms && now_ms - last < MIN_DRAW_INTERVAL_MS {
                return None;
            }
        }
        self.last_draw_ms = Some(now_ms);
        Some(self.apply_style(config))
    }

    /// The update event for the modules in the current state.
    pub fn update_event(&self) -> (r: ModuleEvent)
        ensures
            r == if self.spec_expanded() {
                ModuleEvent::UpdateExpanded
            } else {
                ModuleEvent::UpdateCollapsed
            },
    {
        if self.expanded {
            ModuleEvent::UpdateExpanded
        } else {
            ModuleEvent::UpdateCollapsed
        }
    }

    /// React to a pointer event: entering expands the panel, leaving
    /// collapses it; while expanded, any event that maps to a module event
    /// asks for a module update.
    pub fn on_pointer(&mut self, config: &NotchConfig, kind: PointerKind) -> (r: PointerOutcome)
        ensures
            final(self).spec_expanded() == match kind {
                PointerKind::Enter => true,
                PointerKind::Leave => false,
                _ => old(self).spec_expanded(),
            },
            r.resized == (final(self).spec_expanded() != old(self).spec_expanded()),
            r.update_modules == (final(self).spec_expanded() && kind != PointerKind::Other),
            final(self).spec_configured() == old(self).spec_configured(),
    {
        let resized = match kind {
            PointerKind::Enter => self.resize(config, true),
            PointerKind::Leave => self.resize(config, false),
            _ => false,
        };
        let update_modules = self.expanded && convert_pointer_event(kind, 0, 0).is_some();
        PointerOutcome { resized, update_modules }
    }
}

} // verus!
