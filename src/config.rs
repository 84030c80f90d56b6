//! Configuration of the panel: styles per expansion state, the enabled
//! modules with their settings, and the row layout.
//!
//! Tables keyed by module id are lists of `(id, value)` pairs; a lookup
//! takes the first pair with the id.
use vstd::prelude::*;

verus! {

/// Width used when no style gives one.
pub const DEFAULT_WIDTH: u32 = 300;

/// Height used when no style gives one.
pub const DEFAULT_HEIGHT: u32 = 40;

/// Corner radius used when no style gives one.
pub const DEFAULT_CORNER_RADIUS: u32 = 10;

/// Gap between rows when the layout does not set one.
pub const DEFAULT_ROW_SPACING: u32 = 8;

/// One row of the layout: the ids of the modules it shows, in order.
#[derive(Debug, Clone, Default)]
pub struct LayoutRow {
    pub alignment: Option<String>,
    pub modules: Vec<String>,
}

/// The rows for one expansion state, with an optional row spacing.
#[derive(Debug, Clone, Default)]
pub struct LayoutState {
    pub rows: Vec<LayoutRow>,
    pub row_spacing: Option<u32>,
}

/// Per-module overrides for one expansion state.
#[derive(Debug, Clone, Default)]
pub struct ModuleStateConfig {
    pub visible: Option<bool>,
    pub alignment: Option<String>,
}

/// Style properties of the panel; each may be left unset.
#[derive(Debug, Clone, Default)]
pub struct NotchStyle {
    pub width: Option<u32>,
    pub height: Option<u32>,
    pub corner_radius: Option<u32>,
    pub background_color: Option<[u8; 4]>,
}

/// The whole configuration.
#[derive(Debug, Clone)]
pub struct NotchConfig {
    pub main: NotchStyle,
    pub collapsed: NotchStyle,
    pub expanded: NotchStyle,
    pub modules: ModulesConfig,
    pub layout: LayoutConfig,
}

/// The layout for each expansion state.
#[derive(Debug, Clone, Default)]
pub struct LayoutConfig {
    pub expanded: LayoutState,
    pub collapsed: LayoutState,
}

/// Which modules run, how each is configured, and where plugins live.
#[derive(Debug, Clone, Default)]
pub struct ModulesConfig {
    /// Ids of the enabled modules, in order.
    pub enabled: Vec<String>,
    /// Configuration table of each module id.
    pub module_configs: Vec<(String, toml::Table)>,
    /// Visibility and alignment overrides of each module id.
    pub state: Vec<(String, ModuleStateConfigSet)>,
    /// Shared-library path of each plugin id.
    pub aliases: Vec<(String, String)>,
}

/// Overrides of one module for both expansion states.
#[derive(Debug, Clone, Default)]
pub struct ModuleStateConfigSet {
    pub expanded: ModuleStateConfig,
    pub collapsed: ModuleStateConfig,
}

/// A style with every property decided.
#[derive(Debug, Clone, Copy)]
pub struct NotchStyleResolved {
    pub width: u32,
    pub height: u32,
    pub corner_radius: u32,
    pub background_color: [u8; 4],
}

/// The first of `a`, `b` that is set, else `d`.
pub open spec fn first_set<T>(a: Option<T>, b: Option<T>, d: T) -> T {
    match a {
        Some(v) => v,
        None => match b {
            Some(v) => v,
            None => d,
        },
    }
}

fn pick<T: Copy>(a: Option<T>, b: Option<T>, d: T) -> (r: T)
    ensures
        r == first_set(a, b, d),
{
    match a {
        Some(v) => v,
        None => match b {
            Some(v) => v,
            None => d,
        },
    }
}

impl NotchConfig {
    /// The style of the given expansion state, property by property: the
    /// state's own section, else the main section, else the default.
    pub open spec fn style_spec(&self, expanded: bool) -> NotchStyleResolved {
        let section = if expanded {
            self.expanded
        } else {
            self.collapsed
        };
        NotchStyleResolved {
            width: first_set(section.width, self.main.width, DEFAULT_WIDTH),
            height: first_set(section.height, self.main.height, DEFAULT_HEIGHT),
            corner_radius: first_set(
                section.corner_radius,
                self.main.corner_radius,
                DEFAULT_CORNER_RADIUS,
            ),
            background_color: first_set(
                section.background_color,
                self.main.background_color,
                [0u8, 0u8, 0u8, 255u8],
            ),
        }
    }

    /// Get the effective style for the current state (expanded/collapsed).
    pub fn style_for(&self, expanded: bool) -> (r: NotchStyleResolved)
        ensures
            r == self.style_spec(expanded),
    {
        let section = if expanded {
            &self.expanded
        } else {
            &self.collapsed
        };
        NotchStyleResolved {
            width: pick(section.width, self.main.width, DEFAULT_WIDTH),
            height: pick(section.height, self.main.height, DEFAULT_HEIGHT),
            corner_radius: pick(
                section.corner_radius,
                self.main.corner_radius,
                DEFAULT_CORNER_RADIUS,
            ),
            background_color: pick(
                section.background_color,
                self.main.background_color,
                [0u8, 0u8, 0u8, 255u8],
            ),
        }
    }

    /// The layout of the given expansion state.
    pub open spec fn layout_state_spec(&self, expanded: bool) -> LayoutState {
        if expanded {
            self.layout.expanded
        } else {
            self.layout.collapsed
        }
    }
}

fn empty_style() -> (s: NotchStyle)
    ensures
        s.width is None,
        s.height is None,
        s.corner_radius is None,
        s.background_color is None,
{
    NotchStyle { width: None, height: None, corner_radius: None, background_color: None }
}

fn empty_layout_state() -> (s: LayoutState)
    ensures
        s.rows@.len() == 0,
        s.row_spacing is None,
{
    LayoutState { rows: Vec::new(), row_spacing: None }
}

impl Default for NotchConfig {
    /// A 300 x 40 black panel with corner radius 10, no module enabled and
    /// empty layouts.
    fn default() -> (r: Self)
        ensures
            r.main.width == Some(300u32),
            r.main.height == Some(40u32),
            r.main.corner_radius == Some(10u32),
            r.main.background_color == Some([0u8, 0u8, 0u8, 255u8]),
            r.collapsed.width is None && r.collapsed.height is None,
            r.collapsed.corner_radius is None && r.collapsed.background_color is None,
            r.expanded.width is None && r.expanded.height is None,
            r.expanded.corner_radius is None && r.expanded.background_color is None,
            r.modules.enabled@.len() == 0,
            r.modules.module_configs@.len() == 0,
            r.modules.state@.len() == 0,
            r.modules.aliases@.len() == 0,
            r.layout.expanded.rows@.len() == 0 && r.layout.expanded.row_spacing is None,
            r.layout.collapsed.rows@.len() == 0 && r.layout.collapsed.row_spacing is None,
    {
        NotchConfig {
            main: NotchStyle {
                width: Some(300),
                height: Some(40),
                corner_radius: Some(10),
                background_color: Some([0, 0, 0, 255]),
            },
            collapsed: empty_style(),
            expanded: empty_style(),
            modules: ModulesConfig {
                enabled: Vec::new(),
                module_configs: Vec::new(),
                state: Vec::new(),
                aliases: Vec::new(),
            },
            layout: LayoutConfig { expanded: empty_layout_state(), collapsed: empty_layout_state() },
        }
    }
}

/// Index of the first key equal to `key`.
pub open spec fn first_index(keys: Seq<Seq<char>>, key: Seq<char>) -> Option<int>
    decreases keys.len(),
{
    if keys.len() == 0 {
        None
    } else if keys[0] == key {
        Some(0)
    } else {
        match first_index(keys.drop_first(), key) {
            Some(i) => Some(i + 1),
            None => None,
        }
    }
}

/// The keys of a list of pairs.
pub open spec fn keys_of<V>(entries: Seq<(String, V)>) -> Seq<Seq<char>> {
    entries.map_values(|e: (String, V)| e.0@)
}

/// The value of the first pair whose key is `key`.
pub open spec fn lookup<V>(entries: Seq<(String, V)>, key: Seq<char>) -> Option<V> {
    match first_index(keys_of(entries), key) {
        Some(i) => Some(entries[i].1),
        None => None,
    }
}

/// `first_index` is the first matching position.
pub proof fn lemma_first_index(keys: Seq<Seq<char>>, key: Seq<char>)
    ensures
        match first_index(keys, key) {
            Some(i) => 0 <= i < keys.len() && keys[i] == key && forall|j: int|
                0 <= j < i ==> #[trigger] keys[j] != key,
            None => forall|j: int| 0 <= j < keys.len() ==> #[trigger] keys[j] != key,
        },
    decreases keys.len(),
{
    if keys.len() > 0 {
        lemma_first_index(keys.drop_first(), key);
        if keys[0] != key {
            assert forall|j: int| 1 <= j < keys.len() implies #[trigger] keys[j]
                == keys.drop_first()[j - 1] by {}
        }
    }
}

/// Position of the first pair whose key is `key`.
pub fn find_entry<V>(entries: &Vec<(String, V)>, key: &str) -> (r: Option<usize>)
    ensures
        match r {
            Some(i) => i < entries@.len() && first_index(keys_of(entries@), key@) == Some(i as int),
            None => first_index(keys_of(entries@), key@) is None,
        },
{
    let ghost keys = keys_of(entries@);
    proof {
        lemma_first_index(keys, key@);
    }
    let mut i: usize = 0;
    while i < entries.len()
        invariant
            0 <= i <= entries@.len(),
            keys == keys_of(entries@),
            forall|j: int| 0 <= j < i ==> #[trigger] keys[j] != key@,
            match first_index(keys, key@) {
                Some(k) => 0 <= k < keys.len() && keys[k] == key@ && forall|j: int|
                    0 <= j < k ==> #[trigger] keys[j] != key@,
                None => forall|j: int| 0 <= j < keys.len() ==> #[trigger] keys[j] != key@,
            },
        decreases entries@.len() - i,
    {
        assert(keys[i as int] == entries@[i as int].0@);
        if crate::module::interface::same_text(entries[i].0.as_str(), key) {
            return Some(i);
        }
        i = i + 1;
    }
    None
}

} // verus!
