//! The registry: owns the loaded modules and the libraries behind plugins,
//! resolves the enabled set, lays modules out, draws them and routes events.
use crate::config::{find_entry, first_index, keys_of, lookup, NotchConfig};
use crate::draw::{in_rect, pixel_of, Canvas};
use crate::layout::{
    calculate_module_layout,
    find_module,
    id_listed,
    ids_of,
    layout_spec,
    lemma_layout_places_loaded,
    ModuleLayout,
};
use crate::module::interface::{empty_table, table_keys, same_text, Module, ModuleError, ModuleEvent, Rect};
use vstd::prelude::*;

verus! {

#[verifier::external_type_specification]
#[verifier::external_body]
pub struct ExLibrary(libloading::Library);

/// The id prefix that names a plugin's library path directly.
pub open spec fn external_prefix() -> Seq<char> {
    "external:"@
}

/// Whether `s` starts with `prefix`.
pub open spec fn has_prefix(s: Seq<char>, prefix: Seq<char>) -> bool {
    s.len() >= prefix.len() && s.subrange(0, prefix.len() as int) == prefix
}

/// The rest of `s` after `prefix`, if `s` starts with it.
pub fn strip_prefix<'s>(s: &'s str, prefix: &str) -> (r: Option<&'s str>)
    ensures
        match r {
            Some(rest) => has_prefix(s@, prefix@) && rest@ == s@.subrange(
                prefix@.len() as int,
                s@.len() as int,
            ),
            None => !has_prefix(s@, prefix@),
        },
{
    let n = s.unicode_len();
    let m = prefix.unicode_len();
    if n < m {
        return None;
    }
    let head = s.substring_char(0, m);
    if same_text(head, prefix) {
        Some(s.substring_char(m, n))
    } else {
        None
    }
}

/// The modules compiled into this library.
#[derive(Debug, Clone, Copy, PartialEq, Eq, Structural)]
pub enum BuiltinModule {
    Clock,
}

/// Where an enabled module id comes from.
#[derive(Debug, Clone)]
pub enum ModuleSource {
    /// A module compiled into this library.
    Builtin(BuiltinModule),
    /// A plugin in the shared library at this path.
    Plugin(String),
    /// Neither: the id is reported and skipped.
    Unknown,
}

/// The library path of a plugin id: its alias where it has one, else the
/// rest of an id with the `external:` prefix.
pub open spec fn plugin_path_spec(id: Seq<char>, aliases: Seq<(String, String)>) -> Option<
    Seq<char>,
> {
    match lookup(aliases, id) {
        Some(p) => Some(p@),
        None => if has_prefix(id, external_prefix()) {
            Some(id.subrange(external_prefix().len() as int, id.len() as int))
        } else {
            None
        },
    }
}

/// The kind of a module source.
#[derive(Debug, Clone, Copy, PartialEq, Eq, Structural)]
pub enum SourceKind {
    Builtin(BuiltinModule),
    Plugin,
    Unknown,
}

/// The kind and library path (empty but for plugins) of a source.
pub open spec fn source_view(s: ModuleSource) -> (SourceKind, Seq<char>) {
    match s {
        ModuleSource::Builtin(b) => (SourceKind::Builtin(b), Seq::empty()),
        ModuleSource::Plugin(p) => (SourceKind::Plugin, p@),
        ModuleSource::Unknown => (SourceKind::Unknown, Seq::empty()),
    }
}

/// Where the module `id` comes from: a plugin path by alias or prefix,
/// else the built-in clock for "clock", else unknown.
pub open spec fn source_spec(id: Seq<char>, aliases: Seq<(String, String)>) -> (
    SourceKind,
    Seq<char>,
) {
    match plugin_path_spec(id, aliases) {
        Some(p) => (SourceKind::Plugin, p),
        None => if id == "clock"@ {
            (SourceKind::Builtin(BuiltinModule::Clock), Seq::empty())
        } else {
            (SourceKind::Unknown, Seq::empty())
        },
    }
}

/// Where the module `id` comes from: a plugin path by alias or prefix,
/// else the built-in clock for "clock", else unknown.
pub fn resolve_module_source(id: &str, aliases: &Vec<(String, String)>) -> (r: ModuleSource)
    ensures
        source_view(r) == source_spec(id@, aliases@),
{
    proof {
        reveal_strlit("external:");
        reveal_strlit("clock");
    }
    match find_entry(aliases, id) {
        Some(i) => ModuleSource::Plugin(aliases[i].1.clone()),
        None => match strip_prefix(id, "external:") {
            Some(path) => ModuleSource::Plugin(path.to_owned()),
            None => {
                if same_text(id, "clock") {
                    ModuleSource::Builtin(BuiltinModule::Clock)
                } else {
                    ModuleSource::Unknown
                }
            },
        },
    }
}

/// The id of a built-in module.
pub open spec fn builtin_id(kind: BuiltinModule) -> Seq<char> {
    match kind {
        BuiltinModule::Clock => "clock"@,
    }
}

/// Modules the registry can create for the built-in kinds.
pub trait BuiltinFactory: Module + Sized {
    /// A new module of the given built-in kind.
    fn create_builtin(kind: BuiltinModule) -> (m: Self)
        ensures
            m.spec_id() == builtin_id(kind),
    ;
}

/// A module whose draw call failed, with its error.
pub struct DrawFailure {
    pub module_name: String,
    pub error: ModuleError,
}

/// A module whose initialization failed, with its error.
pub struct InitFailure {
    pub module_id: String,
    pub error: ModuleError,
}

/// What a draw pass did: the ids of the modules drawn, in order, and the
/// failures among them.
pub struct DrawReport {
    pub drawn: Vec<String>,
    pub failures: Vec<DrawFailure>,
}

/// What resolving the enabled modules left to the caller: for each enabled
/// id not yet loaded, in order, where it comes from. Built-in modules are
/// to be created and plugins loaded, then added in this order; unknown ids
/// are reported and skipped.
pub struct LoadReport {
    pub steps: Vec<(String, ModuleSource)>,
}

/// The views of a list of load steps.
pub open spec fn steps_view(v: Seq<(String, ModuleSource)>) -> Seq<(Seq<char>, (SourceKind, Seq<char>))> {
    v.map_values(|e: (String, ModuleSource)| (e.0@, source_view(e.1)))
}

/// Whether `s` is the view of one of `v`.
pub open spec fn listed(v: Seq<String>, s: Seq<char>) -> bool {
    exists|j: int| 0 <= j < v.len() && #[trigger] v[j]@ == s
}

/// Whether one of `v` holds the text `s`.
pub fn contains_text(v: &Vec<String>, s: &str) -> (r: bool)
    ensures
        r == listed(v@, s@),
{
    let mut i: usize = 0;
    while i < v.len()
        invariant
            0 <= i <= v@.len(),
            forall|j: int| 0 <= j < i ==> (#[trigger] v@[j])@ != s@,
        decreases v@.len() - i,
    {
        if same_text(v[i].as_str(), s) {
            return true;
        }
        i = i + 1;
    }
    false
}

/// The modules of `mods` whose id is listed in `enabled`, in order.
pub open spec fn kept_modules<M: Module>(mods: Seq<M>, enabled: Seq<String>) -> Seq<M>
    decreases mods.len(),
{
    if mods.len() == 0 {
        mods
    } else {
        let prev = kept_modules(mods.drop_last(), enabled);
        if listed(enabled, mods.last().spec_id()) {
            prev.push(mods.last())
        } else {
            prev
        }
    }
}

/// The outcome of resolving the enabled ids, in order, when `loaded` are
/// already loaded: each id neither loaded nor met before, with its source.
pub open spec fn load_plan(
    enabled: Seq<String>,
    loaded: Seq<Seq<char>>,
    aliases: Seq<(String, String)>,
) -> Seq<(Seq<char>, (SourceKind, Seq<char>))>
    decreases enabled.len(),
{
    if enabled.len() == 0 {
        Seq::empty()
    } else {
        let prev = load_plan(enabled.drop_last(), loaded, aliases);
        let id = enabled.last()@;
        if loaded.contains(id) || prev.map_values(|e: (Seq<char>, (SourceKind, Seq<char>))| e.0).contains(
            id,
        ) {
            prev
        } else {
            prev.push((id, source_spec(id, aliases)))
        }
    }
}

/// The ids of the modules drawn in one pass: those with an area, in order.
pub open spec fn drawn_ids<M: Module>(mods: Seq<M>, areas: Map<Seq<char>, Rect>) -> Seq<
    Seq<char>,
>
    decreases mods.len(),
{
    if mods.len() == 0 {
        Seq::empty()
    } else {
        let prev = drawn_ids(mods.drop_last(), areas);
        if areas.contains_key(mods.last().spec_id()) {
            prev.push(mods.last().spec_id())
        } else {
            prev
        }
    }
}

/// Whether two rectangles share no point.
pub open spec fn disjoint(a: Rect, b: Rect) -> bool {
    a.x + a.width <= b.x || b.x + b.width <= a.x || a.y + a.height <= b.y || b.y + b.height
        <= a.y
}

/// The first module whose area contains `(x, y)` exists once any does.
pub proof fn lemma_first_hit_exists<M: Module>(reg: &ModuleRegistry<M>, a: int, x: int, y: int)
    requires
        0 <= a < reg.modules().len(),
        reg.hits(a, x, y),
    ensures
        exists|i: int| 0 <= i <= a && #[trigger] reg.is_first_hit(i, x, y),
    decreases a,
{
    if exists|j: int| 0 <= j < a && #[trigger] reg.hits(j, x, y) {
        let j = choose|j: int| 0 <= j < a && #[trigger] reg.hits(j, x, y);
        lemma_first_hit_exists(reg, j, x, y);
    } else {
        assert(reg.is_first_hit(a, x, y));
    }
}

/// A positional event inside the area of module `a` is routed to some
/// module, and never to a module `b` whose area does not overlap `a`'s.
pub proof fn lemma_hit_exclusive<M: Module>(
    reg: &ModuleRegistry<M>,
    a: int,
    b: int,
    x: int,
    y: int,
)
    requires
        0 <= a < reg.modules().len(),
        0 <= b < reg.modules().len(),
        reg.area_spec(a) is Some,
        reg.area_spec(b) is Some,
        disjoint(reg.area_spec(a)->Some_0, reg.area_spec(b)->Some_0),
        reg.area_spec(a)->Some_0.contains_spec(x, y),
    ensures
        exists|i: int| #[trigger] reg.is_first_hit(i, x, y),
        forall|i: int| #[trigger] reg.is_first_hit(i, x, y) ==> i != b,
{
    lemma_first_hit_exists(reg, a, x, y);
}

/// The kept modules are all enabled.
pub proof fn lemma_kept_enabled<M: Module>(mods: Seq<M>, enabled: Seq<String>)
    ensures
        forall|i: int|
            0 <= i < kept_modules(mods, enabled).len() ==> listed(
                enabled,
                #[trigger] kept_modules(mods, enabled)[i].spec_id(),
            ),
    decreases mods.len(),
{
    if mods.len() > 0 {
        lemma_kept_enabled(mods.drop_last(), enabled);
        let prev = kept_modules(mods.drop_last(), enabled);
        let k = kept_modules(mods, enabled);
        assert forall|i: int| 0 <= i < k.len() implies listed(enabled, #[trigger] k[i].spec_id()) by {
            if i < prev.len() {
                assert(k[i] == prev[i]);
            }
        }
    }
}

/// A draw pass draws only loaded modules.
pub proof fn lemma_drawn_loaded<M: Module>(mods: Seq<M>, areas: Map<Seq<char>, Rect>, id: Seq<char>)
    requires
        drawn_ids(mods, areas).contains(id),
    ensures
        ids_of(mods).contains(id),
    decreases mods.len(),
{
    let prev = drawn_ids(mods.drop_last(), areas);
    if prev.contains(id) {
        lemma_drawn_loaded(mods.drop_last(), areas, id);
        let j = choose|j: int| 0 <= j < ids_of(mods.drop_last()).len() && ids_of(mods.drop_last())[j] == id;
        assert(ids_of(mods)[j] == id);
    } else {
        assert(id == mods.last().spec_id());
        assert(ids_of(mods)[mods.len() - 1] == id);
    }
}

/// Once the enabled list no longer holds `id`, reloading unloads its
/// modules: the next layout gives it no area and no draw pass draws it.
pub proof fn lemma_reload_drops<M: Module>(
    mods: Seq<M>,
    enabled: Seq<String>,
    id: Seq<char>,
    config: NotchConfig,
    expanded: bool,
    areas: Map<Seq<char>, Rect>,
)
    requires
        !listed(enabled, id),
    ensures
        !ids_of(kept_modules(mods, enabled)).contains(id),
        !layout_spec(config, kept_modules(mods, enabled), expanded).contains_key(id),
        !drawn_ids(kept_modules(mods, enabled), areas).contains(id),
{
    let kept = kept_modules(mods, enabled);
    lemma_kept_enabled(mods, enabled);
    if ids_of(kept).contains(id) {
        let j = choose|j: int| 0 <= j < ids_of(kept).len() && ids_of(kept)[j] == id;
        assert(listed(enabled, kept[j].spec_id()));
    }
    lemma_layout_places_loaded(config, kept, expanded);
    if drawn_ids(kept, areas).contains(id) {
        lemma_drawn_loaded(kept, areas, id);
    }
}


/// Whether `t` is the table module `id` is initialized with: its
/// configured table, else an empty one.
pub open spec fn table_for(config: NotchConfig, id: Seq<char>, t: toml::Table) -> bool {
    match lookup(config.modules.module_configs@, id) {
        Some(c) => t == c,
        None => table_keys(t) == Set::<Seq<char>>::empty(),
    }
}

/// The ids of the modules whose initialization with the matching table of
/// `tables` fails, in order.
pub open spec fn init_failed_ids<M: Module>(mods: Seq<M>, tables: Seq<toml::Table>) -> Seq<
    Seq<char>,
>
    decreases mods.len(),
{
    if mods.len() == 0 || tables.len() == 0 {
        Seq::empty()
    } else {
        let prev = init_failed_ids(mods.drop_last(), tables.drop_last());
        if mods.last().spec_init_ok(tables.last()) {
            prev
        } else {
            prev.push(mods.last().spec_id())
        }
    }
}

/// What applying the load plan `steps` does, given for each plugin step the
/// plugin's library and module where it loaded (`plugins`, by step index):
/// the ids of the modules added, in order (a built-in's id, a loaded
/// plugin's module id), how many libraries are kept, the library paths that
/// did not load, and the unknown ids.
pub open spec fn plan_outcome<M: Module>(
    steps: Seq<(String, ModuleSource)>,
    plugins: Seq<Option<(libloading::Library, M)>>,
) -> (Seq<Seq<char>>, nat, Seq<Seq<char>>, Seq<Seq<char>>)
    decreases steps.len(),
{
    if steps.len() == 0 {
        (Seq::empty(), 0, Seq::empty(), Seq::empty())
    } else {
        let (a, l, f, u) = plan_outcome(steps.drop_last(), plugins);
        let j = steps.len() - 1;
        match steps.last().1 {
            ModuleSource::Builtin(k) => (a.push(builtin_id(k)), l, f, u),
            ModuleSource::Plugin(path) => if j < plugins.len() && plugins[j] is Some {
                (a.push(plugins[j]->Some_0.1.spec_id()), l + 1, f, u)
            } else {
                (a, l, f.push(path@), u)
            },
            ModuleSource::Unknown => (a, l, f, u.push(steps.last().0@)),
        }
    }
}

/// What applying a load plan reports: the library paths that did not
/// load, the ids that name no module, and the failed initializations.
pub struct ApplyReport {
    pub failed_plugins: Vec<String>,
    pub unknown: Vec<String>,
    pub init_failures: Vec<InitFailure>,
}

/// The positions of the modules drawn in one pass: those with an area, in
/// order.
pub open spec fn drawn_positions<M: Module>(mods: Seq<M>, areas: Map<Seq<char>, Rect>) -> Seq<int>
    decreases mods.len(),
{
    if mods.len() == 0 {
        Seq::empty()
    } else {
        let prev = drawn_positions(mods.drop_last(), areas);
        if areas.contains_key(mods.last().spec_id()) {
            prev.push(mods.len() - 1)
        } else {
            prev
        }
    }
}

/// Manages the collection of loaded modules.
pub struct ModuleRegistry<M: Module> {
    modules: Vec<M>,
    module_areas: ModuleLayout,
    external_libs: Vec<libloading::Library>,
}

impl<M: Module> ModuleRegistry<M> {
    /// The loaded modules, in registration order.
    pub closed spec fn modules(&self) -> Seq<M> {
        self.modules@
    }

    /// The area assigned to each module id by the last layout.
    pub closed spec fn areas(&self) -> Map<Seq<char>, Rect> {
        self.module_areas@
    }

    /// How many plugin libraries are held.
    pub closed spec fn library_count(&self) -> nat {
        self.external_libs@.len()
    }

    /// Every id with an area is the id of a loaded module.
    pub open spec fn wf(&self) -> bool {
        forall|k: Seq<char>| #[trigger]
            self.areas().contains_key(k) ==> ids_of(self.modules()).contains(k)
    }

    /// The area of module `i`, if the layout gave it one.
    pub open spec fn area_spec(&self, i: int) -> Option<Rect> {
        let id = self.modules()[i].spec_id();
        if self.areas().contains_key(id) {
            Some(self.areas()[id])
        } else {
            None
        }
    }

    /// Whether the area of module `i` contains `(x, y)`.
    pub open spec fn hits(&self, i: int, x: int, y: int) -> bool {
        match self.area_spec(i) {
            Some(a) => a.contains_spec(x, y),
            None => false,
        }
    }

    /// Whether module `i` is the first, in registration order, whose area
    /// contains `(x, y)`.
    pub open spec fn is_first_hit(&self, i: int, x: int, y: int) -> bool {
        0 <= i < self.modules().len() && self.hits(i, x, y) && forall|j: int|
            0 <= j < i ==> !#[trigger] self.hits(j, x, y)
    }

    /// After a positional event at `(x, y)`: without a module whose area
    /// contains the point nothing changed and the event was not handled;
    /// otherwise every module but the first such one is unchanged.
    pub open spec fn routed(&self, after: &Self, event: ModuleEvent, x: int, y: int, r: bool) -> bool {
        &&& (forall|i: int| !self.is_first_hit(i, x, y)) ==> (!r && after.modules()
            == self.modules())
        &&& forall|i: int|
            #[trigger] self.is_first_hit(i, x, y) ==> r == self.modules()[i].spec_handles(
                event,
                self.area_spec(i)->Some_0,
            )
        &&& forall|i: int, j: int|
            #![trigger self.is_first_hit(i, x, y), after.modules()[j]]
            self.is_first_hit(i, x, y) && 0 <= j < self.modules().len() && j != i
                ==> after.modules()[j] == self.modules()[j]
    }

    /// Whether some module with an area, as it is, consumes `event`.
    pub open spec fn some_handles(&self, event: ModuleEvent) -> bool {
        exists|i: int|
            0 <= i < self.modules().len() && #[trigger] self.area_spec(i) is Some
                && self.modules()[i].spec_handles(event, self.area_spec(i)->Some_0)
    }

    /// After a broadcast event: every module without an area is unchanged.
    pub open spec fn broadcast_keeps(&self, after: &Self) -> bool {
        forall|j: int|
            0 <= j < self.modules().len() && self.area_spec(j) is None ==> #[trigger] after.modules()[j]
                == self.modules()[j]
    }

    /// Whether pixel `p` of a canvas `w` pixels wide lies outside the area
    /// of every module.
    pub open spec fn outside_areas(&self, p: int, w: int) -> bool {
        forall|i: int|
            0 <= i < self.modules().len() ==> match #[trigger] self.area_spec(i) {
                Some(a) => !in_rect(p, w, a),
                None => true,
            }
    }

    /// Whether `steps` are the canvases of a draw pass on a `w` x `h` canvas
    /// whose text renderer has the font data `text`: one step per module with
    /// an area, in registration order, each as that module draws into its
    /// area.
    pub open spec fn draw_chain(&self, steps: Seq<Seq<u8>>, w: int, h: int, text: Option<Seq<u8>>) -> bool {
        let pos = drawn_positions(self.modules(), self.areas());
        &&& steps.len() == pos.len() + 1
        &&& forall|k: int|
            0 <= k < pos.len() ==> self.modules()[#[trigger] pos[k]].spec_draws(
                steps[k],
                steps[k + 1],
                w,
                h,
                text,
                self.area_spec(pos[k])->Some_0,
            )
    }

    /// Create a new empty module registry.
    pub fn new() -> (r: Self)
        ensures
            r.modules() == Seq::<M>::empty(),
            r.areas() == Map::<Seq<char>, Rect>::empty(),
            r.library_count() == 0,
            r.wf(),
    {
        ModuleRegistry {
            modules: Vec::new(),
            module_areas: ModuleLayout::new(),
            external_libs: Vec::new(),
        }
    }

    /// Add a module to the registry.
    pub fn add_module(&mut self, module: M)
        requires
            old(self).wf(),
        ensures
            final(self).modules() == old(self).modules().push(module),
            final(self).areas() == old(self).areas(),
            final(self).library_count() == old(self).library_count(),
            final(self).wf(),
    {
        let ghost old_mods = self.modules@;
        let ghost old_ids = ids_of(self.modules@);
        self.modules.push(module);
        proof {
            assert forall|k: Seq<char>| #[trigger] self.areas().contains_key(k) implies ids_of(
                self.modules(),
            ).contains(k) by {
                assert(old(self).areas().contains_key(k));
                assert(old_ids.contains(k));
                let j = choose|j: int| 0 <= j < old_ids.len() && old_ids[j] == k;
                assert(self.modules@[j] == old_mods[j]);
                assert(ids_of(self.modules())[j] == k);
            }
        }
    }

    /// Add a module created by a plugin, keeping its library loaded for as
    /// long as the registry lives. The library is released only after every
    /// module, since the modules' code lives in it.
    pub fn add_plugin(&mut self, library: libloading::Library, module: M)
        requires
            old(self).wf(),
        ensures
            final(self).modules() == old(self).modules().push(module),
            final(self).areas() == old(self).areas(),
            final(self).library_count() == old(self).library_count() + 1,
            final(self).wf(),
    {
        self.add_module(module);
        self.external_libs.push(library);
    }

    /// Whether any module is loaded.
    pub fn has_modules(&self) -> (r: bool)
        ensures
            r == (self.modules().len() > 0),
    {
        self.modules.len() > 0
    }

    /// The area of module `i`, if the layout gave it one.
    fn area_at(&self, i: usize) -> (r: Option<Rect>)
        requires
            i < self.modules().len(),
        ensures
            r == self.area_spec(i as int),
    {
        self.module_areas.get(self.modules[i].id())
    }
    /// Recompute the areas for the given configuration and expansion
    /// state; the new areas replace the old ones at once.
    pub fn calculate_layout(&mut self, config: &NotchConfig, expanded: bool)
        ensures
            final(self).modules() == old(self).modules(),
            final(self).areas() == layout_spec(*config, old(self).modules(), expanded),
            final(self).library_count() == old(self).library_count(),
            final(self).wf(),
    {
        let layout = calculate_module_layout(config, self.modules.as_slice(), expanded);
        self.module_areas = layout;
        proof {
            lemma_layout_places_loaded(*config, self.modules@, expanded);
        }
    }

    /// Send an event to the modules. A positional event goes to the first
    /// module, in registration order, whose area contains its position, and
    /// to no other, even when that module declines it; without such a
    /// module it is not handled. Other events go, in order, to each module
    /// with an area until one handles them.
    pub fn handle_event(&mut self, event: &ModuleEvent) -> (r: bool)
        requires
            old(self).wf(),
        ensures
            final(self).wf(),
            final(self).areas() == old(self).areas(),
            final(self).library_count() == old(self).library_count(),
            final(self).modules().len() == old(self).modules().len(),
            ids_of(final(self).modules()) == ids_of(old(self).modules()),
            match event.position_spec() {
                Some(p) => old(self).routed(final(self), *event, p.0 as int, p.1 as int, r),
                None => old(self).broadcast_keeps(final(self)) && r == old(self).some_handles(
                    *event,
                ),
            },
    {
        let ghost old_mods = self.modules@;
        match event.position() {
            Some((x, y)) => {
                let mut i: usize = 0;
                while i < self.modules.len()
                    invariant
                        0 <= i <= self.modules@.len(),
                        old(self).wf(),
                        event.position_spec() == Some((x, y)),
                        self.modules@ == old(self).modules@,
                        self.module_areas == old(self).module_areas,
                        self.external_libs == old(self).external_libs,
                        old_mods == old(self).modules@,
                        forall|j: int| 0 <= j < i ==> !#[trigger] old(self).hits(j, x as int, y as int),
                    decreases self.modules@.len() - i,
                {
                    if let Some(area) = self.area_at(i) {
                        if area.contains(x, y) {
                            assert(old(self).is_first_hit(i as int, x as int, y as int));
                            let handled = self.modules[i].handle_event(event, area);
                            proof {
                                assert(ids_of(self.modules()) =~= ids_of(old_mods));
                                assert forall|k: Seq<char>| #[trigger] self.areas().contains_key(
                                    k,
                                ) implies ids_of(self.modules()).contains(k) by {
                                    assert(old(self).areas().contains_key(k));
                                    assert(ids_of(old_mods).contains(k));
                                    assert(ids_of(old_mods) == ids_of(self.modules()));
                                }
                                assert forall|k: int, j: int|
                                    #![trigger old(self).is_first_hit(k, x as int, y as int), self.modules()[j]]
                                    old(self).is_first_hit(k, x as int, y as int) && 0 <= j
                                        < old_mods.len() && j != k implies self.modules()[j]
                                    == old_mods[j] by {
                                    if k < i {
                                        assert(!old(self).hits(k, x as int, y as int));
                                    } else if k > i {
                                        assert(!old(self).hits(i as int, x as int, y as int));
                                    }
                                }
                            }
                            assert(!(forall|k: int| !old(self).is_first_hit(k, x as int, y as int)));
                            assert forall|k: int| #[trigger]
                                old(self).is_first_hit(k, x as int, y as int) implies handled
                                == old_mods[k].spec_handles(*event, old(self).area_spec(k)->Some_0) by {
                                if k < i {
                                    assert(!old(self).hits(k, x as int, y as int));
                                } else if k > i {
                                    assert(!old(self).hits(i as int, x as int, y as int));
                                }
                            }
                            assert(old(self).routed(self, *event, x as int, y as int, handled));
                            return handled;
                        }
                    }
                    i = i + 1;
                }
                false
            },
            None => {
                let mut i: usize = 0;
                while i < self.modules.len()
                    invariant
                        0 <= i <= self.modules@.len(),
                        old(self).wf(),
                        event.position_spec() is None,
                        self.modules@.len() == old_mods.len(),
                        old_mods == old(self).modules@,
                        ids_of(self.modules@) == ids_of(old_mods),
                        self.module_areas == old(self).module_areas,
                        self.external_libs == old(self).external_libs,
                        forall|j: int|
                            0 <= j < old_mods.len() && old(self).area_spec(j) is None
                                ==> #[trigger] self.modules@[j] == old_mods[j],
                        forall|j: int| i <= j < old_mods.len() ==> #[trigger] self.modules@[j] == old_mods[j],
                        forall|j: int|
                            0 <= j < i && #[trigger] old(self).area_spec(j) is Some ==> !old_mods[j].spec_handles(
                                *event,
                                old(self).area_spec(j)->Some_0,
                            ),
                    decreases self.modules@.len() - i,
                {
                    assert(ids_of(self.modules@)[i as int] == ids_of(old_mods)[i as int]);
                    if let Some(area) = self.area_at(i) {
                        let ghost before = self.modules@;
                        assert(old(self).area_spec(i as int) is Some);
                        let handled = self.modules[i].handle_event(event, area);
                        proof {
                            assert(ids_of(self.modules@) =~= ids_of(before));
                            assert forall|j: int|
                                0 <= j < old_mods.len() && old(self).area_spec(j) is None
                                    implies #[trigger] self.modules@[j] == old_mods[j] by {
                                assert(before[j] == old_mods[j]);
                            }
                            assert forall|k: Seq<char>| #[trigger] self.areas().contains_key(
                                k,
                            ) implies ids_of(self.modules()).contains(k) by {
                                assert(old(self).areas().contains_key(k));
                                assert(ids_of(old_mods).contains(k));
                                assert(ids_of(old_mods) == ids_of(self.modules()));
                            }
                        }
                        proof {
                            assert forall|j: int| i < j < old_mods.len() implies #[trigger] self.modules@[j]
                                == old_mods[j] by {
                                assert(before[j] == old_mods[j]);
                            }
                        }
                        if handled {
                            assert(old(self).area_spec(i as int) is Some && old_mods[i as int].spec_handles(
                                *event,
                                old(self).area_spec(i as int)->Some_0,
                            ));
                            return true;
                        }
                    }
                    i = i + 1;
                }
                false
            },
        }
    }

    /// Draw every module that has an area into it, in registration order.
    /// A module's failure is reported and does not stop the others.
    pub fn draw(&mut self, canvas: &mut Canvas) -> (r: DrawReport)
        ensures
            final(self).modules() == old(self).modules(),
            final(self).areas() == old(self).areas(),
            final(self).library_count() == old(self).library_count(),
            r.drawn@.map_values(|s: String| s@) == drawn_ids(old(self).modules(), old(self).areas()),
            final(canvas).spec_width() == old(canvas).spec_width(),
            final(canvas).spec_height() == old(canvas).spec_height(),
            final(canvas).pixels().len() == old(canvas).pixels().len(),
            forall|b: int|
                0 <= b < old(canvas).pixels().len() && old(self).outside_areas(
                    pixel_of(b),
                    old(canvas).spec_width() as int,
                ) ==> #[trigger] final(canvas).pixels()[b] == old(canvas).pixels()[b],
            final(canvas).text_source() == old(canvas).text_source(),
            exists|steps: Seq<Seq<u8>>|
                {
                    &&& old(self).draw_chain(
                        steps,
                        old(canvas).spec_width() as int,
                        old(canvas).spec_height() as int,
                        old(canvas).text_source(),
                    )
                    &&& steps[0] == old(canvas).pixels()
                    &&& steps.last() == final(canvas).pixels()
                },
    {
        let ghost w = canvas.spec_width() as int;
        let ghost h = canvas.spec_height() as int;
        let ghost src = canvas.text_source();
        let ghost before = canvas.pixels();
        let ghost mut steps: Seq<Seq<u8>> = seq![before];
        let mut drawn: Vec<String> = Vec::new();
        let mut failures: Vec<DrawFailure> = Vec::new();
        let mut i: usize = 0;
        proof {
            assert(self.modules@.take(0) =~= Seq::<M>::empty());
            assert(drawn@.map_values(|s: String| s@) =~= Seq::<Seq<char>>::empty());
        }
        while i < self.modules.len()
            invariant
                0 <= i <= self.modules@.len(),
                canvas.spec_width() == old(canvas).spec_width(),
                canvas.spec_height() == old(canvas).spec_height(),
                w == old(canvas).spec_width(),
                before == old(canvas).pixels(),
                canvas.pixels().len() == before.len(),
                forall|b: int|
                    0 <= b < before.len() && self.outside_areas(pixel_of(b), w) ==> #[trigger] canvas.pixels()[b]
                        == before[b],
                drawn@.map_values(|s: String| s@) == drawn_ids(
                    self.modules@.take(i as int),
                    self.module_areas@,
                ),
                h == old(canvas).spec_height(),
                src == old(canvas).text_source(),
                canvas.text_source() == src,
                steps.len() == drawn_positions(self.modules@.take(i as int), self.module_areas@).len()
                    + 1,
                steps[0] == before,
                steps.last() == canvas.pixels(),
                forall|k: int|
                    0 <= k < drawn_positions(self.modules@.take(i as int), self.module_areas@).len()
                        ==> self.modules@[#[trigger] drawn_positions(
                        self.modules@.take(i as int),
                        self.module_areas@,
                    )[k]].spec_draws(
                        steps[k],
                        steps[k + 1],
                        w,
                        h,
                        src,
                        self.area_spec(
                            drawn_positions(self.modules@.take(i as int), self.module_areas@)[k],
                        )->Some_0,
                    ),
                forall|k: int|
                    0 <= k < drawn_positions(self.modules@.take(i as int), self.module_areas@).len()
                        ==> 0 <= #[trigger] drawn_positions(
                        self.modules@.take(i as int),
                        self.module_areas@,
                    )[k] < i && self.area_spec(
                        drawn_positions(self.modules@.take(i as int), self.module_areas@)[k],
                    ) is Some,
            decreases self.modules@.len() - i,
        {
            let ghost pos = drawn_positions(self.modules@.take(i as int), self.module_areas@);
            proof {
                assert(self.modules@.take(i as int + 1).drop_last() =~= self.modules@.take(i as int));
                assert(self.modules@.take(i as int + 1).last() == self.modules@[i as int]);
            }
            if let Some(area) = self.area_at(i) {
                let m = &self.modules[i];
                drawn.push(m.id().to_owned());
                let ghost mid = canvas.pixels();
                let result = m.draw(canvas, area);
                proof {
                    assert forall|b: int|
                        0 <= b < before.len() && self.outside_areas(pixel_of(b), w) implies #[trigger] canvas.pixels()[b]
                        == before[b] by {
                        assert(self.area_spec(i as int) == Some(area));
                        assert(canvas.pixels()[b] == mid[b]);
                    }
                    let old_steps = steps;
                    steps = steps.push(canvas.pixels());
                    let npos = drawn_positions(self.modules@.take(i as int + 1), self.module_areas@);
                    assert(npos == pos.push(i as int));
                    assert forall|k: int| 0 <= k < npos.len() implies self.modules@[#[trigger] npos[k]].spec_draws(
                        steps[k],
                        steps[k + 1],
                        w,
                        h,
                        src,
                        self.area_spec(npos[k])->Some_0,
                    ) by {
                        if k < pos.len() {
                            assert(npos[k] == pos[k]);
                            assert(steps[k] == old_steps[k]);
                            assert(steps[k + 1] == old_steps[k + 1]);
                        } else {
                            assert(npos[k] == i);
                            assert(steps[k] == mid);
                        }
                    }
                }
                match result {
                    Ok(()) => {},
                    Err(e) => {
                        failures.push(DrawFailure { module_name: m.name().to_owned(), error: e });
                    },
                }
            }
            proof {
                assert(drawn@.map_values(|s: String| s@) =~= drawn_ids(
                    self.modules@.take(i as int + 1),
                    self.module_areas@,
                ));
            }
            i = i + 1;
        }
        proof {
            assert(self.modules@.take(self.modules@.len() as int) =~= self.modules@);
            assert(old(self).draw_chain(steps, w, h, src));
        }
        DrawReport { drawn, failures }
    }

    /// Initialize every module, in order, with its configuration table, or
    /// an empty table when it has none. A module's failure is reported and
    /// it stays registered; the others are still initialized.
    pub fn init_modules(&mut self, config: &NotchConfig) -> (r: Vec<InitFailure>)
        requires
            old(self).wf(),
        ensures
            final(self).wf(),
            final(self).areas() == old(self).areas(),
            final(self).library_count() == old(self).library_count(),
            final(self).modules().len() == old(self).modules().len(),
            ids_of(final(self).modules()) == ids_of(old(self).modules()),
            exists|tables: Seq<toml::Table>|
                {
                    &&& tables.len() == old(self).modules().len()
                    &&& forall|i: int|
                        0 <= i < tables.len() ==> table_for(
                            *config,
                            old(self).modules()[i].spec_id(),
                            #[trigger] tables[i],
                        )
                    &&& r@.map_values(|f: InitFailure| f.module_id@) == init_failed_ids(
                        old(self).modules(),
                        tables,
                    )
                },
    {
        let ghost old_mods = self.modules@;
        let ghost mut tables: Seq<toml::Table> = Seq::empty();
        let mut failures: Vec<InitFailure> = Vec::new();
        let mut i: usize = 0;
        proof {
            assert(old_mods.take(0) =~= Seq::<M>::empty());
            assert(failures@.map_values(|f: InitFailure| f.module_id@) =~= Seq::<Seq<char>>::empty());
        }
        while i < self.modules.len()
            invariant
                0 <= i <= self.modules@.len(),
                self.modules@.len() == old_mods.len(),
                old_mods == old(self).modules@,
                ids_of(self.modules@) == ids_of(old_mods),
                self.module_areas == old(self).module_areas,
                self.external_libs == old(self).external_libs,
                forall|j: int| i <= j < old_mods.len() ==> #[trigger] self.modules@[j] == old_mods[j],
                tables.len() == i,
                forall|j: int|
                    0 <= j < i ==> table_for(*config, old_mods[j].spec_id(), #[trigger] tables[j]),
                failures@.map_values(|f: InitFailure| f.module_id@) == init_failed_ids(
                    old_mods.take(i as int),
                    tables,
                ),
            decreases self.modules@.len() - i,
        {
            let ghost before = self.modules@;
            let ghost before_failures = failures@;
            assert(self.modules@[i as int] == old_mods[i as int]);
            let found = find_entry(&config.modules.module_configs, self.modules[i].id());
            let ghost table: toml::Table;
            let result = match found {
                Some(k) => {
                    proof {
                        table = config.modules.module_configs@[k as int].1;
                    }
                    self.modules[i].init(&config.modules.module_configs[k].1)
                },
                None => {
                    let empty = empty_table();
                    proof {
                        table = empty;
                    }
                    self.modules[i].init(&empty)
                },
            };
            proof {
                assert(ids_of(self.modules@) =~= ids_of(before));
                assert(table_for(*config, old_mods[i as int].spec_id(), table));
                assert(result is Ok == old_mods[i as int].spec_init_ok(table));
                assert forall|j: int| i < j < old_mods.len() implies #[trigger] self.modules@[j]
                    == old_mods[j] by {
                    assert(before[j] == old_mods[j]);
                }
            }
            let ghost pre = old_mods.take(i as int + 1);
            let ghost tpre = tables.push(table);
            proof {
                assert(pre.drop_last() =~= old_mods.take(i as int));
                assert(tpre.drop_last() =~= tables);
                assert(ids_of(self.modules@)[i as int] == old_mods[i as int].spec_id());
            }
            if let Err(e) = result {
                let id = self.modules[i].id().to_owned();
                failures.push(InitFailure { module_id: id, error: e });
            }
            proof {
                tables = tpre;
                assert(failures@.map_values(|f: InitFailure| f.module_id@) =~= init_failed_ids(
                    pre,
                    tables,
                ));
            }
            i = i + 1;
        }
        proof {
            assert(old_mods.take(old_mods.len() as int) =~= old_mods);
        }
        proof {
            assert forall|k: Seq<char>| #[trigger] self.areas().contains_key(k) implies ids_of(
                self.modules(),
            ).contains(k) by {
                assert(old(self).areas().contains_key(k));
            }
        }
        failures
    }

    /// Unload the modules whose id is not enabled, with their areas.
    pub fn retain_enabled(&mut self, enabled: &Vec<String>)
        requires
            old(self).wf(),
        ensures
            final(self).modules() == kept_modules(old(self).modules(), enabled@),
            forall|k: Seq<char>| #[trigger]
                final(self).areas().contains_key(k) ==> old(self).areas().contains_key(k)
                    && final(self).areas()[k] == old(self).areas()[k],
            forall|k: Seq<char>| #[trigger]
                old(self).areas().contains_key(k) ==> (final(self).areas().contains_key(k)
                    <==> ids_of(final(self).modules()).contains(k)),
            final(self).library_count() == old(self).library_count(),
            final(self).wf(),
    {
        let ghost old_mods = self.modules@;
        let count = self.modules.len();
        let mut rest: Vec<M> = Vec::new();
        std::mem::swap(&mut self.modules, &mut rest);
        let mut kept_ids: Vec<String> = Vec::new();
        let mut c: usize = 0;
        proof {
            assert(old_mods.take(0) =~= Seq::<M>::empty());
            assert(old_mods.subrange(0, old_mods.len() as int) =~= old_mods);
            assert(kept_ids@.map_values(|s: String| s@) =~= ids_of(self.modules@));
        }
        while rest.len() > 0
            invariant
                c + rest@.len() == old_mods.len(),
                old_mods.len() == count,
                rest@ == old_mods.subrange(c as int, old_mods.len() as int),
                self.modules@ == kept_modules(old_mods.take(c as int), enabled@),
                kept_ids@.map_values(|s: String| s@) == ids_of(self.modules@),
                self.module_areas == old(self).module_areas,
                self.external_libs == old(self).external_libs,
            decreases rest@.len(),
        {
            let m = rest.remove(0);
            proof {
                assert(old_mods.take(c as int + 1).drop_last() =~= old_mods.take(c as int));
                assert(old_mods.take(c as int + 1).last() == m);
                assert(rest@ =~= old_mods.subrange(c as int + 1, old_mods.len() as int));
            }
            if contains_text(enabled, m.id()) {
                let text = m.id().to_owned();
                let ghost before_mods = self.modules@;
                assert(text@ == m.spec_id());
                kept_ids.push(text);
                self.modules.push(m);
                assert(ids_of(self.modules@) =~= ids_of(before_mods).push(m.spec_id()));
                proof {
                    assert(kept_ids@.map_values(|s: String| s@) =~= ids_of(self.modules@));
                }
            }
            c = c + 1;
        }
        proof {
            assert(old_mods.take(c as int) =~= old_mods);
        }
        self.module_areas.retain_ids(&kept_ids);
        proof {
            let ids = ids_of(self.modules@);
            assert forall|k: Seq<char>| id_listed(kept_ids@, k) <==> ids.contains(k) by {
                if id_listed(kept_ids@, k) {
                    let j = choose|j: int| 0 <= j < kept_ids@.len() && #[trigger] kept_ids@[j]@ == k;
                    assert(kept_ids@.map_values(|s: String| s@)[j] == k);
                }
                if ids.contains(k) {
                    let j = choose|j: int| 0 <= j < ids.len() && ids[j] == k;
                    assert(kept_ids@.map_values(|s: String| s@)[j] == k);
                }
            }
        }
    }

    /// Bring the loaded modules in line with the enabled list: unload those
    /// not enabled, then resolve, in order, each enabled id not yet loaded.
    /// The report says what the caller is to create or load and add.
    pub fn load_modules_from_config(&mut self, config: &NotchConfig) -> (r: LoadReport)
        requires
            old(self).wf(),
        ensures
            final(self).modules() == kept_modules(old(self).modules(), config.modules.enabled@),
            forall|k: Seq<char>| #[trigger]
                final(self).areas().contains_key(k) ==> old(self).areas().contains_key(k)
                    && final(self).areas()[k] == old(self).areas()[k],
            forall|k: Seq<char>| #[trigger]
                old(self).areas().contains_key(k) ==> (final(self).areas().contains_key(k)
                    <==> ids_of(final(self).modules()).contains(k)),
            final(self).library_count() == old(self).library_count(),
            final(self).wf(),
            steps_view(r.steps@) == load_plan(
                config.modules.enabled@,
                ids_of(final(self).modules()),
                config.modules.aliases@,
            ),
    {
        let enabled = &config.modules.enabled;
        let aliases = &config.modules.aliases;
        self.retain_enabled(enabled);
        let ghost loaded = ids_of(self.modules@);
        let mut steps: Vec<(String, ModuleSource)> = Vec::new();
        let mut k: usize = 0;
        proof {
            assert(enabled@.take(0) =~= Seq::<String>::empty());
            assert(steps_view(steps@) =~= Seq::<(Seq<char>, (SourceKind, Seq<char>))>::empty());
        }
        while k < enabled.len()
            invariant
                0 <= k <= enabled@.len(),
                *enabled == config.modules.enabled,
                *aliases == config.modules.aliases,
                loaded == ids_of(self.modules@),
                self.wf(),
                steps_view(steps@) == load_plan(enabled@.take(k as int), loaded, aliases@),
            decreases enabled@.len() - k,
        {
            let ghost pre = enabled@.take(k as int + 1);
            let ghost sv = steps_view(steps@);
            proof {
                assert(pre.drop_last() =~= enabled@.take(k as int));
                assert(pre.last() == enabled@[k as int]);
            }
            let id = enabled[k].as_str();
            let is_loaded = find_module(self.modules.as_slice(), id).is_some();
            let is_planned = find_entry(&steps, id).is_some();
            proof {
                crate::config::lemma_first_index(loaded, id@);
                crate::config::lemma_first_index(keys_of(steps@), id@);
                assert(keys_of(steps@) =~= sv.map_values(
                    |e: (Seq<char>, (SourceKind, Seq<char>))| e.0,
                ));
            }
            if !(is_loaded || is_planned) {
                let source = resolve_module_source(id, aliases);
                steps.push((enabled[k].clone(), source));
            }
            proof {
                assert(steps_view(steps@) =~= load_plan(pre, loaded, aliases@));
            }
            k = k + 1;
        }
        proof {
            assert(enabled@.take(enabled@.len() as int) =~= enabled@);
        }
        LoadReport { steps }
    }
}

impl<M: BuiltinFactory> ModuleRegistry<M> {
    /// Carry out a load plan: for each step in order, create the built-in
    /// module, or add the plugin's module with its library where it loaded
    /// (`plugins`, by step index); then initialize every module as
    /// `init_modules` does.
    pub fn apply_load_plan(
        &mut self,
        config: &NotchConfig,
        steps: &Vec<(String, ModuleSource)>,
        plugins: Vec<Option<(libloading::Library, M)>>,
    ) -> (r: ApplyReport)
        requires
            old(self).wf(),
        ensures
            final(self).wf(),
            final(self).areas() == old(self).areas(),
            ids_of(final(self).modules()) == ids_of(old(self).modules()) + plan_outcome(
                steps@,
                plugins@,
            ).0,
            final(self).library_count() == old(self).library_count() + plan_outcome(
                steps@,
                plugins@,
            ).1,
            r.failed_plugins@.map_values(|s: String| s@) == plan_outcome(steps@, plugins@).2,
            r.unknown@.map_values(|s: String| s@) == plan_outcome(steps@, plugins@).3,
            exists|added: Seq<M>, tables: Seq<toml::Table>|
                {
                    &&& ids_of(added) == ids_of(final(self).modules())
                    &&& tables.len() == added.len()
                    &&& forall|i: int|
                        0 <= i < tables.len() ==> table_for(
                            *config,
                            added[i].spec_id(),
                            #[trigger] tables[i],
                        )
                    &&& r.init_failures@.map_values(|f: InitFailure| f.module_id@)
                        == init_failed_ids(added, tables)
                },
    {
        let ghost orig = plugins@;
        let ghost old_ids = ids_of(self.modules@);
        let mut plugins = plugins;
        let mut failed_plugins: Vec<String> = Vec::new();
        let mut unknown: Vec<String> = Vec::new();
        let mut j: usize = 0;
        proof {
            assert(steps@.take(0) =~= Seq::<(String, ModuleSource)>::empty());
            assert(ids_of(self.modules@) =~= old_ids + Seq::<Seq<char>>::empty());
            assert(failed_plugins@.map_values(|s: String| s@) =~= Seq::<Seq<char>>::empty());
            assert(unknown@.map_values(|s: String| s@) =~= Seq::<Seq<char>>::empty());
        }
        while j < steps.len()
            invariant
                0 <= j <= steps@.len(),
                self.wf(),
                self.areas() == old(self).areas(),
                old_ids == ids_of(old(self).modules()),
                plugins@.len() == orig.len(),
                forall|k: int| j <= k < orig.len() ==> #[trigger] plugins@[k] == orig[k],
                ids_of(self.modules@) == old_ids + plan_outcome(steps@.take(j as int), orig).0,
                self.library_count() == old(self).library_count() + plan_outcome(
                    steps@.take(j as int),
                    orig,
                ).1,
                failed_plugins@.map_values(|s: String| s@) == plan_outcome(
                    steps@.take(j as int),
                    orig,
                ).2,
                unknown@.map_values(|s: String| s@) == plan_outcome(steps@.take(j as int), orig).3,
            decreases steps@.len() - j,
        {
            let ghost pre = steps@.take(j as int + 1);
            let ghost before_ids = ids_of(self.modules@);
            proof {
                assert(pre.drop_last() =~= steps@.take(j as int));
                assert(pre.last() == steps@[j as int]);
            }
            match &steps[j].1 {
                ModuleSource::Builtin(kind) => {
                    let m = M::create_builtin(*kind);
                    self.add_module(m);
                    proof {
                        assert(ids_of(self.modules@) =~= before_ids.push(builtin_id(*kind)));
                    }
                },
                ModuleSource::Plugin(path) => {
                    let mut slot: Option<(libloading::Library, M)> = None;
                    if j < plugins.len() {
                        std::mem::swap(&mut plugins[j], &mut slot);
                    }
                    match slot {
                        Some((library, module)) => {
                            let ghost mid = module.spec_id();
                            self.add_plugin(library, module);
                            proof {
                                assert(ids_of(self.modules@) =~= before_ids.push(mid));
                            }
                        },
                        None => {
                            failed_plugins.push(path.clone());
                        },
                    }
                },
                ModuleSource::Unknown => {
                    unknown.push(steps[j].0.clone());
                },
            }
            proof {
                assert(ids_of(self.modules@) =~= old_ids + plan_outcome(pre, orig).0);
                assert(failed_plugins@.map_values(|s: String| s@) =~= plan_outcome(pre, orig).2);
                assert(unknown@.map_values(|s: String| s@) =~= plan_outcome(pre, orig).3);
            }
            j = j + 1;
        }
        proof {
            assert(steps@.take(steps@.len() as int) =~= steps@);
        }
        let init_failures = self.init_modules(config);
        ApplyReport { failed_plugins, unknown, init_failures }
    }
}

} // verus!
