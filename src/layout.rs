//! Row/alignment layout: assigns each visible, loaded module a rectangle.
//!
//! Rows are laid out top to bottom. In a row, left-aligned modules run
//! from x = 0 rightwards, right-aligned ones from the row width leftwards,
//! and centre-aligned ones form a run centred in the row; neighbours are
//! `MODULE_GAP` apart. Positions are held within `i32`.
use crate::config::{
    find_entry,
    first_index,
    keys_of,
    lookup,
    LayoutRow,
    ModuleStateConfig,
    NotchConfig,
    DEFAULT_ROW_SPACING,
};
use crate::draw::{clamp_i32, min_int};
use crate::module::interface::{same_text, Module, Rect};
use vstd::prelude::*;

verus! {

/// Horizontal gap between neighbouring modules of a row.
pub const MODULE_GAP: u32 = 8;

/// Where a module sits in its row.
#[derive(Debug, Clone, Copy, PartialEq, Eq, Structural)]
pub enum Alignment {
    Left,
    Center,
    Right,
}

/// The alignment named by a configuration string: "left", "right", and
/// centre for anything else or nothing.
pub open spec fn alignment_of(a: Option<String>) -> Alignment {
    match a {
        Some(s) => if s@ == "left"@ {
            Alignment::Left
        } else if s@ == "right"@ {
            Alignment::Right
        } else {
            Alignment::Center
        },
        None => Alignment::Center,
    }
}

/// The alignment named by a configuration string.
pub fn parse_alignment(a: &Option<String>) -> (r: Alignment)
    ensures
        r == alignment_of(*a),
{
    match a {
        Some(s) => {
            if same_text(s.as_str(), "left") {
                Alignment::Left
            } else if same_text(s.as_str(), "right") {
                Alignment::Right
            } else {
                Alignment::Center
            }
        },
        None => Alignment::Center,
    }
}

/// Visibility and alignment of a module in the given expansion state:
/// its override for that state where set, else visible and centred.
pub open spec fn module_state_spec(config: NotchConfig, id: Seq<char>, expanded: bool) -> (
    bool,
    Alignment,
) {
    match lookup(config.modules.state@, id) {
        Some(set) => {
            let s = if expanded {
                set.expanded
            } else {
                set.collapsed
            };
            (
                match s.visible {
                    Some(v) => v,
                    None => true,
                },
                alignment_of(s.alignment),
            )
        },
        None => (true, Alignment::Center),
    }
}

/// Visibility and alignment of a module in the given expansion state.
pub fn module_state(config: &NotchConfig, id: &str, expanded: bool) -> (r: (bool, Alignment))
    ensures
        r == module_state_spec(*config, id@, expanded),
{
    match find_entry(&config.modules.state, id) {
        Some(i) => {
            let set = &config.modules.state[i].1;
            let s: &ModuleStateConfig = if expanded {
                &set.expanded
            } else {
                &set.collapsed
            };
            let visible = match s.visible {
                Some(v) => v,
                None => true,
            };
            (visible, parse_alignment(&s.alignment))
        },
        None => (true, Alignment::Center),
    }
}

/// The ids of a sequence of modules.
pub open spec fn ids_of<M: Module>(mods: Seq<M>) -> Seq<Seq<char>> {
    mods.map_values(|m: M| m.spec_id())
}

/// Position of the first module whose id is `id`.
pub fn find_module<M: Module>(mods: &[M], id: &str) -> (r: Option<usize>)
    ensures
        match r {
            Some(i) => i < mods@.len() && first_index(ids_of(mods@), id@) == Some(i as int),
            None => first_index(ids_of(mods@), id@) is None,
        },
{
    let ghost keys = ids_of(mods@);
    proof {
        crate::config::lemma_first_index(keys, id@);
    }
    let mut i: usize = 0;
    while i < mods.len()
        invariant
            0 <= i <= mods@.len(),
            keys == ids_of(mods@),
            forall|j: int| 0 <= j < i ==> #[trigger] keys[j] != id@,
            match first_index(keys, id@) {
                Some(k) => 0 <= k < keys.len() && keys[k] == id@ && forall|j: int|
                    0 <= j < k ==> #[trigger] keys[j] != id@,
                None => forall|j: int| 0 <= j < keys.len() ==> #[trigger] keys[j] != id@,
            },
        decreases mods@.len() - i,
    {
        assert(keys[i as int] == mods@[i as int].spec_id());
        if same_text(mods[i].id(), id) {
            return Some(i);
        }
        i = i + 1;
    }
    None
}

/// A module placed in a row: id, preferred width and height.
pub type Item = (Seq<char>, u32, u32);

/// The modules of a row that go to the bucket `al`, in row order: those
/// whose id is loaded, visible in this state, and aligned `al`, with the
/// size of the first loaded module of that id.
pub open spec fn bucket<M: Module>(
    config: NotchConfig,
    mods: Seq<M>,
    expanded: bool,
    refs: Seq<String>,
    al: Alignment,
) -> Seq<Item>
    decreases refs.len(),
{
    if refs.len() == 0 {
        Seq::empty()
    } else {
        let prev = bucket(config, mods, expanded, refs.drop_last(), al);
        let id = refs.last()@;
        let st = module_state_spec(config, id, expanded);
        match first_index(ids_of(mods), id) {
            Some(i) => if st.0 && st.1 == al {
                let size = mods[i].spec_preferred_size();
                prev.push((id, size.0, size.1))
            } else {
                prev
            },
            None => prev,
        }
    }
}

/// The pen position of a left-to-right run starting at `start`, before
/// its `k`-th module.
pub open spec fn run_x(items: Seq<Item>, start: int, k: int) -> int
    decreases k,
{
    if k <= 0 {
        start
    } else {
        clamp_i32(run_x(items, start, k - 1) + items[k - 1].1 + MODULE_GAP)
    }
}

/// The `k`-th module of a right-aligned run, counting from the right.
pub open spec fn from_right(items: Seq<Item>, k: int) -> Item {
    items[items.len() - 1 - k]
}

/// The pen of a right-to-left run starting at `start`, before its `k`-th
/// module counted from the right.
pub open spec fn right_pen(items: Seq<Item>, start: int, k: int) -> int
    decreases k,
{
    if k <= 0 {
        start
    } else {
        clamp_i32(
            clamp_i32(right_pen(items, start, k - 1) - from_right(items, k - 1).1) - MODULE_GAP,
        )
    }
}

/// The left edge of the `k`-th module of a right-to-left run, counted from
/// the right.
pub open spec fn right_x(items: Seq<Item>, start: int, k: int) -> int {
    clamp_i32(right_pen(items, start, k) - from_right(items, k).1)
}

/// The sum of the first `k` preferred widths.
pub open spec fn width_sum(items: Seq<Item>, k: int) -> int
    decreases k,
{
    if k <= 0 {
        0
    } else {
        width_sum(items, k - 1) + items[k - 1].1
    }
}

/// The width of a run of the given modules: their widths and the gaps
/// between them.
pub open spec fn span(items: Seq<Item>) -> int {
    if items.len() == 0 {
        0
    } else {
        width_sum(items, items.len() as int) + MODULE_GAP * (items.len() - 1)
    }
}

/// Where a centred run starts in a row `row_width` wide: half the free
/// space, or 0 when the run is wider than the row.
pub open spec fn center_start(items: Seq<Item>, row_width: int) -> int {
    if row_width >= span(items) {
        (row_width - span(items)) / 2
    } else {
        0
    }
}

/// The tallest preferred height among the first `k` modules (0 if none).
pub open spec fn max_height(items: Seq<Item>, k: int) -> int
    decreases k,
{
    if k <= 0 {
        0
    } else {
        let h = items[k - 1].2 as int;
        let m = max_height(items, k - 1);
        if h > m {
            h
        } else {
            m
        }
    }
}

/// The placements of a left-to-right run from `start` on row `y`.
pub open spec fn run_entries(items: Seq<Item>, start: int, y: int) -> Seq<(Seq<char>, Rect)> {
    Seq::new(
        items.len(),
        |k: int|
            (
                items[k].0,
                Rect {
                    x: run_x(items, start, k) as i32,
                    y: y as i32,
                    width: items[k].1,
                    height: items[k].2,
                },
            ),
    )
}

/// The placements of a right-to-left run from `start` on row `y`, in the
/// order they are made (rightmost first).
pub open spec fn right_entries(items: Seq<Item>, start: int, y: int) -> Seq<(Seq<char>, Rect)> {
    Seq::new(
        items.len(),
        |k: int|
            (
                from_right(items, k).0,
                Rect {
                    x: right_x(items, start, k) as i32,
                    y: y as i32,
                    width: from_right(items, k).1,
                    height: from_right(items, k).2,
                },
            ),
    )
}

/// The placements of one row at height `y`: left run, right run, centred run.
pub open spec fn row_entries<M: Module>(
    config: NotchConfig,
    mods: Seq<M>,
    expanded: bool,
    row: LayoutRow,
    row_width: int,
    y: int,
) -> Seq<(Seq<char>, Rect)> {
    let left = bucket(config, mods, expanded, row.modules@, Alignment::Left);
    let center = bucket(config, mods, expanded, row.modules@, Alignment::Center);
    let right = bucket(config, mods, expanded, row.modules@, Alignment::Right);
    run_entries(left, 0, y) + right_entries(right, row_width, y) + run_entries(
        center,
        center_start(center, row_width),
        y,
    )
}

/// The height of a row: the tallest placed module, 0 for an empty row.
pub open spec fn row_height<M: Module>(
    config: NotchConfig,
    mods: Seq<M>,
    expanded: bool,
    row: LayoutRow,
) -> int {
    let left = bucket(config, mods, expanded, row.modules@, Alignment::Left);
    let center = bucket(config, mods, expanded, row.modules@, Alignment::Center);
    let right = bucket(config, mods, expanded, row.modules@, Alignment::Right);
    let a = max_height(left, left.len() as int);
    let b = max_height(center, center.len() as int);
    let c = max_height(right, right.len() as int);
    if a >= b && a >= c {
        a
    } else if b >= c {
        b
    } else {
        c
    }
}

/// The top of row `k`: rows are stacked with `spacing` between them.
pub open spec fn row_top<M: Module>(
    config: NotchConfig,
    mods: Seq<M>,
    expanded: bool,
    rows: Seq<LayoutRow>,
    spacing: int,
    k: int,
) -> int
    decreases k,
{
    if k <= 0 {
        0
    } else {
        clamp_i32(
            row_top(config, mods, expanded, rows, spacing, k - 1) + row_height(
                config,
                mods,
                expanded,
                rows[k - 1],
            ) + spacing,
        )
    }
}

/// All placements of the first `k` rows, in the order they are made.
pub open spec fn layout_entries<M: Module>(
    config: NotchConfig,
    mods: Seq<M>,
    expanded: bool,
    rows: Seq<LayoutRow>,
    row_width: int,
    spacing: int,
    k: int,
) -> Seq<(Seq<char>, Rect)>
    decreases k,
{
    if k <= 0 {
        Seq::empty()
    } else {
        layout_entries(config, mods, expanded, rows, row_width, spacing, k - 1) + row_entries(
            config,
            mods,
            expanded,
            rows[k - 1],
            row_width,
            row_top(config, mods, expanded, rows, spacing, k - 1),
        )
    }
}

/// The map from id to rectangle that a list of placements gives: a later
/// placement of an id replaces an earlier one.
pub open spec fn map_of(entries: Seq<(Seq<char>, Rect)>) -> Map<Seq<char>, Rect>
    decreases entries.len(),
{
    if entries.len() == 0 {
        Map::empty()
    } else {
        map_of(entries.drop_last()).insert(entries.last().0, entries.last().1)
    }
}

/// The row spacing of a layout state.
pub open spec fn spacing_of(row_spacing: Option<u32>) -> int {
    match row_spacing {
        Some(s) => s as int,
        None => DEFAULT_ROW_SPACING as int,
    }
}

/// The placements of the layout of `config` for the given expansion state.
pub open spec fn layout_spec_entries<M: Module>(
    config: NotchConfig,
    mods: Seq<M>,
    expanded: bool,
) -> Seq<(Seq<char>, Rect)> {
    let state = config.layout_state_spec(expanded);
    layout_entries(
        config,
        mods,
        expanded,
        state.rows@,
        config.style_spec(expanded).width as int,
        spacing_of(state.row_spacing),
        state.rows@.len() as int,
    )
}

/// The area map of the layout of `config` for the given expansion state.
pub open spec fn layout_spec<M: Module>(config: NotchConfig, mods: Seq<M>, expanded: bool) -> Map<
    Seq<char>,
    Rect,
> {
    map_of(layout_spec_entries(config, mods, expanded))
}

/// The views of a list of placements.
pub open spec fn entries_view(v: Seq<(String, Rect)>) -> Seq<(Seq<char>, Rect)> {
    v.map_values(|e: (String, Rect)| (e.0@, e.1))
}

/// The views of a list of row modules.
pub open spec fn items_view(v: Seq<(String, u32, u32)>) -> Seq<Item> {
    v.map_values(|e: (String, u32, u32)| (e.0@, e.1, e.2))
}

/// The area assigned to each module id.
#[derive(Debug, Clone)]
pub struct ModuleLayout {
    areas: Vec<(String, Rect)>,
}

impl View for ModuleLayout {
    type V = Map<Seq<char>, Rect>;

    closed spec fn view(&self) -> Map<Seq<char>, Rect> {
        map_of(entries_view(self.areas@))
    }
}

/// The area of `key` is the last placement of it; without one there is none.
pub proof fn lemma_map_of_last(entries: Seq<(Seq<char>, Rect)>, key: Seq<char>, i: int)
    requires
        0 <= i < entries.len(),
        entries[i].0 == key,
        forall|j: int| i < j < entries.len() ==> #[trigger] entries[j].0 != key,
    ensures
        map_of(entries).contains_key(key),
        map_of(entries)[key] == entries[i].1,
    decreases entries.len(),
{
    if i < entries.len() - 1 {
        lemma_map_of_last(entries.drop_last(), key, i);
    }
}

/// Without a placement of `key` there is no area for it.
pub proof fn lemma_map_of_absent(entries: Seq<(Seq<char>, Rect)>, key: Seq<char>)
    requires
        forall|j: int| 0 <= j < entries.len() ==> #[trigger] entries[j].0 != key,
    ensures
        !map_of(entries).contains_key(key),
    decreases entries.len(),
{
    if entries.len() > 0 {
        lemma_map_of_absent(entries.drop_last(), key);
    }
}

impl ModuleLayout {
    /// The placements, in the order they were made.
    pub closed spec fn entries(&self) -> Seq<(Seq<char>, Rect)> {
        entries_view(self.areas@)
    }

    /// A layout with no areas.
    pub fn new() -> (r: Self)
        ensures
            r.entries() == Seq::<(Seq<char>, Rect)>::empty(),
            r@ == Map::<Seq<char>, Rect>::empty(),
    {
        let r = ModuleLayout { areas: Vec::new() };
        assert(r.entries() =~= Seq::<(Seq<char>, Rect)>::empty());
        r
    }

    /// Assign `area` to `id`, replacing any earlier area of it.
    pub fn insert(&mut self, id: String, area: Rect)
        ensures
            final(self).entries() == old(self).entries().push((id@, area)),
            final(self)@ == old(self)@.insert(id@, area),
    {
        self.areas.push((id, area));
        assert(self.entries().drop_last() =~= old(self).entries());
    }

    /// The area assigned to `id`, if any.
    pub fn get(&self, id: &str) -> (r: Option<Rect>)
        ensures
            r == if self@.contains_key(id@) {
                Some(self@[id@])
            } else {
                None
            },
    {
        let ghost es = self.entries();
        let mut i: usize = self.areas.len();
        while i > 0
            invariant
                0 <= i <= es.len(),
                es == self.entries(),
                es.len() == self.areas@.len(),
                forall|j: int| i <= j < es.len() ==> #[trigger] es[j].0 != id@,
            decreases i,
        {
            assert(es[i - 1].0 == self.areas@[i - 1].0@);
            if same_text(self.areas[i - 1].0.as_str(), id) {
                proof {
                    lemma_map_of_last(es, id@, i - 1);
                }
                return Some(self.areas[i - 1].1);
            }
            i = i - 1;
        }
        proof {
            lemma_map_of_absent(es, id@);
        }
        None
    }

    /// Keep only the areas of the ids in `ids`.
    pub fn retain_ids(&mut self, ids: &Vec<String>)
        ensures
            final(self).entries() == keep_listed(old(self).entries(), ids@),
            forall|k: Seq<char>| #[trigger]
                final(self)@.contains_key(k) ==> old(self)@.contains_key(k) && final(self)@[k]
                    == old(self)@[k],
            forall|k: Seq<char>| #[trigger]
                old(self)@.contains_key(k) ==> (final(self)@.contains_key(k) <==> id_listed(
                    ids@,
                    k,
                )),
    {
        let ghost olde = self.entries();
        let mut kept: Vec<(String, Rect)> = Vec::new();
        let mut i: usize = 0;
        while i < self.areas.len()
            invariant
                0 <= i <= olde.len(),
                olde == self.entries(),
                olde.len() == self.areas@.len(),
                entries_view(kept@) == keep_listed(olde.take(i as int), ids@),
            decreases olde.len() - i,
        {
            let mut found = false;
            let mut j: usize = 0;
            while j < ids.len()
                invariant
                    0 <= j <= ids@.len(),
                    i < self.areas@.len(),
                    found <==> exists|t: int|
                        0 <= t < j && #[trigger] ids@[t]@ == self.areas@[i as int].0@,
                decreases ids@.len() - j,
            {
                if same_text(ids[j].as_str(), self.areas[i].0.as_str()) {
                    found = true;
                }
                j = j + 1;
            }
            assert(olde.take(i as int + 1).drop_last() =~= olde.take(i as int));
            assert(olde[i as int] == (self.areas@[i as int].0@, self.areas@[i as int].1));
            assert(olde.take(i as int + 1).last() == olde[i as int]);
            if found {
                kept.push((self.areas[i].0.clone(), self.areas[i].1));
            }
            assert(entries_view(kept@) =~= keep_listed(olde.take(i as int + 1), ids@));
            i = i + 1;
        }
        assert(olde.take(olde.len() as int) =~= olde);
        self.areas = kept;
        proof {
            lemma_map_of_keep(olde, ids@);
        }
    }
}

/// A module of a row with its id, preferred width and height.
type RowItem = (String, u32, u32);

/// Splits the module ids of a row into the left, centre and right buckets.
fn resolve_row<M: Module>(
    config: &NotchConfig,
    modules: &[M],
    expanded: bool,
    refs: &Vec<String>,
) -> (r: (Vec<RowItem>, Vec<RowItem>, Vec<RowItem>))
    ensures
        items_view(r.0@) == bucket(*config, modules@, expanded, refs@, Alignment::Left),
        items_view(r.1@) == bucket(*config, modules@, expanded, refs@, Alignment::Center),
        items_view(r.2@) == bucket(*config, modules@, expanded, refs@, Alignment::Right),
{
    let mut left: Vec<RowItem> = Vec::new();
    let mut center: Vec<RowItem> = Vec::new();
    let mut right: Vec<RowItem> = Vec::new();
    let mut k: usize = 0;
    proof {
        assert(refs@.take(0) =~= Seq::<String>::empty());
        assert(items_view(left@) =~= Seq::<Item>::empty());
        assert(items_view(center@) =~= Seq::<Item>::empty());
        assert(items_view(right@) =~= Seq::<Item>::empty());
    }
    while k < refs.len()
        invariant
            0 <= k <= refs@.len(),
            items_view(left@) == bucket(
                *config,
                modules@,
                expanded,
                refs@.take(k as int),
                Alignment::Left,
            ),
            items_view(center@) == bucket(
                *config,
                modules@,
                expanded,
                refs@.take(k as int),
                Alignment::Center,
            ),
            items_view(right@) == bucket(
                *config,
                modules@,
                expanded,
                refs@.take(k as int),
                Alignment::Right,
            ),
        decreases refs@.len() - k,
    {
        let ghost pre = refs@.take(k as int + 1);
        proof {
            assert(pre.drop_last() =~= refs@.take(k as int));
            assert(pre.last() == refs@[k as int]);
        }
        let id = &refs[k];
        let (visible, al) = module_state(config, id.as_str(), expanded);
        if visible {
            match find_module(modules, id.as_str()) {
                Some(i) => {
                    let (w, h) = modules[i].preferred_size();
                    match al {
                        Alignment::Left => {
                            left.push((id.clone(), w, h));
                        },
                        Alignment::Center => {
                            center.push((id.clone(), w, h));
                        },
                        Alignment::Right => {
                            right.push((id.clone(), w, h));
                        },
                    }
                },
                None => {},
            }
        }
        proof {
            assert(items_view(left@) =~= bucket(*config, modules@, expanded, pre, Alignment::Left));
            assert(items_view(center@) =~= bucket(
                *config,
                modules@,
                expanded,
                pre,
                Alignment::Center,
            ));
            assert(items_view(right@) =~= bucket(
                *config,
                modules@,
                expanded,
                pre,
                Alignment::Right,
            ));
        }
        k = k + 1;
    }
    proof {
        assert(refs@.take(refs@.len() as int) =~= refs@);
    }
    (left, center, right)
}

/// `v` clamped to the range of `i32`.
fn clamp_to_i32(v: i64) -> (r: i64)
    ensures
        r == clamp_i32(v as int),
{
    if v < i32::MIN as i64 {
        i32::MIN as i64
    } else if v > i32::MAX as i64 {
        i32::MAX as i64
    } else {
        v
    }
}

/// Places a left-to-right run starting at `start` on row `y`.
fn place_run(layout: &mut ModuleLayout, items: &Vec<RowItem>, start: i64, y: i64)
    requires
        0 <= start <= i32::MAX,
        i32::MIN <= y <= i32::MAX,
    ensures
        final(layout).entries() == old(layout).entries() + run_entries(
            items_view(items@),
            start as int,
            y as int,
        ),
{
    let ghost its = items_view(items@);
    let ghost goal = run_entries(its, start as int, y as int);
    let mut x: i64 = start;
    let mut k: usize = 0;
    while k < items.len()
        invariant
            0 <= k <= items@.len(),
            its == items_view(items@),
            goal == run_entries(its, start as int, y as int),
            x == run_x(its, start as int, k as int),
            i32::MIN <= x <= i32::MAX,
            i32::MIN <= y <= i32::MAX,
            layout.entries() == old(layout).entries() + goal.take(k as int),
        decreases items@.len() - k,
    {
        let ghost before = layout.entries();
        let area = Rect { x: x as i32, y: y as i32, width: items[k].1, height: items[k].2 };
        layout.insert(items[k].0.clone(), area);
        proof {
            assert(goal.take(k as int + 1) =~= goal.take(k as int).push(goal[k as int]));
        }
        x = clamp_to_i32(x + items[k].1 as i64 + MODULE_GAP as i64);
        k = k + 1;
    }
    proof {
        assert(goal.take(items@.len() as int) =~= goal);
    }
}

/// Places a right-to-left run whose pen starts at `start` on row `y`.
fn place_right(layout: &mut ModuleLayout, items: &Vec<RowItem>, start: i64, y: i64)
    requires
        0 <= start <= u32::MAX,
        i32::MIN <= y <= i32::MAX,
    ensures
        final(layout).entries() == old(layout).entries() + right_entries(
            items_view(items@),
            start as int,
            y as int,
        ),
{
    let ghost its = items_view(items@);
    let ghost goal = right_entries(its, start as int, y as int);
    let n = items.len();
    let mut pen: i64 = start;
    let mut k: usize = 0;
    while k < n
        invariant
            0 <= k <= n,
            n == items@.len(),
            its == items_view(items@),
            goal == right_entries(its, start as int, y as int),
            pen == right_pen(its, start as int, k as int),
            i32::MIN <= pen <= u32::MAX,
            i32::MIN <= y <= i32::MAX,
            layout.entries() == old(layout).entries() + goal.take(k as int),
        decreases n - k,
    {
        let item = &items[n - 1 - k];
        let x = clamp_to_i32(pen - item.1 as i64);
        let area = Rect { x: x as i32, y: y as i32, width: item.1, height: item.2 };
        layout.insert(item.0.clone(), area);
        proof {
            assert(goal.take(k as int + 1) =~= goal.take(k as int).push(goal[k as int]));
        }
        pen = clamp_to_i32(x - MODULE_GAP as i64);
        k = k + 1;
    }
    proof {
        assert(goal.take(n as int) =~= goal);
    }
}

/// Where a centred run of `items` starts in a row `row_width` wide.
fn center_start_of(items: &Vec<RowItem>, row_width: u32) -> (r: i64)
    ensures
        r == center_start(items_view(items@), row_width as int),
        0 <= r <= i32::MAX,
{
    let ghost its = items_view(items@);
    let mut total: u64 = 0;
    let mut k: usize = 0;
    while k < items.len()
        invariant
            0 <= k <= items@.len(),
            its == items_view(items@),
            total == if k == 0 {
                0
            } else {
                min_int(width_sum(its, k as int) + MODULE_GAP * (k - 1), u64::MAX as int)
            },
        decreases items@.len() - k,
    {
        let step: u64 = if k == 0 {
            items[k].1 as u64
        } else {
            items[k].1 as u64 + MODULE_GAP as u64
        };
        assert(its[k as int].1 == items@[k as int].1);
        assert(width_sum(its, k as int + 1) == width_sum(its, k as int) + its[k as int].1);
        total = total.saturating_add(step);
        k = k + 1;
    }
    if total <= row_width as u64 {
        ((row_width as u64 - total) / 2) as i64
    } else {
        0
    }
}

/// The tallest preferred height of `items` (0 if none).
fn max_height_of(items: &Vec<RowItem>) -> (r: u32)
    ensures
        r == max_height(items_view(items@), items@.len() as int),
{
    let ghost its = items_view(items@);
    let mut m: u32 = 0;
    let mut k: usize = 0;
    while k < items.len()
        invariant
            0 <= k <= items@.len(),
            its == items_view(items@),
            m == max_height(its, k as int),
        decreases items@.len() - k,
    {
        if items[k].2 > m {
            m = items[k].2;
        }
        k = k + 1;
    }
    m
}

/// Lay out the modules of `config` for the given expansion state: each
/// visible, loaded module of each row gets a rectangle of its preferred size.
pub fn calculate_module_layout<M: Module>(
    config: &NotchConfig,
    modules: &[M],
    expanded: bool,
) -> (r: ModuleLayout)
    ensures
        r.entries() == layout_spec_entries(*config, modules@, expanded),
        r@ == layout_spec(*config, modules@, expanded),
{
    let state = if expanded {
        &config.layout.expanded
    } else {
        &config.layout.collapsed
    };
    let style = config.style_for(expanded);
    let row_width = style.width;
    let spacing: u32 = match state.row_spacing {
        Some(s) => s,
        None => DEFAULT_ROW_SPACING,
    };
    let ghost rows = state.rows@;
    let mut layout = ModuleLayout::new();
    let mut y: i64 = 0;
    let mut r: usize = 0;
    while r < state.rows.len()
        invariant
            0 <= r <= rows.len(),
            rows == state.rows@,
            *state == config.layout_state_spec(expanded),
            row_width == config.style_spec(expanded).width,
            spacing == spacing_of(state.row_spacing),
            y == row_top(*config, modules@, expanded, rows, spacing as int, r as int),
            i32::MIN <= y <= i32::MAX,
            layout.entries() == layout_entries(
                *config,
                modules@,
                expanded,
                rows,
                row_width as int,
                spacing as int,
                r as int,
            ),
        decreases rows.len() - r,
    {
        let row = &state.rows[r];
        let (left, center, right) = resolve_row(config, modules, expanded, &row.modules);
        place_run(&mut layout, &left, 0, y);
        place_right(&mut layout, &right, row_width as i64, y);
        let start = center_start_of(&center, row_width);
        place_run(&mut layout, &center, start, y);
        let a = max_height_of(&left);
        let b = max_height_of(&center);
        let c = max_height_of(&right);
        let h = if a >= b && a >= c {
            a
        } else if b >= c {
            b
        } else {
            c
        };
        proof {
            assert(layout.entries() =~= layout_entries(
                *config,
                modules@,
                expanded,
                rows,
                row_width as int,
                spacing as int,
                r as int + 1,
            ));
        }
        y = clamp_to_i32(y + h as i64 + spacing as i64);
        r = r + 1;
    }
    layout
}

/// Every key of the map of some placements is the id of one of them.
pub proof fn lemma_map_of_key(entries: Seq<(Seq<char>, Rect)>, k: Seq<char>)
    requires
        map_of(entries).contains_key(k),
    ensures
        exists|i: int| 0 <= i < entries.len() && #[trigger] entries[i].0 == k,
    decreases entries.len(),
{
    if entries.last().0 != k {
        lemma_map_of_key(entries.drop_last(), k);
        let i = choose|i: int| 0 <= i < entries.len() - 1 && #[trigger] entries.drop_last()[i].0 == k;
        assert(entries[i].0 == k);
    } else {
        assert(entries[entries.len() - 1].0 == k);
    }
}

/// Every module of a bucket is loaded.
pub proof fn lemma_bucket_loaded<M: Module>(
    config: NotchConfig,
    mods: Seq<M>,
    expanded: bool,
    refs: Seq<String>,
    al: Alignment,
)
    ensures
        forall|i: int|
            0 <= i < bucket(config, mods, expanded, refs, al).len() ==> ids_of(mods).contains(
                #[trigger] bucket(config, mods, expanded, refs, al)[i].0,
            ),
    decreases refs.len(),
{
    if refs.len() > 0 {
        lemma_bucket_loaded(config, mods, expanded, refs.drop_last(), al);
        let id = refs.last()@;
        crate::config::lemma_first_index(ids_of(mods), id);
        let prev = bucket(config, mods, expanded, refs.drop_last(), al);
        let b = bucket(config, mods, expanded, refs, al);
        assert forall|i: int| 0 <= i < b.len() implies ids_of(mods).contains(#[trigger] b[i].0) by {
            if i < prev.len() {
                assert(b[i] == prev[i]);
            } else {
                let j = first_index(ids_of(mods), id)->Some_0;
                assert(ids_of(mods)[j] == id);
            }
        }
    }
}

/// Every placement of a row is of a loaded module.
pub proof fn lemma_row_loaded<M: Module>(
    config: NotchConfig,
    mods: Seq<M>,
    expanded: bool,
    row: LayoutRow,
    row_width: int,
    y: int,
)
    ensures
        forall|i: int|
            0 <= i < row_entries(config, mods, expanded, row, row_width, y).len() ==> ids_of(
                mods,
            ).contains(#[trigger] row_entries(config, mods, expanded, row, row_width, y)[i].0),
{
    let left = bucket(config, mods, expanded, row.modules@, Alignment::Left);
    let center = bucket(config, mods, expanded, row.modules@, Alignment::Center);
    let right = bucket(config, mods, expanded, row.modules@, Alignment::Right);
    lemma_bucket_loaded(config, mods, expanded, row.modules@, Alignment::Left);
    lemma_bucket_loaded(config, mods, expanded, row.modules@, Alignment::Center);
    lemma_bucket_loaded(config, mods, expanded, row.modules@, Alignment::Right);
    let l = run_entries(left, 0, y);
    let r = right_entries(right, row_width, y);
    let c = run_entries(center, center_start(center, row_width), y);
    let e = row_entries(config, mods, expanded, row, row_width, y);
    assert forall|i: int| 0 <= i < e.len() implies ids_of(mods).contains(#[trigger] e[i].0) by {
        if i < l.len() {
            assert(e[i] == l[i]);
            assert(l[i].0 == left[i].0);
        } else if i < l.len() + r.len() {
            assert(e[i] == r[i - l.len()]);
            assert(r[i - l.len()].0 == right[right.len() - 1 - (i - l.len())].0);
        } else {
            assert(e[i] == c[i - l.len() - r.len()]);
            assert(c[i - l.len() - r.len()].0 == center[i - l.len() - r.len()].0);
        }
    }
}

/// Every placement of the first `k` rows is of a loaded module.
pub proof fn lemma_entries_loaded<M: Module>(
    config: NotchConfig,
    mods: Seq<M>,
    expanded: bool,
    rows: Seq<LayoutRow>,
    row_width: int,
    spacing: int,
    k: int,
)
    requires
        k <= rows.len(),
    ensures
        forall|i: int|
            0 <= i < layout_entries(config, mods, expanded, rows, row_width, spacing, k).len()
                ==> ids_of(mods).contains(
                #[trigger] layout_entries(config, mods, expanded, rows, row_width, spacing, k)[i].0,
            ),
    decreases k,
{
    if k > 0 {
        lemma_entries_loaded(config, mods, expanded, rows, row_width, spacing, k - 1);
        let prev = layout_entries(config, mods, expanded, rows, row_width, spacing, k - 1);
        let y = row_top(config, mods, expanded, rows, spacing, k - 1);
        let re = row_entries(config, mods, expanded, rows[k - 1], row_width, y);
        lemma_row_loaded(config, mods, expanded, rows[k - 1], row_width, y);
        let e = layout_entries(config, mods, expanded, rows, row_width, spacing, k);
        assert forall|i: int| 0 <= i < e.len() implies ids_of(mods).contains(#[trigger] e[i].0) by {
            if i < prev.len() {
                assert(e[i] == prev[i]);
            } else {
                assert(e[i] == re[i - prev.len()]);
            }
        }
    }
}

/// The layout gives areas only to loaded modules.
pub proof fn lemma_layout_places_loaded<M: Module>(
    config: NotchConfig,
    mods: Seq<M>,
    expanded: bool,
)
    ensures
        forall|k: Seq<char>| #[trigger]
            layout_spec(config, mods, expanded).contains_key(k) ==> ids_of(mods).contains(k),
{
    let state = config.layout_state_spec(expanded);
    let e = layout_spec_entries(config, mods, expanded);
    lemma_entries_loaded(
        config,
        mods,
        expanded,
        state.rows@,
        config.style_spec(expanded).width as int,
        spacing_of(state.row_spacing),
        state.rows@.len() as int,
    );
    assert forall|k: Seq<char>| #[trigger]
        layout_spec(config, mods, expanded).contains_key(k) implies ids_of(mods).contains(k) by {
        lemma_map_of_key(e, k);
        let i = choose|i: int| 0 <= i < e.len() && #[trigger] e[i].0 == k;
        assert(ids_of(mods).contains(e[i].0));
    }
}

/// Laying out the same configuration and modules for the same expansion
/// state twice gives the same area map.
pub proof fn lemma_layout_deterministic<M: Module>(
    config1: NotchConfig,
    mods1: Seq<M>,
    expanded1: bool,
    config2: NotchConfig,
    mods2: Seq<M>,
    expanded2: bool,
)
    requires
        config1 == config2,
        mods1 == mods2,
        expanded1 == expanded2,
    ensures
        layout_spec(config1, mods1, expanded1) == layout_spec(config2, mods2, expanded2),
        layout_spec_entries(config1, mods1, expanded1) == layout_spec_entries(
            config2,
            mods2,
            expanded2,
        ),
{
}

/// Widths are never negative, so prefix sums grow.
proof fn lemma_width_sum_monotone(items: Seq<Item>, j: int, k: int)
    requires
        0 <= j <= k <= items.len(),
    ensures
        width_sum(items, j) <= width_sum(items, k),
    decreases k - j,
{
    if j < k {
        lemma_width_sum_monotone(items, j, k - 1);
    }
}

/// Without clamping, a left-to-right run's pen before module `k` is the
/// start plus the widths and gaps before it.
proof fn lemma_run_x_exact(items: Seq<Item>, start: int, k: int)
    requires
        0 <= start,
        0 <= k <= items.len(),
        start + width_sum(items, k) + MODULE_GAP * k <= i32::MAX,
    ensures
        run_x(items, start, k) == start + width_sum(items, k) + MODULE_GAP * k,
    decreases k,
{
    if k > 0 {
        lemma_run_x_exact(items, start, k - 1);
    }
}

/// Every module of a run that starts at `start` and fits within `limit`
/// lies within `[start, limit)`.
proof fn lemma_run_contained(items: Seq<Item>, start: int, limit: int, k: int)
    requires
        0 <= start,
        start + span(items) <= limit <= i32::MAX,
        0 <= k < items.len(),
    ensures
        start <= run_x(items, start, k),
        run_x(items, start, k) + items[k].1 <= limit,
{
    let n = items.len() as int;
    lemma_width_sum_monotone(items, k + 1, n);
    lemma_width_sum_monotone(items, 0, k);
    lemma_run_x_exact(items, start, k);
}

/// The sum of the last `k` widths.
pub open spec fn right_sum(items: Seq<Item>, k: int) -> int
    decreases k,
{
    if k <= 0 {
        0
    } else {
        right_sum(items, k - 1) + from_right(items, k - 1).1
    }
}

/// The last `k` widths and the first `n - k` make up all of them.
proof fn lemma_right_sum(items: Seq<Item>, k: int)
    requires
        0 <= k <= items.len(),
    ensures
        right_sum(items, k) + width_sum(items, items.len() - k) == width_sum(
            items,
            items.len() as int,
        ),
    decreases k,
{
    if k > 0 {
        lemma_right_sum(items, k - 1);
    }
}

/// Without clamping, a right-to-left run's pen before its `k`-th module
/// from the right is the start less the widths and gaps after it.
proof fn lemma_right_pen_exact(items: Seq<Item>, start: int, k: int)
    requires
        0 <= k <= items.len(),
        start <= i32::MAX,
        start - right_sum(items, k) - MODULE_GAP * k >= 0,
    ensures
        right_pen(items, start, k) == start - right_sum(items, k) - MODULE_GAP * k,
    decreases k,
{
    if k > 0 {
        lemma_right_pen_exact(items, start, k - 1);
    }
}

/// Every module of a right-to-left run from `limit` that fits within
/// `limit` lies within `[0, limit)`.
proof fn lemma_right_contained(items: Seq<Item>, limit: int, k: int)
    requires
        span(items) <= limit <= i32::MAX,
        0 <= k < items.len(),
    ensures
        0 <= right_x(items, limit, k),
        right_x(items, limit, k) + from_right(items, k).1 <= limit,
{
    let n = items.len() as int;
    lemma_right_sum(items, k + 1);
    lemma_right_sum(items, k);
    lemma_width_sum_monotone(items, 0, n - k - 1);
    lemma_width_sum_monotone(items, n - k, n);
    lemma_right_pen_exact(items, limit, k);
}

/// When each alignment group of a row fits in the row width, every
/// rectangle placed in the row lies within `[0, row_width)`.
pub proof fn lemma_row_contained<M: Module>(
    config: NotchConfig,
    mods: Seq<M>,
    expanded: bool,
    row: LayoutRow,
    row_width: int,
    y: int,
)
    requires
        0 <= row_width <= i32::MAX,
        span(bucket(config, mods, expanded, row.modules@, Alignment::Left)) <= row_width,
        span(bucket(config, mods, expanded, row.modules@, Alignment::Center)) <= row_width,
        span(bucket(config, mods, expanded, row.modules@, Alignment::Right)) <= row_width,
    ensures
        forall|i: int|
            0 <= i < row_entries(config, mods, expanded, row, row_width, y).len() ==> {
                let a = (#[trigger] row_entries(config, mods, expanded, row, row_width, y)[i]).1;
                0 <= a.x && a.x + a.width <= row_width
            },
{
    let left = bucket(config, mods, expanded, row.modules@, Alignment::Left);
    let center = bucket(config, mods, expanded, row.modules@, Alignment::Center);
    let right = bucket(config, mods, expanded, row.modules@, Alignment::Right);
    let start = center_start(center, row_width);
    let l = run_entries(left, 0, y);
    let r = right_entries(right, row_width, y);
    let c = run_entries(center, start, y);
    let e = row_entries(config, mods, expanded, row, row_width, y);
    assert forall|i: int| 0 <= i < e.len() implies {
        let a = (#[trigger] e[i]).1;
        0 <= a.x && a.x + a.width <= row_width
    } by {
        if i < l.len() {
            lemma_run_contained(left, 0, row_width, i);
            assert(e[i] == l[i]);
        } else if i < l.len() + r.len() {
            lemma_right_contained(right, row_width, i - l.len());
            assert(e[i] == r[i - l.len()]);
        } else {
            let k = i - l.len() - r.len();
            lemma_run_contained(center, start, row_width, k);
            assert(e[i] == c[k]);
        }
    }
}


/// Whether each alignment group of `row` fits in the row width.
pub open spec fn row_fits<M: Module>(
    config: NotchConfig,
    mods: Seq<M>,
    expanded: bool,
    row: LayoutRow,
    row_width: int,
) -> bool {
    &&& span(bucket(config, mods, expanded, row.modules@, Alignment::Left)) <= row_width
    &&& span(bucket(config, mods, expanded, row.modules@, Alignment::Center)) <= row_width
    &&& span(bucket(config, mods, expanded, row.modules@, Alignment::Right)) <= row_width
}

/// The area of a key is the rectangle of one of its placements.
pub proof fn lemma_map_of_value(entries: Seq<(Seq<char>, Rect)>, k: Seq<char>)
    requires
        map_of(entries).contains_key(k),
    ensures
        exists|i: int|
            0 <= i < entries.len() && #[trigger] entries[i] == (k, map_of(entries)[k]),
    decreases entries.len(),
{
    if entries.last().0 != k {
        lemma_map_of_value(entries.drop_last(), k);
        let i = choose|i: int|
            0 <= i < entries.len() - 1 && #[trigger] entries.drop_last()[i] == (
                k,
                map_of(entries.drop_last())[k],
            );
        assert(entries[i] == entries.drop_last()[i]);
    } else {
        assert(entries[entries.len() - 1] == (k, map_of(entries)[k]));
    }
}

/// When every row fits, every placement of the first `k` rows lies within
/// `[0, row_width)`.
pub proof fn lemma_entries_contained<M: Module>(
    config: NotchConfig,
    mods: Seq<M>,
    expanded: bool,
    rows: Seq<LayoutRow>,
    row_width: int,
    spacing: int,
    k: int,
)
    requires
        0 <= row_width <= i32::MAX,
        k <= rows.len(),
        forall|r: int|
            0 <= r < rows.len() ==> row_fits(config, mods, expanded, #[trigger] rows[r], row_width),
    ensures
        forall|i: int|
            0 <= i < layout_entries(config, mods, expanded, rows, row_width, spacing, k).len() ==> {
                let a = (#[trigger] layout_entries(
                    config,
                    mods,
                    expanded,
                    rows,
                    row_width,
                    spacing,
                    k,
                )[i]).1;
                0 <= a.x && a.x + a.width <= row_width
            },
    decreases k,
{
    if k > 0 {
        lemma_entries_contained(config, mods, expanded, rows, row_width, spacing, k - 1);
        let prev = layout_entries(config, mods, expanded, rows, row_width, spacing, k - 1);
        let y = row_top(config, mods, expanded, rows, spacing, k - 1);
        let re = row_entries(config, mods, expanded, rows[k - 1], row_width, y);
        assert(row_fits(config, mods, expanded, rows[k - 1], row_width));
        lemma_row_contained(config, mods, expanded, rows[k - 1], row_width, y);
        let e = layout_entries(config, mods, expanded, rows, row_width, spacing, k);
        assert forall|i: int| 0 <= i < e.len() implies {
            let a = (#[trigger] e[i]).1;
            0 <= a.x && a.x + a.width <= row_width
        } by {
            if i < prev.len() {
                assert(e[i] == prev[i]);
            } else {
                assert(e[i] == re[i - prev.len()]);
            }
        }
    }
}

/// When each alignment group of every row fits in the panel width, every
/// area of the layout lies within `[0, width)`.
pub proof fn lemma_layout_contained<M: Module>(config: NotchConfig, mods: Seq<M>, expanded: bool)
    requires
        config.style_spec(expanded).width <= i32::MAX,
        forall|r: int|
            0 <= r < config.layout_state_spec(expanded).rows@.len() ==> row_fits(
                config,
                mods,
                expanded,
                #[trigger] config.layout_state_spec(expanded).rows@[r],
                config.style_spec(expanded).width as int,
            ),
    ensures
        forall|k: Seq<char>| #[trigger]
            layout_spec(config, mods, expanded).contains_key(k) ==> {
                let a = layout_spec(config, mods, expanded)[k];
                0 <= a.x && a.x + a.width <= config.style_spec(expanded).width
            },
{
    let state = config.layout_state_spec(expanded);
    let w = config.style_spec(expanded).width as int;
    let e = layout_spec_entries(config, mods, expanded);
    lemma_entries_contained(
        config,
        mods,
        expanded,
        state.rows@,
        w,
        spacing_of(state.row_spacing),
        state.rows@.len() as int,
    );
    assert forall|k: Seq<char>| #[trigger]
        layout_spec(config, mods, expanded).contains_key(k) implies {
        let a = layout_spec(config, mods, expanded)[k];
        0 <= a.x && a.x + a.width <= w
    } by {
        lemma_map_of_value(e, k);
        let i = choose|i: int| 0 <= i < e.len() && #[trigger] e[i] == (k, map_of(e)[k]);
        assert(e[i].1 == map_of(e)[k]);
    }
}

/// Whether `k` is the view of one of `ids`.
pub open spec fn id_listed(ids: Seq<String>, k: Seq<char>) -> bool {
    exists|j: int| 0 <= j < ids.len() && #[trigger] ids[j]@ == k
}

/// The placements whose id is one of `ids`, in order.
pub open spec fn keep_listed(entries: Seq<(Seq<char>, Rect)>, ids: Seq<String>) -> Seq<
    (Seq<char>, Rect),
>
    decreases entries.len(),
{
    if entries.len() == 0 {
        entries
    } else {
        let prev = keep_listed(entries.drop_last(), ids);
        if id_listed(ids, entries.last().0) {
            prev.push(entries.last())
        } else {
            prev
        }
    }
}

/// Keeping the placements of some ids keeps exactly their areas.
pub proof fn lemma_map_of_keep(entries: Seq<(Seq<char>, Rect)>, ids: Seq<String>)
    ensures
        forall|k: Seq<char>| #[trigger]
            map_of(keep_listed(entries, ids)).contains_key(k) ==> map_of(entries).contains_key(k)
                && map_of(keep_listed(entries, ids))[k] == map_of(entries)[k],
        forall|k: Seq<char>| #[trigger]
            map_of(entries).contains_key(k) ==> (map_of(keep_listed(entries, ids)).contains_key(k)
                <==> id_listed(ids, k)),
    decreases entries.len(),
{
    if entries.len() > 0 {
        lemma_map_of_keep(entries.drop_last(), ids);
        let prev = keep_listed(entries.drop_last(), ids);
        let kept = keep_listed(entries, ids);
        let last = entries.last();
        if id_listed(ids, last.0) {
            assert(kept.drop_last() =~= prev);
            assert(map_of(kept) == map_of(prev).insert(last.0, last.1));
        } else {
            assert(kept == prev);
        }
        assert(map_of(entries) == map_of(entries.drop_last()).insert(last.0, last.1));
        assert forall|k: Seq<char>| #[trigger] map_of(kept).contains_key(k) implies map_of(
            entries,
        ).contains_key(k) && map_of(kept)[k] == map_of(entries)[k] by {
            if k != last.0 {
                assert(map_of(prev).contains_key(k));
            }
        }
        assert forall|k: Seq<char>| #[trigger] map_of(entries).contains_key(k) implies (map_of(
            kept,
        ).contains_key(k) <==> id_listed(ids, k)) by {
            if k != last.0 {
                assert(map_of(entries.drop_last()).contains_key(k));
            }
        }
    }
}

} // verus!
