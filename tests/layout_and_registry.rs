use std::cell::Cell;
use std::rc::Rc;

use hypr_notch::config::{
    LayoutRow, ModuleStateConfig, ModuleStateConfigSet, NotchConfig, NotchStyle,
};
use hypr_notch::draw::Canvas;
use hypr_notch::layout::{calculate_module_layout, parse_alignment, Alignment, ModuleLayout};
use hypr_notch::module::registry::{resolve_module_source, BuiltinModule, ModuleSource};
use hypr_notch::modules::LoadedModule;
use hypr_notch::module::{Module, ModuleError, ModuleEvent, ModuleRegistry, Rect};

struct Probe {
    id: String,
    size: (u32, u32),
    events: Rc<Cell<u32>>,
    draws: Rc<Cell<u32>>,
    consumes: bool,
}

impl Module for Probe {
    fn id(&self) -> &str {
        &self.id
    }

    fn name(&self) -> &str {
        &self.id
    }

    fn draw(&self, _canvas: &mut Canvas, _area: Rect) -> Result<(), ModuleError> {
        self.draws.set(self.draws.get() + 1);
        if self.id == "broken" {
            return Err(ModuleError { message: "cannot draw".to_string() });
        }
        Ok(())
    }

    fn init(&mut self, _config: &toml::Table) -> Result<(), ModuleError> {
        if self.id == "picky" {
            return Err(ModuleError { message: "bad table".to_string() });
        }
        Ok(())
    }

    fn handle_event(&mut self, _event: &ModuleEvent, _area: Rect) -> bool {
        self.events.set(self.events.get() + 1);
        self.consumes
    }

    fn preferred_size(&self) -> (u32, u32) {
        self.size
    }
}

struct Counters {
    events: Rc<Cell<u32>>,
    draws: Rc<Cell<u32>>,
}

fn probe(id: &str, w: u32, h: u32, consumes: bool) -> (Box<dyn Module>, Counters) {
    let events = Rc::new(Cell::new(0));
    let draws = Rc::new(Cell::new(0));
    let m = Probe {
        id: id.to_string(),
        size: (w, h),
        events: events.clone(),
        draws: draws.clone(),
        consumes,
    };
    (Box::new(m), Counters { events, draws })
}

fn state(alignment: &str) -> ModuleStateConfigSet {
    let s = ModuleStateConfig { visible: None, alignment: Some(alignment.to_string()) };
    ModuleStateConfigSet { expanded: s.clone(), collapsed: s }
}

fn config_with_row(ids: &[&str], width: u32) -> NotchConfig {
    let mut config = NotchConfig::default();
    config.expanded = NotchStyle { width: Some(width), ..NotchStyle::default() };
    config.collapsed = NotchStyle { width: Some(width), ..NotchStyle::default() };
    let row = LayoutRow { alignment: None, modules: ids.iter().map(|s| s.to_string()).collect() };
    config.layout.expanded.rows = vec![row.clone()];
    config.layout.collapsed.rows = vec![row];
    config.modules.enabled = ids.iter().map(|s| s.to_string()).collect();
    config
}

#[test]
fn three_alignments_in_one_row() {
    let mut config = config_with_row(&["l", "c", "r"], 300);
    config.modules.state = vec![("l".to_string(), state("left")), ("r".to_string(), state("right"))];
    let (l, _) = probe("l", 50, 20, false);
    let (c, _) = probe("c", 40, 20, false);
    let (r, _) = probe("r", 60, 20, false);
    let modules = vec![l, c, r];
    let layout = calculate_module_layout(&config, &modules, true);
    assert_eq!(layout.get("l"), Some(Rect { x: 0, y: 0, width: 50, height: 20 }));
    assert_eq!(layout.get("r"), Some(Rect { x: 240, y: 0, width: 60, height: 20 }));
    assert_eq!(layout.get("c"), Some(Rect { x: 130, y: 0, width: 40, height: 20 }));
}

#[test]
fn layout_is_deterministic() {
    let mut config = config_with_row(&["a", "b", "c"], 200);
    config.modules.state = vec![("b".to_string(), state("right"))];
    let (a, _) = probe("a", 30, 10, false);
    let (b, _) = probe("b", 20, 12, false);
    let (c, _) = probe("c", 25, 8, false);
    let modules = vec![a, b, c];
    let first = calculate_module_layout(&config, &modules, false);
    let second = calculate_module_layout(&config, &modules, false);
    for id in ["a", "b", "c", "missing"] {
        assert_eq!(first.get(id), second.get(id));
    }
}

#[test]
fn runs_keep_eight_pixel_gaps() {
    let mut config = config_with_row(&["a", "b", "c", "d"], 300);
    config.modules.state = vec![
        ("a".to_string(), state("left")),
        ("b".to_string(), state("left")),
        ("c".to_string(), state("right")),
        ("d".to_string(), state("right")),
    ];
    let modules = vec![
        probe("a", 10, 5, false).0,
        probe("b", 20, 5, false).0,
        probe("c", 30, 5, false).0,
        probe("d", 40, 5, false).0,
    ];
    let layout = calculate_module_layout(&config, &modules, true);
    assert_eq!(layout.get("a").unwrap().x, 0);
    assert_eq!(layout.get("b").unwrap().x, 18);
    assert_eq!(layout.get("d").unwrap().x, 260);
    assert_eq!(layout.get("c").unwrap().x, 222);
}

#[test]
fn centred_run_spreads_from_the_middle() {
    let config = config_with_row(&["a", "b"], 100);
    let modules = vec![probe("a", 20, 5, false).0, probe("b", 30, 5, false).0];
    let layout = calculate_module_layout(&config, &modules, true);
    // total 20 + 8 + 30 = 58, start (100 - 58) / 2 = 21
    assert_eq!(layout.get("a").unwrap().x, 21);
    assert_eq!(layout.get("b").unwrap().x, 49);
}

#[test]
fn wide_centred_run_starts_at_zero() {
    let config = config_with_row(&["a"], 100);
    let modules = vec![probe("a", 150, 5, false).0];
    let layout = calculate_module_layout(&config, &modules, true);
    assert_eq!(layout.get("a").unwrap().x, 0);
}

#[test]
fn rows_stack_with_spacing() {
    let mut config = config_with_row(&["a"], 100);
    config.layout.expanded.rows.push(LayoutRow { alignment: None, modules: vec!["b".to_string()] });
    config.layout.expanded.row_spacing = Some(4);
    let modules = vec![probe("a", 10, 30, false).0, probe("b", 10, 5, false).0];
    let layout = calculate_module_layout(&config, &modules, true);
    assert_eq!(layout.get("a").unwrap().y, 0);
    assert_eq!(layout.get("b").unwrap().y, 34);
    // the default spacing is 8
    config.layout.expanded.row_spacing = None;
    let layout = calculate_module_layout(&config, &modules, true);
    assert_eq!(layout.get("b").unwrap().y, 38);
}

#[test]
fn hidden_and_unloaded_modules_get_no_area() {
    let mut config = config_with_row(&["a", "ghost", "b"], 100);
    let hidden = ModuleStateConfig { visible: Some(false), alignment: None };
    config.modules.state = vec![(
        "b".to_string(),
        ModuleStateConfigSet { expanded: hidden, collapsed: ModuleStateConfig::default() },
    )];
    let modules = vec![probe("a", 10, 5, false).0, probe("b", 10, 5, false).0];
    let expanded = calculate_module_layout(&config, &modules, true);
    assert!(expanded.get("a").is_some());
    assert!(expanded.get("ghost").is_none());
    assert!(expanded.get("b").is_none());
    let collapsed = calculate_module_layout(&config, &modules, false);
    assert!(collapsed.get("b").is_some());
}

#[test]
fn later_area_replaces_earlier() {
    let mut layout = ModuleLayout::new();
    layout.insert("a".to_string(), Rect { x: 1, y: 2, width: 3, height: 4 });
    layout.insert("b".to_string(), Rect { x: 0, y: 0, width: 1, height: 1 });
    layout.insert("a".to_string(), Rect { x: 5, y: 6, width: 7, height: 8 });
    assert_eq!(layout.get("a"), Some(Rect { x: 5, y: 6, width: 7, height: 8 }));
    layout.retain_ids(&vec!["b".to_string()]);
    assert_eq!(layout.get("a"), None);
    assert_eq!(layout.get("b"), Some(Rect { x: 0, y: 0, width: 1, height: 1 }));
}

#[test]
fn alignment_names() {
    assert_eq!(parse_alignment(&Some("left".to_string())), Alignment::Left);
    assert_eq!(parse_alignment(&Some("right".to_string())), Alignment::Right);
    assert_eq!(parse_alignment(&Some("middle".to_string())), Alignment::Center);
    assert_eq!(parse_alignment(&None), Alignment::Center);
}

#[test]
fn rect_contains_is_half_open() {
    let r = Rect { x: -2, y: 3, width: 4, height: 2 };
    assert!(r.contains(-2, 3));
    assert!(r.contains(1, 4));
    assert!(!r.contains(2, 4));
    assert!(!r.contains(0, 5));
    assert!(!r.contains(-3, 3));
}

fn registry_with(modules: Vec<Box<dyn Module>>, config: &NotchConfig) -> ModuleRegistry<Box<dyn Module>> {
    let mut registry = ModuleRegistry::new();
    for m in modules {
        registry.add_module(m);
    }
    registry.calculate_layout(config, true);
    registry
}

#[test]
fn positional_event_reaches_only_the_containing_module() {
    let mut config = config_with_row(&["a", "b"], 200);
    config.modules.state = vec![("a".to_string(), state("left")), ("b".to_string(), state("right"))];
    let (a, ca) = probe("a", 50, 20, true);
    let (b, cb) = probe("b", 50, 20, true);
    let mut registry = registry_with(vec![a, b], &config);
    assert!(registry.handle_event(&ModuleEvent::Press { button: 1, x: 10, y: 10 }));
    assert_eq!(ca.events.get(), 1);
    assert_eq!(cb.events.get(), 0);
    assert!(registry.handle_event(&ModuleEvent::Motion { x: 160, y: 5 }));
    assert_eq!(ca.events.get(), 1);
    assert_eq!(cb.events.get(), 1);
    // a point in no area reaches nobody
    assert!(!registry.handle_event(&ModuleEvent::Enter { x: 100, y: 5 }));
    assert_eq!(ca.events.get() + cb.events.get(), 2);
}

#[test]
fn declined_event_does_not_fall_through() {
    let config = config_with_row(&["top", "under"], 100);
    // both centred and the same size: the areas coincide
    let (top, ct) = probe("top", 40, 20, false);
    let (under, cu) = probe("under", 40, 20, true);
    let mut registry = registry_with(vec![top, under], &config);
    let layout_top = 30;
    assert!(!registry.handle_event(&ModuleEvent::Release { button: 1, x: layout_top + 1, y: 1 }));
    assert_eq!(ct.events.get(), 1);
    assert_eq!(cu.events.get(), 0);
}

#[test]
fn broadcast_stops_at_the_first_taker() {
    let config = config_with_row(&["a", "b", "c"], 300);
    let (a, ca) = probe("a", 10, 10, false);
    let (b, cb) = probe("b", 10, 10, true);
    let (c, cc) = probe("c", 10, 10, true);
    let mut registry = registry_with(vec![a, b, c], &config);
    assert!(registry.handle_event(&ModuleEvent::UpdateExpanded));
    assert_eq!((ca.events.get(), cb.events.get(), cc.events.get()), (1, 1, 0));
}

#[test]
fn draw_skips_modules_without_area_and_isolates_failures() {
    let config = config_with_row(&["broken", "ok"], 300);
    let (broken, cbroken) = probe("broken", 10, 10, false);
    let (ok, cok) = probe("ok", 10, 10, false);
    let (extra, cextra) = probe("extra", 10, 10, false);
    let mut registry = registry_with(vec![broken, ok, extra], &config);
    let mut buf = vec![0u8; 300 * 40 * 4];
    let mut canvas = Canvas::new(&mut buf, 300, 40);
    let report = registry.draw(&mut canvas);
    assert_eq!(report.drawn, vec!["broken".to_string(), "ok".to_string()]);
    assert_eq!(report.failures.len(), 1);
    assert_eq!(report.failures[0].module_name, "broken");
    assert_eq!((cbroken.draws.get(), cok.draws.get(), cextra.draws.get()), (1, 1, 0));
}

#[test]
fn reload_without_an_id_unloads_and_stops_drawing_it() {
    let config = config_with_row(&["a", "b"], 300);
    let (a, ca) = probe("a", 10, 10, false);
    let (b, cb) = probe("b", 10, 10, false);
    let mut registry = registry_with(vec![a, b], &config);
    let mut reloaded = config.clone();
    reloaded.modules.enabled = vec!["a".to_string()];
    let report = registry.load_modules_from_config(&reloaded);
    assert!(report.steps.is_empty());
    registry.calculate_layout(&reloaded, true);
    let mut buf = vec![0u8; 300 * 40 * 4];
    let mut canvas = Canvas::new(&mut buf, 300, 40);
    let drawn = registry.draw(&mut canvas);
    assert_eq!(drawn.drawn, vec!["a".to_string()]);
    assert_eq!((ca.draws.get(), cb.draws.get()), (1, 0));
    assert!(registry.has_modules());
}

#[test]
fn reload_reports_what_to_load() {
    let mut config = NotchConfig::default();
    config.modules.enabled = vec![
        "clock".to_string(),
        "weather".to_string(),
        "external:/opt/x.so".to_string(),
        "nonsense".to_string(),
        "clock".to_string(),
    ];
    config.modules.aliases = vec![("weather".to_string(), "/opt/weather.so".to_string())];
    let mut registry: ModuleRegistry<Box<dyn Module>> = ModuleRegistry::new();
    let report = registry.load_modules_from_config(&config);
    let ids: Vec<&str> = report.steps.iter().map(|(id, _)| id.as_str()).collect();
    assert_eq!(ids, vec!["clock", "weather", "external:/opt/x.so", "nonsense"]);
    assert!(matches!(report.steps[0].1, ModuleSource::Builtin(BuiltinModule::Clock)));
    assert!(matches!(&report.steps[1].1, ModuleSource::Plugin(p) if p == "/opt/weather.so"));
    assert!(matches!(&report.steps[2].1, ModuleSource::Plugin(p) if p == "/opt/x.so"));
    assert!(matches!(report.steps[3].1, ModuleSource::Unknown));
    assert!(!registry.has_modules());
}

#[test]
fn module_sources() {
    let aliases = vec![("clock".to_string(), "/lib/clock.so".to_string())];
    assert!(matches!(resolve_module_source("clock", &aliases), ModuleSource::Plugin(p) if p == "/lib/clock.so"));
    assert!(matches!(resolve_module_source("clock", &vec![]), ModuleSource::Builtin(BuiltinModule::Clock)));
    assert!(matches!(resolve_module_source("external:a/b.so", &vec![]), ModuleSource::Plugin(p) if p == "a/b.so"));
    assert!(matches!(resolve_module_source("external", &vec![]), ModuleSource::Unknown));
    assert!(matches!(resolve_module_source("", &vec![]), ModuleSource::Unknown));
}

#[test]
fn empty_registry_handles_nothing() {
    let mut registry: ModuleRegistry<Box<dyn Module>> = ModuleRegistry::new();
    assert!(!registry.handle_event(&ModuleEvent::UpdateExpanded));
    assert!(!registry.handle_event(&ModuleEvent::Press { button: 1, x: 0, y: 0 }));
}

#[test]
fn applying_a_plan_adds_in_order_and_initializes_all() {
    let mut config = NotchConfig::default();
    config.modules.enabled = vec![
        "old".to_string(),
        "picky".to_string(),
        "clock".to_string(),
        "nonsense".to_string(),
        "gone".to_string(),
        "clock".to_string(),
    ];
    config.modules.aliases = vec![
        ("picky".to_string(), "/opt/picky.so".to_string()),
        ("gone".to_string(), "/opt/gone.so".to_string()),
    ];
    let mut registry: ModuleRegistry<LoadedModule> = ModuleRegistry::new();
    registry.add_module(LoadedModule::Plugin(probe("old", 10, 10, false).0));
    registry.add_module(LoadedModule::Plugin(probe("dropped", 10, 10, false).0));
    let report = registry.load_modules_from_config(&config);
    let ids: Vec<&str> = report.steps.iter().map(|(id, _)| id.as_str()).collect();
    assert_eq!(ids, vec!["picky", "clock", "nonsense", "gone"]);
    let plugins: Vec<Option<(libloading::Library, LoadedModule)>> = report
        .steps
        .iter()
        .map(|(id, _)| {
            if id == "picky" {
                let library: libloading::Library = libloading::os::unix::Library::this().into();
                Some((library, LoadedModule::Plugin(probe("picky", 10, 10, false).0)))
            } else {
                None
            }
        })
        .collect();
    let applied = registry.apply_load_plan(&config, &report.steps, plugins);
    assert_eq!(applied.failed_plugins, vec!["/opt/gone.so".to_string()]);
    assert_eq!(applied.unknown, vec!["nonsense".to_string()]);
    let failed: Vec<&str> = applied.init_failures.iter().map(|f| f.module_id.as_str()).collect();
    assert_eq!(failed, vec!["picky"]);
    // old module kept first, then the new ones in enabled order
    config.layout.expanded.rows = vec![LayoutRow {
        alignment: None,
        modules: vec!["old".to_string(), "picky".to_string(), "clock".to_string()],
    }];
    config.expanded.width = Some(600);
    registry.calculate_layout(&config, true);
    let mut buf = vec![0u8; 600 * 40 * 4];
    let mut canvas = Canvas::new(&mut buf, 600, 40);
    let drawn = registry.draw(&mut canvas);
    assert_eq!(drawn.drawn, vec!["old".to_string(), "picky".to_string(), "clock".to_string()]);
}
