use hypr_notch::config::{find_entry, LayoutRow, NotchConfig, NotchStyle};
use hypr_notch::draw::Canvas;
use hypr_notch::module::{Module, ModuleEvent, ModuleRegistry, Rect};
use hypr_notch::modules::clock::{apply_color, clock_text};
use hypr_notch::modules::ClockModule;

#[test]
fn default_config_values() {
    let c = NotchConfig::default();
    let s = c.style_for(false);
    assert_eq!((s.width, s.height, s.corner_radius), (300, 40, 10));
    assert_eq!(s.background_color, [0, 0, 0, 255]);
    assert!(c.modules.enabled.is_empty());
}

#[test]
fn style_falls_back_section_then_main_then_default() {
    let mut c = NotchConfig::default();
    c.main = NotchStyle { width: Some(500), height: None, corner_radius: None, background_color: None };
    c.expanded = NotchStyle { width: None, height: Some(120), corner_radius: Some(0), background_color: None };
    let e = c.style_for(true);
    assert_eq!((e.width, e.height, e.corner_radius), (500, 120, 0));
    assert_eq!(e.background_color, [0, 0, 0, 255]);
    let k = c.style_for(false);
    assert_eq!((k.width, k.height, k.corner_radius), (500, 40, 10));
}

#[test]
fn first_matching_entry() {
    let entries = vec![("a".to_string(), 1), ("b".to_string(), 2), ("a".to_string(), 3)];
    assert_eq!(find_entry(&entries, "a"), Some(0));
    assert_eq!(find_entry(&entries, "b"), Some(1));
    assert_eq!(find_entry(&entries, "c"), None);
}

#[test]
fn clock_text_format() {
    assert_eq!(clock_text(0), "00:00:00");
    assert_eq!(clock_text(3661), "01:01:01");
    assert_eq!(clock_text(86399), "23:59:59");
    assert_eq!(clock_text(86400 + 45296), "12:34:56");
}

#[test]
fn color_components() {
    assert_eq!(apply_color([1, 2, 3, 4], &vec![Some(10), None, Some(300), Some(-1)]), [10, 2, 44, 255]);
    assert_eq!(apply_color([1, 2, 3, 4], &vec![Some(10), Some(20), Some(30)]), [1, 2, 3, 4]);
}

#[test]
fn clock_identity_and_size() {
    let c = ClockModule::new();
    assert_eq!(c.id(), "clock");
    assert_eq!(c.name(), "Clock");
    assert_eq!(c.preferred_size(), (100, 30));
}

#[test]
fn clock_takes_update_events() {
    let mut c = ClockModule::new();
    let area = Rect { x: 0, y: 0, width: 100, height: 30 };
    assert!(c.handle_event(&ModuleEvent::Update, area));
    assert!(c.handle_event(&ModuleEvent::UpdateExpanded, area));
    assert!(!c.handle_event(&ModuleEvent::UpdateCollapsed, area));
    assert!(!c.handle_event(&ModuleEvent::Leave, area));
}

#[test]
fn clock_background_from_config() {
    let mut c = ClockModule::new();
    let table: toml::Table = "background_color = [1, 2, 3, 255]\nformat = \"%H\"\nfont_size = 12.0"
        .parse()
        .unwrap();
    assert!(c.init(&table).is_ok());
    let mut buf = vec![0u8; 20 * 10 * 4];
    {
        let mut canvas = Canvas::new(&mut buf, 20, 10);
        assert!(c.draw(&mut canvas, Rect { x: 2, y: 1, width: 3, height: 2 }).is_ok());
    }
    let at = |x: usize, y: usize| {
        let i = (y * 20 + x) * 4;
        [buf[i], buf[i + 1], buf[i + 2], buf[i + 3]]
    };
    assert_eq!(at(2, 1), [1, 2, 3, 255]);
    assert_eq!(at(4, 2), [1, 2, 3, 255]);
    assert_eq!(at(5, 2), [0, 0, 0, 0]);
    assert_eq!(at(2, 3), [0, 0, 0, 0]);
}

#[test]
fn clock_without_background_leaves_canvas() {
    let c = ClockModule::new();
    let mut buf = vec![7u8; 20 * 10 * 4];
    {
        let mut canvas = Canvas::new(&mut buf, 20, 10);
        assert!(c.draw(&mut canvas, Rect { x: 0, y: 0, width: 20, height: 10 }).is_ok());
    }
    assert!(buf.iter().all(|&b| b == 7));
}

#[test]
fn registry_initializes_modules_with_their_tables() {
    let mut config = NotchConfig::default();
    config.modules.enabled = vec!["clock".to_string()];
    let table: toml::Table = "background_color = [9, 8, 7, 255]".parse().unwrap();
    config.modules.module_configs = vec![("clock".to_string(), table)];
    config.layout.collapsed.rows =
        vec![LayoutRow { alignment: None, modules: vec!["clock".to_string()] }];
    let mut registry: ModuleRegistry<Box<dyn Module>> = ModuleRegistry::new();
    registry.add_module(Box::new(ClockModule::new()));
    let failures = registry.init_modules(&config);
    assert!(failures.is_empty());
    registry.calculate_layout(&config, false);
    let mut buf = vec![0u8; 300 * 40 * 4];
    {
        let mut canvas = Canvas::new(&mut buf, 300, 40);
        let report = registry.draw(&mut canvas);
        assert_eq!(report.drawn, vec!["clock".to_string()]);
        assert!(report.failures.is_empty());
    }
    // the clock (100 x 30) is centred at x = 100; its background is drawn
    let at = |x: usize, y: usize| {
        let i = (y * 300 + x) * 4;
        [buf[i], buf[i + 1], buf[i + 2], buf[i + 3]]
    };
    assert_eq!(at(100, 0), [9, 8, 7, 255]);
    assert_eq!(at(199, 29), [9, 8, 7, 255]);
    assert_eq!(at(99, 0), [0, 0, 0, 0]);
    assert_eq!(at(200, 0), [0, 0, 0, 0]);
    assert_eq!(at(100, 30), [0, 0, 0, 0]);
}
