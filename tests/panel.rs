use hypr_notch::config::{NotchConfig, NotchStyle};
use hypr_notch::module::ModuleEvent;
use hypr_notch::panel::{convert_pointer_event, PanelState, PointerKind, PointerOutcome};

fn config() -> NotchConfig {
    let mut c = NotchConfig::default();
    c.expanded = NotchStyle { width: Some(600), height: Some(200), ..NotchStyle::default() };
    c
}

#[test]
fn pointer_kinds_map_to_module_events() {
    assert_eq!(convert_pointer_event(PointerKind::Enter, 3, 4), Some(ModuleEvent::Enter { x: 3, y: 4 }));
    assert_eq!(convert_pointer_event(PointerKind::Leave, 3, 4), Some(ModuleEvent::Leave));
    assert_eq!(convert_pointer_event(PointerKind::Motion, -1, 2), Some(ModuleEvent::Motion { x: -1, y: 2 }));
    assert_eq!(
        convert_pointer_event(PointerKind::Press { button: 272 }, 5, 6),
        Some(ModuleEvent::Press { button: 272, x: 5, y: 6 })
    );
    assert_eq!(
        convert_pointer_event(PointerKind::Release { button: 273 }, 0, 0),
        Some(ModuleEvent::Release { button: 273, x: 0, y: 0 })
    );
    assert_eq!(convert_pointer_event(PointerKind::Other, 0, 0), None);
}

#[test]
fn enter_expands_and_leave_collapses() {
    let c = config();
    let mut panel = PanelState::new(&c);
    assert!(!panel.is_expanded());
    assert_eq!(panel.size(), (300, 40));
    let out = panel.on_pointer(&c, PointerKind::Enter);
    assert_eq!(out, PointerOutcome { resized: true, update_modules: true });
    assert_eq!(panel.size(), (600, 200));
    let out = panel.on_pointer(&c, PointerKind::Motion);
    assert_eq!(out, PointerOutcome { resized: false, update_modules: true });
    let out = panel.on_pointer(&c, PointerKind::Enter);
    assert_eq!(out, PointerOutcome { resized: false, update_modules: true });
    let out = panel.on_pointer(&c, PointerKind::Leave);
    assert_eq!(out, PointerOutcome { resized: true, update_modules: false });
    assert_eq!(panel.size(), (300, 40));
    let out = panel.on_pointer(&c, PointerKind::Motion);
    assert_eq!(out, PointerOutcome { resized: false, update_modules: false });
}

#[test]
fn draws_wait_for_configuration_and_sixteen_ms() {
    let c = config();
    let mut panel = PanelState::new(&c);
    assert!(panel.begin_draw(&c, 0).is_none());
    panel.set_configured(true);
    assert!(panel.is_configured());
    let style = panel.begin_draw(&c, 100).expect("first draw");
    assert_eq!((style.width, style.height), (300, 40));
    assert!(panel.begin_draw(&c, 110).is_none());
    assert!(panel.begin_draw(&c, 115).is_none());
    assert!(panel.begin_draw(&c, 116).is_some());
}

#[test]
fn update_event_follows_expansion() {
    let c = config();
    let mut panel = PanelState::new(&c);
    assert_eq!(panel.update_event(), ModuleEvent::UpdateCollapsed);
    assert!(panel.resize(&c, true));
    assert!(!panel.resize(&c, true));
    assert_eq!(panel.update_event(), ModuleEvent::UpdateExpanded);
    panel.update_size(10, 20);
    assert_eq!(panel.size(), (10, 20));
    let style = panel.apply_style(&c);
    assert_eq!((style.width, style.height), (600, 200));
    assert_eq!(panel.size(), (600, 200));
}
