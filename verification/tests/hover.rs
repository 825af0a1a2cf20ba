use token_runtime::hover::{
    DwellUi, HoverAction, HoverRequestInfo, HoverTimers, PointerDwell, PointerState, TickState, HOVER_HIDE_DELAY_MS,
};

fn pointer(now: u64, at: Option<(u32, usize, usize)>) -> PointerState<u32> {
    PointerState {
        request: None,
        pointer_in_card: false,
        card_shown: false,
        mouse_allowed: true,
        pointer: at,
        dwell_on_pointer: false,
        now,
    }
}

fn tick(now: u64) -> TickState {
    TickState {
        mouse_documentation: true,
        request_anchor_gone: false,
        dwell_still_on_target: true,
        mouse_allowed: true,
        hover_delay_ms: 500,
        now,
    }
}

#[test]
fn a_dwell_arms_on_text_and_fires_once_after_the_delay() {
    let mut timers: HoverTimers<u32> = HoverTimers::new();
    assert_eq!(timers.pointer_moved(pointer(1_000, Some((7, 3, 4)))), HoverAction::Nothing);
    let dwell = timers.dwell.unwrap();
    assert_eq!((dwell.anchor, dwell.line, dwell.column, dwell.started), (7, 3, 4, 1_000));
    // Moving within the same symbol keeps the dwell.
    let mut same = pointer(1_200, Some((7, 3, 5)));
    same.dwell_on_pointer = true;
    timers.pointer_moved(same);
    assert_eq!(timers.dwell.unwrap().started, 1_000);
    assert_eq!(timers.tick(tick(1_400)), HoverAction::Nothing);
    assert_eq!(timers.tick(tick(1_500)), HoverAction::Show { line: 3, column: 4 });
    assert_eq!(timers.tick(tick(1_600)), HoverAction::Nothing, "a dwell fires once");
}

#[test]
fn moving_to_another_symbol_restarts_the_dwell() {
    let mut timers: HoverTimers<u32> = HoverTimers::new();
    timers.pointer_moved(pointer(1_000, Some((7, 3, 4))));
    timers.pointer_moved(pointer(1_300, Some((8, 9, 0))));
    let dwell = timers.dwell.unwrap();
    assert_eq!((dwell.anchor, dwell.started), (8, 1_300));
    timers.pointer_moved(pointer(1_400, None));
    assert!(timers.dwell.is_none());
}

#[test]
fn leaving_a_shown_card_starts_a_grace_period_then_dismisses() {
    let mut timers: HoverTimers<u32> = HoverTimers::new();
    let mut away = pointer(2_000, Some((1, 1, 1)));
    away.request = Some(HoverRequestInfo { keyboard: false, pointer_on_it: false });
    away.card_shown = true;
    assert_eq!(timers.pointer_moved(away), HoverAction::Nothing);
    assert_eq!(timers.hide_at, Some(2_000 + HOVER_HIDE_DELAY_MS));
    assert_eq!(timers.tick(tick(2_100)), HoverAction::Nothing);
    assert_eq!(timers.tick(tick(2_000 + HOVER_HIDE_DELAY_MS)), HoverAction::DismissAndRecheck);
    assert!(timers.hide_at.is_none());
}

#[test]
fn a_keyboard_request_or_the_card_itself_stops_the_timers() {
    let mut timers: HoverTimers<u32> = HoverTimers::new();
    timers.pointer_moved(pointer(1_000, Some((7, 3, 4))));
    let mut inside = pointer(1_100, Some((7, 3, 4)));
    inside.pointer_in_card = true;
    assert_eq!(timers.pointer_moved(inside), HoverAction::Nothing);
    assert!(timers.dwell.is_none());
    timers.pointer_moved(pointer(1_200, Some((7, 3, 4))));
    let mut keyboard = pointer(1_300, Some((7, 3, 4)));
    keyboard.request = Some(HoverRequestInfo { keyboard: true, pointer_on_it: false });
    assert_eq!(timers.pointer_moved(keyboard), HoverAction::Nothing);
    assert!(timers.dwell.is_none() && timers.hide_at.is_none());
}

#[test]
fn a_pointer_request_off_its_symbol_is_dismissed_and_a_new_dwell_starts() {
    let mut timers: HoverTimers<u32> = HoverTimers::new();
    let mut moved = pointer(3_000, Some((4, 2, 2)));
    moved.request = Some(HoverRequestInfo { keyboard: false, pointer_on_it: false });
    assert_eq!(timers.pointer_moved(moved), HoverAction::Dismiss);
    assert_eq!(timers.dwell.unwrap().started, 3_000);
    let mut gone = tick(3_100);
    gone.request_anchor_gone = true;
    assert_eq!(timers.tick(gone), HoverAction::Dismiss);
    assert!(timers.dwell.is_none());
}

fn ui() -> DwellUi {
    DwellUi {
        has_modal: false,
        overlay_open: false,
        overlay_is_hover_card: false,
        over_overlay: false,
        over_editor_text: true,
    }
}

#[test]
fn hover_dwell_arms_on_the_first_move() {
    let mut dwell: PointerDwell<(f64, f64)> = PointerDwell::new();
    assert!(dwell.armed.is_none());
    // With no earlier position, a move always counts.
    assert!(!dwell.moved(true, (10.0, 20.0), ui(), 1_000));
    let ((x, y), _) = dwell.armed.expect("first move arms the dwell timer");
    assert_eq!((x, y), (10.0, 20.0));
}

#[test]
fn a_small_move_does_not_reset_the_dwell_position() {
    let mut dwell: PointerDwell<(f64, f64)> = PointerDwell::new();
    dwell.moved(true, (10.0, 10.0), ui(), 1_000);
    let armed_at = dwell.armed.unwrap().1;
    // A 1px move: the window measures it (in floating point, outside the
    // library) as under its movement threshold and reports it as not
    // significant. A move reported so keeps the dwell's position and timer.
    dwell.moved(false, (11.0, 10.0), ui(), 1_050);
    let ((x, y), started) = dwell.armed.expect("still armed");
    assert_eq!((x, y), (10.0, 10.0), "position must not move for jitter");
    assert_eq!(started, armed_at, "timer must not restart for jitter");
}

#[test]
fn a_significant_move_restarts_the_dwell_at_the_new_position() {
    let mut dwell: PointerDwell<(f64, f64)> = PointerDwell::new();
    dwell.moved(true, (10.0, 10.0), ui(), 1_000);
    dwell.moved(true, (200.0, 10.0), ui(), 1_100);
    let ((x, y), started) = dwell.armed.expect("still armed at the new position");
    assert_eq!((x, y), (200.0, 10.0));
    assert_eq!(started, 1_100);
}

#[test]
fn dwell_does_not_arm_while_a_modal_is_open() {
    let mut dwell: PointerDwell<(f64, f64)> = PointerDwell::new();
    dwell.moved(true, (10.0, 10.0), DwellUi { has_modal: true, ..ui() }, 1_000);
    assert!(dwell.armed.is_none());
}

#[test]
fn dwell_does_not_arm_while_a_cursor_overlay_is_open() {
    let mut dwell: PointerDwell<(f64, f64)> = PointerDwell::new();
    dwell.moved(true, (10.0, 10.0), DwellUi { overlay_open: true, ..ui() }, 1_000);
    assert!(dwell.armed.is_none());
}

#[test]
fn moving_outside_the_hover_card_panel_dismisses_it() {
    let mut dwell: PointerDwell<(f64, f64)> = PointerDwell::new();
    let card = DwellUi { overlay_open: true, overlay_is_hover_card: true, over_overlay: false, ..ui() };
    assert!(dwell.moved(true, (200.0, 200.0), card, 1_000));
    assert_eq!(dwell.armed, Some(((200.0, 200.0), 1_000)));
}

#[test]
fn moving_within_the_hover_card_panel_does_not_dismiss_it() {
    let mut dwell: PointerDwell<(f64, f64)> = PointerDwell::new();
    let card = DwellUi { overlay_open: true, overlay_is_hover_card: true, over_overlay: true, ..ui() };
    assert!(!dwell.moved(true, (200.0, 200.0), card, 1_000));
    assert!(dwell.armed.is_none());
}

#[test]
fn check_hover_dwell_is_a_noop_when_disabled_in_config() {
    let mut dwell: PointerDwell<(f64, f64)> = PointerDwell::new();
    dwell.moved(true, (10.0, 10.0), ui(), 0);
    assert_eq!(dwell.check(false, ui(), 500, 1_000, true), None);
    assert!(dwell.armed.is_some(), "a disabled feature must leave the armed dwell alone (no surprise clear)");
}

#[test]
fn check_hover_dwell_does_not_fire_before_the_delay_elapses() {
    let mut dwell: PointerDwell<(f64, f64)> = PointerDwell::new();
    dwell.moved(true, (10.0, 10.0), ui(), 1_000);
    assert_eq!(dwell.check(true, ui(), 500, 1_000, true), None);
    assert_eq!(dwell.check(true, ui(), 500, 1_499, true), None);
    assert_eq!(dwell.check(true, ui(), 500, 1_500, true), Some((10.0, 10.0)));
    assert_eq!(dwell.check(true, ui(), 500, 2_000, true), None, "a dwell fires once");
}

#[test]
fn check_hover_dwell_does_not_fire_outside_editor_text() {
    let mut dwell: PointerDwell<(f64, f64)> = PointerDwell::new();
    dwell.moved(true, (10.0, 10.0), ui(), 0);
    assert_eq!(dwell.check(true, DwellUi { over_editor_text: false, ..ui() }, 500, 1_000, true), None);
    assert!(dwell.armed.is_some());
}
