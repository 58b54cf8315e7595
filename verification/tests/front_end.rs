use lenia::{AppState, Command, PointerButton, FULL};

fn state(is_game_paused: bool, is_drawing: bool, is_erasing: bool) -> AppState {
    AppState { is_game_paused, is_drawing, is_erasing }
}

fn every_state() -> Vec<AppState> {
    let mut all = Vec::new();
    for paused in [false, true] {
        for drawing in [false, true] {
            for erasing in [false, true] {
                all.push(state(paused, drawing, erasing));
            }
        }
    }
    all
}

#[test]
fn a_front_end_starts_paused() {
    assert_eq!(AppState::default(), state(true, false, false));
}

#[test]
fn r_asks_for_a_reseed() {
    for start in every_state() {
        let mut now = start;
        assert_eq!(now.on_key('r'), Command::Reseed);
        assert_eq!(now, start);
    }
}

#[test]
fn c_asks_for_a_clear() {
    for start in every_state() {
        let mut now = start;
        assert_eq!(now.on_key('c'), Command::Clear);
        assert_eq!(now, start);
    }
}

#[test]
fn s_starts_and_ends_drawing() {
    for start in every_state() {
        let mut now = start;
        assert_eq!(now.on_key('s'), Command::Nothing);
        assert_eq!(now, state(false, false, start.is_erasing));
    }
}

#[test]
fn h_pauses() {
    for start in every_state() {
        let mut now = start;
        assert_eq!(now.on_key('h'), Command::Nothing);
        assert_eq!(now, state(true, start.is_drawing, start.is_erasing));
    }
}

#[test]
fn d_toggles_drawing_and_pauses() {
    for start in every_state() {
        let mut now = start;
        assert_eq!(now.on_key('d'), Command::Nothing);
        assert_eq!(now, state(true, !start.is_drawing, start.is_erasing));
        assert_eq!(now.on_key('d'), Command::Nothing);
        assert_eq!(now, state(true, start.is_drawing, start.is_erasing));
    }
}

#[test]
fn other_keys_do_nothing() {
    for key in ['a', 'R', 'C', 'S', 'H', 'D', ' ', '\n', '0', 'é'] {
        for start in every_state() {
            let mut now = start;
            assert_eq!(now.on_key(key), Command::Nothing);
            assert_eq!(now, start);
        }
    }
}

#[test]
fn buttons_choose_between_drawing_and_erasing() {
    for start in every_state() {
        let mut now = start;
        now.on_button(PointerButton::Left);
        assert_eq!(now, state(start.is_game_paused, start.is_drawing, start.is_erasing && !start.is_drawing));
        let mut now = start;
        now.on_button(PointerButton::Right);
        assert_eq!(now, state(start.is_game_paused, start.is_drawing, start.is_erasing || start.is_drawing));
        let mut now = start;
        now.on_button(PointerButton::Other);
        assert_eq!(now, start);
    }
}

#[test]
fn the_brush_follows_the_state() {
    for paused in [false, true] {
        assert_eq!(state(paused, false, false).brush(), None);
        assert_eq!(state(paused, false, true).brush(), None);
        assert_eq!(state(paused, true, false).brush(), Some(FULL));
        assert_eq!(state(paused, true, true).brush(), Some(0));
    }
}

#[test]
fn a_drawing_session() {
    let mut now = AppState::default();
    assert_eq!(now.brush(), None);
    now.on_button(PointerButton::Right);
    assert_eq!(now, AppState::default());
    assert_eq!(now.on_key('d'), Command::Nothing);
    assert_eq!(now.brush(), Some(FULL));
    now.on_button(PointerButton::Right);
    assert_eq!(now.brush(), Some(0));
    now.on_button(PointerButton::Left);
    assert_eq!(now.brush(), Some(FULL));
    assert_eq!(now.on_key('s'), Command::Nothing);
    assert_eq!(now, state(false, false, false));
    assert_eq!(now.brush(), None);
}
