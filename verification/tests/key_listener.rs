use std::cell::Cell;
use std::rc::Rc;
use windows_key_listener::key_listener::{
    get_pressed_keys, handle_chord_pressed, hook_applies, key_message, HC_ACTION, normalize_key, process_key_event,
    update_key_states, KeyMessage, WM_KEYDOWN, WM_KEYUP,
};
use windows_key_listener::{GlobalState, HookData, KeyListener, KeyListenerError};

type Cb = Box<dyn Fn() -> bool>;

const MS: u128 = 1_000_000;

fn counting(result: bool) -> (Cb, Rc<Cell<u32>>) {
    let count = Rc::new(Cell::new(0u32));
    let c = count.clone();
    (
        Box::new(move || {
            c.set(c.get() + 1);
            result
        }),
        count,
    )
}

fn press(state: &mut GlobalState<Cb>, vk: i32, at: u128) -> bool {
    process_key_event(state, vk, KeyMessage::KeyDown, &|| at)
}

fn release(state: &mut GlobalState<Cb>, vk: i32, at: u128) -> bool {
    process_key_event(state, vk, KeyMessage::KeyUp, &|| at)
}

#[test]
fn new_state_is_empty() {
    let state: GlobalState<Cb> = GlobalState::new();
    assert!(state.hooks.is_empty());
    assert!(state.key_states.is_empty());
    assert_eq!(state.hook_handle, None);
    assert!(!state.message_loop_started);
}

#[test]
fn normalize_key_collapses_sides() {
    assert_eq!(normalize_key(160), 16);
    assert_eq!(normalize_key(161), 16);
    assert_eq!(normalize_key(162), 17);
    assert_eq!(normalize_key(163), 17);
    assert_eq!(normalize_key(164), 18);
    assert_eq!(normalize_key(165), 18);
    assert_eq!(normalize_key(91), 91);
    assert_eq!(normalize_key(92), 91);
    assert_eq!(normalize_key(0x41), 0x41);
    assert_eq!(normalize_key(17), 17);
}

#[test]
fn key_messages_are_classified() {
    assert_eq!(key_message(WM_KEYDOWN), KeyMessage::KeyDown);
    assert_eq!(key_message(WM_KEYUP), KeyMessage::KeyUp);
    assert_eq!(key_message(0x0104), KeyMessage::Other);
    assert_eq!(WM_KEYDOWN, 256);
    assert_eq!(WM_KEYUP, 257);
}

#[test]
fn pressed_keys_follow_down_and_up() {
    let mut state: GlobalState<Cb> = GlobalState::new();
    update_key_states(&mut state, 0x41, KeyMessage::KeyDown);
    update_key_states(&mut state, 0x42, KeyMessage::KeyDown);
    update_key_states(&mut state, 0x41, KeyMessage::KeyDown);
    let mut keys = get_pressed_keys(&state);
    keys.sort();
    assert_eq!(keys, vec![0x41, 0x42]);
    update_key_states(&mut state, 0x41, KeyMessage::KeyUp);
    update_key_states(&mut state, 0x43, KeyMessage::Other);
    assert_eq!(get_pressed_keys(&state), vec![0x42]);
    update_key_states(&mut state, 0x42, KeyMessage::KeyUp);
    assert!(get_pressed_keys(&state).is_empty());
}

#[test]
fn handle_chord_pressed_debounces() {
    let (cb, count) = counting(false);
    let mut hook = HookData { callback: cb, vk_codes: vec![0x41], debounce_interval: 200 * MS, last_trigger: 0 };
    // Not enough time since registration: blocked, callback skipped.
    assert!(handle_chord_pressed(&mut hook, 100 * MS));
    assert_eq!(count.get(), 0);
    assert_eq!(hook.last_trigger, 0);
    // Enough time: the callback decides.
    assert!(!handle_chord_pressed(&mut hook, 200 * MS));
    assert_eq!(count.get(), 1);
    assert_eq!(hook.last_trigger, 200 * MS);
    // A clock reading before the last trigger counts as no time passed.
    assert!(handle_chord_pressed(&mut hook, 100 * MS));
    assert_eq!(count.get(), 1);
}

#[test]
fn zero_interval_always_fires() {
    let (cb, count) = counting(true);
    let mut hook = HookData { callback: cb, vk_codes: vec![0x41], debounce_interval: 0, last_trigger: 50 };
    assert!(handle_chord_pressed(&mut hook, 10));
    assert!(handle_chord_pressed(&mut hook, 10));
    assert_eq!(count.get(), 2);
}

#[test]
fn chord_fires_when_all_keys_held() {
    let listener = KeyListener::new();
    let mut state: GlobalState<Cb> = GlobalState::new();
    let (cb, count) = counting(true);
    listener.listen(&mut state, "Ctrl + Shift + Q", 200 * MS, cb, 0).unwrap();
    // Left control and left shift count as Control and Shift.
    assert!(!press(&mut state, 162, 1000 * MS));
    assert!(!press(&mut state, 160, 1001 * MS));
    assert_eq!(count.get(), 0);
    assert!(press(&mut state, 0x51, 1002 * MS));
    assert_eq!(count.get(), 1);
    assert_eq!(state.hooks[0].last_trigger, 1002 * MS);
    // Key repeat within the interval: blocked, no callback.
    assert!(press(&mut state, 0x51, 1100 * MS));
    assert_eq!(count.get(), 1);
    // Releasing Q while Ctrl+Shift+Q is no longer fully held passes.
    assert!(!release(&mut state, 0x51, 1300 * MS));
    assert_eq!(count.get(), 1);
    // Pressing again after the interval fires again.
    assert!(press(&mut state, 0x51, 1400 * MS));
    assert_eq!(count.get(), 2);
}

#[test]
fn release_of_another_key_still_matches() {
    let listener = KeyListener::new();
    let mut state: GlobalState<Cb> = GlobalState::new();
    let (cb, count) = counting(false);
    listener.listen(&mut state, "a", 0, cb, 0).unwrap();
    assert!(!press(&mut state, 0x41, 10));
    assert_eq!(count.get(), 1);
    // Any event while A is held matches again, key up of another key included.
    assert!(!release(&mut state, 0x42, 20));
    assert_eq!(count.get(), 2);
}

#[test]
fn first_blocking_hook_stops_the_event() {
    let listener = KeyListener::new();
    let mut state: GlobalState<Cb> = GlobalState::new();
    let (cb1, c1) = counting(false);
    let (cb2, c2) = counting(true);
    let (cb3, c3) = counting(true);
    listener.listen(&mut state, "x", 0, cb1, 0).unwrap();
    listener.listen(&mut state, "x", 0, cb2, 0).unwrap();
    listener.listen(&mut state, "x", 0, cb3, 0).unwrap();
    assert!(press(&mut state, 0x58, 5));
    assert_eq!((c1.get(), c2.get(), c3.get()), (1, 1, 0));
    assert_eq!(state.hooks[2].last_trigger, 0);
}

#[test]
fn side_specific_chord_fires() {
    let listener = KeyListener::new();
    let mut state: GlobalState<Cb> = GlobalState::new();
    let (cb, count) = counting(true);
    listener.listen(&mut state, "LCtrl + A", 0, cb, 0).unwrap();
    assert_eq!(state.hooks[0].vk_codes, vec![162, 0x41]);
    assert!(!press(&mut state, 162, 10));
    assert!(press(&mut state, 0x41, 20));
    assert_eq!(count.get(), 1);
}

#[test]
fn side_specific_chord_needs_that_side() {
    let listener = KeyListener::new();
    let mut state: GlobalState<Cb> = GlobalState::new();
    let (cb, count) = counting(true);
    listener.listen(&mut state, "rctrl + a", 0, cb, 0).unwrap();
    assert!(!press(&mut state, 162, 10));
    assert!(!press(&mut state, 0x41, 20));
    assert_eq!(count.get(), 0);
    assert!(press(&mut state, 163, 30));
    assert_eq!(count.get(), 1);
}

#[test]
fn generic_chord_code_is_held_by_the_generic_key_too() {
    let listener = KeyListener::new();
    let mut state: GlobalState<Cb> = GlobalState::new();
    let (cb, count) = counting(true);
    listener.listen(&mut state, "ctrl + a", 0, cb, 0).unwrap();
    assert!(!press(&mut state, 17, 10));
    assert!(press(&mut state, 0x41, 20));
    assert_eq!(count.get(), 1);
}

#[test]
fn hook_applies_only_to_action_code() {
    assert_eq!(HC_ACTION, 0);
    assert!(hook_applies(0));
    assert!(!hook_applies(-1));
    assert!(!hook_applies(3));
}

#[test]
fn registration_completes_in_order() {
    let mut state: GlobalState<Cb> = GlobalState::new();
    let err = windows_result::Error::from_hresult(windows_result::HRESULT(0x80004005u32 as i32));
    // A failed installation is the error, and the loop is not claimed.
    match state.complete_registration(Some(Err(err.clone()))) {
        Err(KeyListenerError::WindowsError(e)) => assert_eq!(e, err),
        _ => panic!("expected a Windows error"),
    }
    assert!(!state.message_loop_started);
    assert_eq!(state.hook_handle, None);
    // A successful one records the hook and claims the loop.
    assert_eq!(state.complete_registration(Some(Ok(7))).ok(), Some(true));
    assert_eq!(state.hook_handle, Some(7));
    assert!(state.message_loop_started);
    // Later registrations install nothing and do not start a second loop.
    assert_eq!(state.complete_registration(None).ok(), Some(false));
    assert_eq!(state.hook_handle, Some(7));
}

#[test]
fn debounce_spacing_over_a_run() {
    let (cb, count) = counting(false);
    let mut hook = HookData { callback: cb, vk_codes: vec![0x41], debounce_interval: 10, last_trigger: 5 };
    let mut fired_at = Vec::new();
    for t in [5u128, 14, 15, 16, 24, 25, 26, 40, 41] {
        let before = count.get();
        handle_chord_pressed(&mut hook, t);
        if count.get() > before {
            fired_at.push(t);
        }
    }
    assert_eq!(fired_at, vec![15, 25, 40]);
}

#[test]
fn unlisten_keeps_the_message_loop_flag() {
    let listener = KeyListener::new();
    let mut state: GlobalState<Cb> = GlobalState::new();
    assert!(state.claim_message_loop());
    listener.unlisten(&mut state);
    assert!(state.message_loop_started);
    assert!(!state.claim_message_loop());
}

#[test]
fn right_windows_key_counts_as_left() {
    let listener = KeyListener::new();
    let mut state: GlobalState<Cb> = GlobalState::new();
    let (cb, count) = counting(true);
    listener.listen(&mut state, "lwin + e", 0, cb, 0).unwrap();
    assert!(!press(&mut state, 92, 10));
    assert!(press(&mut state, 0x45, 20));
    assert_eq!(count.get(), 1);
}

#[test]
fn debounce_counts_from_registration() {
    let listener = KeyListener::new();
    let mut state: GlobalState<Cb> = GlobalState::new();
    let (cb, count) = counting(false);
    listener.listen(&mut state, "VolumeUp", 200 * MS, cb, 1000 * MS).unwrap();
    assert!(press(&mut state, 0xAF, 1100 * MS));
    assert_eq!(count.get(), 0);
    assert!(!press(&mut state, 0xAF, 1200 * MS));
    assert_eq!(count.get(), 1);
}

#[test]
fn other_messages_keep_keys() {
    let listener = KeyListener::new();
    let mut state: GlobalState<Cb> = GlobalState::new();
    let (cb, count) = counting(true);
    listener.listen(&mut state, "b", 0, cb, 0).unwrap();
    assert!(!process_key_event(&mut state, 0x42, KeyMessage::Other, &|| 5));
    assert_eq!(count.get(), 0);
    assert!(state.key_states.is_empty());
}

#[test]
fn listen_registers_the_parsed_codes() {
    let listener = KeyListener::new();
    let mut state: GlobalState<Cb> = GlobalState::new();
    let (cb, _) = counting(true);
    assert!(listener.listen(&mut state, "Ctrl + Shift + Z", 7, cb, 9).is_ok());
    assert_eq!(state.hooks.len(), 1);
    assert_eq!(state.hooks[0].vk_codes, vec![0x11, 0x10, 0x5A]);
    assert_eq!(state.hooks[0].debounce_interval, 7);
    assert_eq!(state.hooks[0].last_trigger, 9);
}

#[test]
fn listen_refuses_unknown_chord() {
    let listener = KeyListener::new();
    let mut state: GlobalState<Cb> = GlobalState::new();
    let (cb, _) = counting(true);
    match listener.listen(&mut state, "Foo + Bar", 0, cb, 0) {
        Err(KeyListenerError::InvalidKeyChord(chord)) => assert_eq!(chord, "Foo + Bar"),
        other => panic!("unexpected {:?}", other.is_ok()),
    }
    assert!(state.hooks.is_empty());
}

#[test]
fn unlisten_clears_hooks_and_returns_handle() {
    let listener = KeyListener::new();
    let mut state: GlobalState<Cb> = GlobalState::new();
    let (cb, count) = counting(true);
    listener.listen(&mut state, "a", 0, cb, 0).unwrap();
    assert!(state.global_hook_needed());
    state.record_global_hook(Ok(42)).unwrap();
    assert!(!state.global_hook_needed());
    assert_eq!(listener.unlisten(&mut state), Some(42));
    assert!(state.hooks.is_empty());
    assert_eq!(state.hook_handle, None);
    assert!(!press(&mut state, 0x41, 10));
    assert_eq!(count.get(), 0);
    assert_eq!(listener.unlisten(&mut state), None);
}

#[test]
fn failed_hook_installation_is_reported() {
    let mut state: GlobalState<Cb> = GlobalState::new();
    let err = windows_result::Error::from_hresult(windows_result::HRESULT(0x80004005u32 as i32));
    match state.record_global_hook(Err(err.clone())) {
        Err(KeyListenerError::WindowsError(e)) => assert_eq!(e, err),
        _ => panic!("expected a Windows error"),
    }
    assert_eq!(state.hook_handle, None);
}

#[test]
fn message_loop_is_claimed_once() {
    let mut state: GlobalState<Cb> = GlobalState::new();
    assert!(state.claim_message_loop());
    assert!(!state.claim_message_loop());
    assert!(state.message_loop_started);
}

#[test]
fn error_messages() {
    assert_eq!(
        KeyListenerError::InvalidKeyChord("Foo".to_string()).message(),
        "Invalid key chord: Foo"
    );
    assert_eq!(
        KeyListenerError::InternalError("poisoned".to_string()).message(),
        "Internal error: poisoned"
    );
    let err = windows_result::Error::from_hresult(windows_result::HRESULT(0x80004005u32 as i32));
    assert_eq!(
        KeyListenerError::WindowsError(err.clone()).message(),
        format!("Windows API error: {}", err)
    );
}

#[test]
fn normalizing_twice_is_normalizing_once() {
    for k in -5..=300 {
        let n = normalize_key(k);
        assert_eq!(normalize_key(n), n);
        assert!(![160, 161, 162, 163, 164, 165, 92].contains(&n));
    }
}

#[test]
fn dispatch_keeps_registrations() {
    let listener = KeyListener::new();
    let mut state: GlobalState<Cb> = GlobalState::new();
    let (cb1, _) = counting(false);
    let (cb2, _) = counting(true);
    listener.listen(&mut state, "ctrl + c", 5, cb1, 0).unwrap();
    listener.listen(&mut state, "c", 7, cb2, 0).unwrap();
    assert!(press(&mut state, 0x11, 100) == false);
    assert!(press(&mut state, 0x43, 200));
    assert_eq!(state.hooks.len(), 2);
    assert_eq!(state.hooks[0].vk_codes, vec![0x11, 0x43]);
    assert_eq!(state.hooks[0].debounce_interval, 5);
    assert_eq!(state.hooks[1].vk_codes, vec![0x43]);
    assert_eq!(state.hooks[1].debounce_interval, 7);
    assert_eq!(state.hooks[0].last_trigger, 200);
    assert_eq!(state.hooks[1].last_trigger, 200);
}
