//! The listener's state and the decisions it takes: which keys are held,
//! whether a registered chord is held, whether its debounce interval has
//! passed, and whether a keyboard event is blocked or passed on.
use vstd::prelude::*;
use std::collections::HashMap;
use vstd::std_specs::iter::IteratorSpec;
use crate::key_chord_parser::{KeyChordParser, key_table, parse_chord};
use crate::virtual_keys::{
    VK_SHIFT, VK_CONTROL, VK_MENU, VK_LWIN, VK_RWIN, VK_LSHIFT, VK_RSHIFT, VK_LCONTROL,
    VK_RCONTROL, VK_LMENU, VK_RMENU,
};

verus! {

// ---------------------------------------------------------------------------
// Held keys
// ---------------------------------------------------------------------------

/// The generic code of `key`: left and right Shift, Control and Alt become
/// Shift, Control and Alt, and the right Windows key becomes the left one.
pub open spec fn normalized(key: i32) -> i32 {
    if key == VK_LSHIFT || key == VK_RSHIFT {
        VK_SHIFT
    } else if key == VK_LCONTROL || key == VK_RCONTROL {
        VK_CONTROL
    } else if key == VK_LMENU || key == VK_RMENU {
        VK_MENU
    } else if key == VK_LWIN || key == VK_RWIN {
        VK_LWIN
    } else {
        key
    }
}

/// Collapses the left/right variants of the modifier keys onto their generic code.
pub fn normalize_key(key: i32) -> (r: i32)
    ensures
        r == normalized(key),
{
    match key {
        160 | 161 => VK_SHIFT,
        162 | 163 => VK_CONTROL,
        164 | 165 => VK_MENU,
        91 | 92 => VK_LWIN,
        _ => key,
    }
}

/// The key `code` counts as held: that very key is down, or some key that
/// is down has `code` as its generic code (so a chord naming Control is held
/// by either Control key, and one naming left Control by left Control alone).
pub open spec fn is_held(code: i32, pressed: Set<i32>) -> bool {
    pressed.contains(code) || exists|p: i32| pressed.contains(p) && normalized(p) == code
}

/// Every code of `codes` counts as held.
pub open spec fn chord_held(codes: Seq<i32>, pressed: Set<i32>) -> bool {
    forall|j: int| 0 <= j < codes.len() ==> is_held(#[trigger] codes[j], pressed)
}

/// One registered chord: its callback, its codes, its debounce interval and
/// the time it last fired (times and intervals in nanoseconds of the
/// listener's monotonic clock).
pub struct HookData<C> {
    pub callback: C,
    pub vk_codes: Vec<i32>,
    pub debounce_interval: u128,
    pub last_trigger: u128,
}

/// Everything the listener keeps between keyboard events.
pub struct GlobalState<C> {
    /// The registered chords, in the order of registration.
    pub hooks: Vec<HookData<C>>,
    /// The keys held down (the value is always `true`).
    pub key_states: HashMap<i32, bool>,
    /// The handle of the installed keyboard hook, if any.
    pub hook_handle: Option<isize>,
    /// Whether the thread that pumps the message queue was started.
    pub message_loop_started: bool,
}

impl<C> GlobalState<C> {
    /// A state with no chord, no held key, no hook and no message loop.
    pub fn new() -> (r: Self)
        ensures
            r.hooks@.len() == 0,
            r.key_states@ == Map::<i32, bool>::empty(),
            r.hook_handle is None,
            !r.message_loop_started,
    {
        GlobalState {
            hooks: Vec::new(),
            key_states: HashMap::new(),
            hook_handle: None,
            message_loop_started: false,
        }
    }
}

/// The keys held down, each once, in no particular order.
pub fn get_pressed_keys<C>(state: &GlobalState<C>) -> (r: Vec<i32>)
    ensures
        r@.to_set() == state.key_states@.dom(),
        r@.no_duplicates(),
{
    broadcast use vstd::std_specs::hash::group_hash_axioms;
    let ghost all = vstd::std_specs::hash::spec_keys_iter(&state.key_states).remaining();
    let mut keys: Vec<i32> = Vec::new();
    for k in it: state.key_states.keys()
        invariant
            keys@ == it.seq().take(it.index()).unref(),
            it.seq() == all,
    {
        keys.push(*k);
    }
    proof {
        assert(all.take(all.len() as int) =~= all);
        assert(keys@.to_set() =~= all.unref().to_set());
    }
    keys
}


// ---------------------------------------------------------------------------
// Key messages
// ---------------------------------------------------------------------------

/// The message that a key went down.
pub const WM_KEYDOWN: usize = 0x0100;
/// The message that a key went up.
pub const WM_KEYUP: usize = 0x0101;

/// The hook code with which the system hands a low-level keyboard hook a
/// message to process.
pub const HC_ACTION: i32 = 0;

/// Whether a hook call with `n_code` carries a message to process; a call
/// with any other code is passed on untouched.
pub fn hook_applies(n_code: i32) -> (r: bool)
    ensures
        r == (n_code == HC_ACTION),
{
    n_code == HC_ACTION
}

/// What a low-level keyboard message says of its key.
#[derive(PartialEq, Eq, Structural, Clone, Copy, Debug)]
pub enum KeyMessage {
    KeyDown,
    KeyUp,
    Other,
}

/// Classifies the `w_param` of a low-level keyboard message.
pub fn key_message(w_param: usize) -> (r: KeyMessage)
    ensures
        r == (if w_param == WM_KEYDOWN {
            KeyMessage::KeyDown
        } else if w_param == WM_KEYUP {
            KeyMessage::KeyUp
        } else {
            KeyMessage::Other
        }),
{
    if w_param == WM_KEYDOWN {
        KeyMessage::KeyDown
    } else if w_param == WM_KEYUP {
        KeyMessage::KeyUp
    } else {
        KeyMessage::Other
    }
}

/// The held keys after `message` about `vk`: a key that goes down is held,
/// one that goes up is not, and any other message changes nothing.
pub open spec fn key_states_after(keys: Map<i32, bool>, vk: i32, message: KeyMessage) -> Map<i32, bool> {
    match message {
        KeyMessage::KeyDown => keys.insert(vk, true),
        KeyMessage::KeyUp => keys.remove(vk),
        KeyMessage::Other => keys,
    }
}

/// Records in `state` that `vk` went down or up.
pub fn update_key_states<C>(state: &mut GlobalState<C>, vk: i32, message: KeyMessage)
    ensures
        final(state).key_states@ == key_states_after(old(state).key_states@, vk, message),
        final(state).hooks == old(state).hooks,
        final(state).hook_handle == old(state).hook_handle,
        final(state).message_loop_started == old(state).message_loop_started,
{
    broadcast use vstd::std_specs::hash::group_hash_axioms;
    match message {
        KeyMessage::KeyDown => {
            state.key_states.insert(vk, true);
        },
        KeyMessage::KeyUp => {
            state.key_states.remove(&vk);
        },
        KeyMessage::Other => {},
    }
}

// ---------------------------------------------------------------------------
// Matching and debouncing
// ---------------------------------------------------------------------------

/// The generic code of each key of `keys`.
pub fn normalize_keys(keys: &Vec<i32>) -> (r: Vec<i32>)
    ensures
        r@.len() == keys@.len(),
        forall|j: int| 0 <= j < keys@.len() ==> r@[j] == normalized(#[trigger] keys@[j]),
{
    let mut r: Vec<i32> = Vec::new();
    let mut i: usize = 0;
    while i < keys.len()
        invariant
            i <= keys@.len(),
            r@.len() == i,
            forall|j: int| 0 <= j < i ==> r@[j] == normalized(#[trigger] keys@[j]),
        decreases keys@.len() - i,
    {
        r.push(normalize_key(keys[i]));
        i = i + 1;
    }
    r
}

/// Whether `x` occurs in `v`.
pub fn vec_contains(v: &Vec<i32>, x: i32) -> (r: bool)
    ensures
        r == v@.contains(x),
{
    let mut k: usize = 0;
    while k < v.len()
        invariant
            k <= v@.len(),
            forall|m: int| 0 <= m < k ==> v@[m] != x,
        decreases v@.len() - k,
    {
        if v[k] == x {
            return true;
        }
        k = k + 1;
    }
    false
}

/// Whether every code of `codes` occurs in `keys` or in `generic`.
pub fn chord_matches(codes: &Vec<i32>, keys: &Vec<i32>, generic: &Vec<i32>) -> (r: bool)
    ensures
        r == (forall|j: int| 0 <= j < codes@.len() ==>
            keys@.contains(#[trigger] codes@[j]) || generic@.contains(codes@[j])),
{
    let mut i: usize = 0;
    while i < codes.len()
        invariant
            i <= codes@.len(),
            forall|j: int| 0 <= j < i ==> keys@.contains(#[trigger] codes@[j]) || generic@.contains(codes@[j]),
        decreases codes@.len() - i,
    {
        if !vec_contains(keys, codes[i]) && !vec_contains(generic, codes[i]) {
            return false;
        }
        i = i + 1;
    }
    true
}

/// Whether at least `interval` has passed from `last` to `now`; a `now`
/// before `last` counts as no time passed.
pub open spec fn debounce_elapsed(last: u128, now: u128, interval: u128) -> bool {
    (if now >= last { now - last } else { 0 }) >= interval
}

/// What handling a held chord at `now` does to its hook: when the debounce
/// interval has passed, the hook records `now` and the callback runs and
/// decides `block`; otherwise nothing changes and the event is blocked.
pub open spec fn fire_step<C: Fn() -> bool>(before: HookData<C>, after: HookData<C>, now: u128, block: bool) -> bool {
    if debounce_elapsed(before.last_trigger, now, before.debounce_interval) {
        &&& after.callback == before.callback
        &&& after.vk_codes == before.vk_codes
        &&& after.debounce_interval == before.debounce_interval
        &&& after.last_trigger == now
        &&& call_ensures(before.callback, (), block)
    } else {
        &&& after == before
        &&& block
    }
}

/// Handles a held chord at time `now`: runs the callback when the debounce
/// interval has passed since the chord last fired and returns what it
/// returns (`true` blocks the event); otherwise skips the callback and blocks.
pub fn handle_chord_pressed<C: Fn() -> bool>(hook: &mut HookData<C>, now: u128) -> (block: bool)
    requires
        call_requires(old(hook).callback, ()),
    ensures
        fire_step(*old(hook), *final(hook), now, block),
{
    let elapsed: u128 = if now >= hook.last_trigger { now - hook.last_trigger } else { 0 };
    if elapsed >= hook.debounce_interval {
        hook.last_trigger = now;
        (hook.callback)()
    } else {
        true
    }
}


// ---------------------------------------------------------------------------
// Dispatching a keyboard event
// ---------------------------------------------------------------------------

/// How the hook `before` became `after` while an event went past it: a hook
/// whose chord is not held is untouched; a held one fired at some reading of
/// `clock` and its callback let the event through.
pub open spec fn passed_hook<C: Fn() -> bool, K: Fn() -> u128>(
    before: HookData<C>,
    after: HookData<C>,
    pressed: Set<i32>,
    clock: K,
) -> bool {
    if chord_held(before.vk_codes@, pressed) {
        exists|t: u128| call_ensures(clock, (), t) && #[trigger] fire_step(before, after, t, false)
    } else {
        after == before
    }
}

/// The hooks are examined in order and the `k`-th stops the event: every
/// hook before it let the event through, none after it was touched, and
/// the event is blocked exactly when `k` is a hook (whose chord is held and
/// whose handling blocked), not the end of the list.
pub open spec fn stops_at<C: Fn() -> bool, K: Fn() -> u128>(
    before: Seq<HookData<C>>,
    after: Seq<HookData<C>>,
    pressed: Set<i32>,
    clock: K,
    block: bool,
    k: int,
) -> bool {
    &&& 0 <= k <= before.len()
    &&& forall|i: int| 0 <= i < k ==> #[trigger] passed_hook(before[i], after[i], pressed, clock)
    &&& forall|i: int| k < i < before.len() ==> after[i] == before[i]
    &&& if k < before.len() {
        &&& chord_held(before[k].vk_codes@, pressed)
        &&& block
        &&& exists|t: u128| call_ensures(clock, (), t) && #[trigger] fire_step(before[k], after[k], t, true)
    } else {
        !block
    }
}

/// Dispatching an event with the keys `pressed` held took the hooks from
/// `before` to `after` and decided `block`.
pub open spec fn dispatched<C: Fn() -> bool, K: Fn() -> u128>(
    before: Seq<HookData<C>>,
    after: Seq<HookData<C>>,
    pressed: Set<i32>,
    clock: K,
    block: bool,
) -> bool {
    &&& after.len() == before.len()
    &&& exists|k: int| #[trigger] stops_at(before, after, pressed, clock, block, k)
}

proof fn lemma_normalized_held(keys: Seq<i32>, norm: Seq<i32>, pressed: Set<i32>, code: i32)
    requires
        keys.to_set() == pressed,
        norm.len() == keys.len(),
        forall|j: int| 0 <= j < keys.len() ==> norm[j] == normalized(#[trigger] keys[j]),
    ensures
        (keys.contains(code) || norm.contains(code)) == is_held(code, pressed),
{
    if keys.contains(code) {
        assert(keys.to_set().contains(code));
    }
    if pressed.contains(code) {
        assert(keys.to_set().contains(code));
    }
    if norm.contains(code) {
        let m = choose|m: int| 0 <= m < norm.len() && norm[m] == code;
        assert(keys.to_set().contains(keys[m]));
        assert(pressed.contains(keys[m]) && normalized(keys[m]) == code);
    }
    if is_held(code, pressed) && !pressed.contains(code) {
        let p = choose|p: i32| pressed.contains(p) && normalized(p) == code;
        assert(keys.to_set().contains(p));
        let m = choose|m: int| 0 <= m < keys.len() && keys[m] == p;
        assert(norm[m] == code);
    }
}

/// Handles one low-level keyboard event: records the key's new state, then
/// examines the registered chords in order. Each chord whose keys are all held
/// (a left or right modifier also counting as the generic one) is handled at a fresh
/// reading of `clock`; the first handling that blocks stops the event and the
/// function returns `true`. When none blocks it returns `false` and the event
/// goes on to the next hook of the system.
pub fn process_key_event<C: Fn() -> bool, K: Fn() -> u128>(
    state: &mut GlobalState<C>,
    vk: i32,
    message: KeyMessage,
    clock: &K,
) -> (block: bool)
    requires
        forall|i: int| 0 <= i < old(state).hooks@.len() ==> call_requires(#[trigger] old(state).hooks@[i].callback, ()),
        call_requires(*clock, ()),
    ensures
        final(state).key_states@ == key_states_after(old(state).key_states@, vk, message),
        final(state).hook_handle == old(state).hook_handle,
        final(state).message_loop_started == old(state).message_loop_started,
        dispatched(old(state).hooks@, final(state).hooks@, final(state).key_states@.dom(), *clock, block),
{
    let ghost before = state.hooks@;
    update_key_states(state, vk, message);
    let pressed_keys = get_pressed_keys(state);
    let normalized_keys = normalize_keys(&pressed_keys);
    let ghost pressed = state.key_states@.dom();
    let ghost keys_after = state.key_states@;

    let n = state.hooks.len();
    let mut i: usize = 0;
    while i < n
        invariant
            n == before.len(),
            before == old(state).hooks@,
            state.hooks@.len() == n,
            i <= n,
            state.key_states@ == keys_after,
            keys_after == key_states_after(old(state).key_states@, vk, message),
            pressed == keys_after.dom(),
            state.hook_handle == old(state).hook_handle,
            state.message_loop_started == old(state).message_loop_started,
            call_requires(*clock, ()),
            pressed_keys@.to_set() == pressed,
            normalized_keys@.len() == pressed_keys@.len(),
            forall|j: int| 0 <= j < pressed_keys@.len() ==> normalized_keys@[j] == normalized(#[trigger] pressed_keys@[j]),
            forall|j: int| 0 <= j < n ==> call_requires(#[trigger] before[j].callback, ()),
            forall|j: int| 0 <= j < i ==> #[trigger] passed_hook(before[j], state.hooks@[j], pressed, *clock),
            forall|j: int| i <= j < n ==> state.hooks@[j] == before[j],
        decreases n - i,
    {
        let held = chord_matches(&state.hooks[i].vk_codes, &pressed_keys, &normalized_keys);
        proof {
            let codes = before[i as int].vk_codes@;
            assert forall|j: int| 0 <= j < codes.len() implies
                (pressed_keys@.contains(codes[j]) || normalized_keys@.contains(codes[j]))
                    == is_held(#[trigger] codes[j], pressed) by {
                lemma_normalized_held(pressed_keys@, normalized_keys@, pressed, codes[j]);
            }
            assert(held == chord_held(codes, pressed));
        }
        if held {
            let now = clock();
            let ghost mid = state.hooks@;
            let blocked = handle_chord_pressed(&mut state.hooks[i], now);
            proof {
                assert(state.key_states@ == keys_after);
                assert(state.hooks@ == mid.update(i as int, state.hooks@[i as int]));
            }
            if blocked {
                proof {
                    assert(fire_step(before[i as int], state.hooks@[i as int], now, true));
                    assert(stops_at(before, state.hooks@, pressed, *clock, true, i as int));
                }
                return true;
            }
            proof {
                assert(fire_step(before[i as int], state.hooks@[i as int], now, false));
                assert(passed_hook(before[i as int], state.hooks@[i as int], pressed, *clock));
            }
        }
        i = i + 1;
    }
    proof {
        assert(stops_at(before, state.hooks@, pressed, *clock, false, n as int));
    }
    false
}


// ---------------------------------------------------------------------------
// Errors
// ---------------------------------------------------------------------------

/// Declares `windows_result::Error` (the error type that `windows::core::Error`
/// re-exports) to Verus. Its values are carried through opaque; nothing is
/// claimed about what they hold.
#[verifier::external_type_specification]
#[verifier::external_body]
pub struct ExWindowsError(windows_result::Error);

/// Why registering a chord failed.
#[derive(Debug)]
pub enum KeyListenerError {
    /// The chord names no known key.
    InvalidKeyChord(String),
    /// A Windows API call failed.
    WindowsError(windows_result::Error),
    /// The listener's own state was unusable.
    InternalError(String),
}

impl KeyListenerError {
    /// The text that describes the error.
    pub fn message(&self) -> (r: String)
        ensures
            match self {
                KeyListenerError::InvalidKeyChord(chord) => r@ == "Invalid key chord: "@ + chord@,
                KeyListenerError::WindowsError(e) => exists|t: String|
                    vstd::string::to_string_from_display_ensures::<windows_result::Error>(e, t)
                        && r@ == "Windows API error: "@ + t@,
                KeyListenerError::InternalError(msg) => r@ == "Internal error: "@ + msg@,
            },
    {
        match self {
            KeyListenerError::InvalidKeyChord(chord) => {
                let mut r = "Invalid key chord: ".to_string();
                r.append(chord.as_str());
                r
            },
            KeyListenerError::WindowsError(e) => {
                let mut r = "Windows API error: ".to_string();
                let text = e.to_string();
                r.append(text.as_str());
                r
            },
            KeyListenerError::InternalError(msg) => {
                let mut r = "Internal error: ".to_string();
                r.append(msg.as_str());
                r
            },
        }
    }
}

// ---------------------------------------------------------------------------
// The keyboard hook and the message loop
// ---------------------------------------------------------------------------

impl<C> GlobalState<C> {
    /// Whether the keyboard hook still has to be installed.
    pub fn global_hook_needed(&self) -> (r: bool)
        ensures
            r == self.hook_handle is None,
    {
        self.hook_handle.is_none()
    }

    /// Records the outcome of installing the keyboard hook: its handle, or
    /// the Windows error that stopped it.
    pub fn record_global_hook(&mut self, installed: Result<isize, windows_result::Error>) -> (r: Result<(), KeyListenerError>)
        requires
            old(self).hook_handle is None,
        ensures
            final(self).hooks == old(self).hooks,
            final(self).key_states == old(self).key_states,
            final(self).message_loop_started == old(self).message_loop_started,
            match installed {
                Ok(h) => r is Ok && final(self).hook_handle == Some(h),
                Err(e) => r == Err::<(), KeyListenerError>(KeyListenerError::WindowsError(e))
                    && final(self).hook_handle is None,
            },
    {
        match installed {
            Ok(h) => {
                self.hook_handle = Some(h);
                Ok(())
            },
            Err(e) => Err(KeyListenerError::WindowsError(e)),
        }
    }

    /// Claims the start of the message loop: `true` the first time (the caller
    /// then starts it), `false` once it was started.
    pub fn claim_message_loop(&mut self) -> (start: bool)
        ensures
            start == !old(self).message_loop_started,
            final(self).message_loop_started,
            final(self).hooks == old(self).hooks,
            final(self).key_states == old(self).key_states,
            final(self).hook_handle == old(self).hook_handle,
    {
        if self.message_loop_started {
            false
        } else {
            self.message_loop_started = true;
            true
        }
    }
}

impl<C> GlobalState<C> {
    /// Completes the registration of a chord. `installed` is the outcome of
    /// installing the keyboard hook, which is attempted exactly when none is
    /// installed yet. A failed installation is the error and leaves the state
    /// as it was, the message loop unclaimed. Otherwise the hook is recorded,
    /// the message loop is claimed, and `Ok(true)` tells the caller to start
    /// it (`Ok(false)`: it runs already).
    pub fn complete_registration(
        &mut self,
        installed: Option<Result<isize, windows_result::Error>>,
    ) -> (r: Result<bool, KeyListenerError>)
        requires
            installed is Some <==> old(self).hook_handle is None,
        ensures
            final(self).hooks == old(self).hooks,
            final(self).key_states == old(self).key_states,
            match installed {
                Some(Err(e)) => {
                    &&& r == Err::<bool, KeyListenerError>(KeyListenerError::WindowsError(e))
                    &&& final(self).hook_handle == old(self).hook_handle
                    &&& final(self).message_loop_started == old(self).message_loop_started
                },
                _ => {
                    &&& r == Ok::<bool, KeyListenerError>(!old(self).message_loop_started)
                    &&& final(self).message_loop_started
                    &&& final(self).hook_handle == (match installed {
                        Some(Ok(h)) => Some(h),
                        _ => old(self).hook_handle,
                    })
                },
            },
    {
        match installed {
            Some(outcome) => {
                let recorded = self.record_global_hook(outcome);
                match recorded {
                    Ok(()) => {},
                    Err(e) => {
                        return Err(e);
                    },
                }
            },
            None => {},
        }
        Ok(self.claim_message_loop())
    }
}

// ---------------------------------------------------------------------------
// The listener
// ---------------------------------------------------------------------------

/// Registers key chords with their callbacks.
pub struct KeyListener {
    parser: KeyChordParser,
}

impl View for KeyListener {
    type V = Map<Seq<char>, i32>;

    /// The key table the listener parses chords with.
    closed spec fn view(&self) -> Map<Seq<char>, i32> {
        self.parser@
    }
}

impl KeyListener {
    /// A listener that knows every key of `key_table()`.
    pub fn new() -> (r: Self)
        ensures
            r@ == key_table(),
    {
        KeyListener { parser: KeyChordParser::new() }
    }

    /// Registers `callback` for `key_chord`, to fire at most once per
    /// `debounce_interval` (nanoseconds), counted from `now`. A chord that names
    /// no known key is refused and the state is left as it was.
    pub fn listen<C>(
        &self,
        state: &mut GlobalState<C>,
        key_chord: &str,
        debounce_interval: u128,
        callback: C,
        now: u128,
    ) -> (r: Result<(), KeyListenerError>)
        ensures
            match parse_chord(self@, key_chord@) {
                None => {
                    &&& r matches Err(KeyListenerError::InvalidKeyChord(chord)) && chord@ == key_chord@
                    &&& *final(state) == *old(state)
                },
                Some(codes) => {
                    &&& r is Ok
                    &&& final(state).hooks@.len() == old(state).hooks@.len() + 1
                    &&& final(state).hooks@.drop_last() == old(state).hooks@
                    &&& final(state).hooks@.last().callback == callback
                    &&& final(state).hooks@.last().vk_codes@ == codes
                    &&& final(state).hooks@.last().debounce_interval == debounce_interval
                    &&& final(state).hooks@.last().last_trigger == now
                    &&& final(state).key_states == old(state).key_states
                    &&& final(state).hook_handle == old(state).hook_handle
                    &&& final(state).message_loop_started == old(state).message_loop_started
                },
            },
    {
        let parsed = self.parser.parse(key_chord);
        match parsed {
            None => Err(KeyListenerError::InvalidKeyChord(key_chord.to_string())),
            Some(vk_codes) => {
                let ghost old_hooks = state.hooks@;
                state.hooks.push(HookData {
                    callback,
                    vk_codes,
                    debounce_interval,
                    last_trigger: now,
                });
                proof {
                    assert(state.hooks@.drop_last() =~= old_hooks);
                }
                Ok(())
            },
        }
    }

    /// Removes every registered chord and hands back the handle of the
    /// keyboard hook, if one was installed, for the caller to remove.
    pub fn unlisten<C>(&self, state: &mut GlobalState<C>) -> (handle: Option<isize>)
        ensures
            handle == old(state).hook_handle,
            final(state).hooks@.len() == 0,
            final(state).hook_handle is None,
            final(state).key_states == old(state).key_states,
            final(state).message_loop_started == old(state).message_loop_started,
    {
        state.hooks.clear();
        state.hook_handle.take()
    }
}


// ---------------------------------------------------------------------------
// Laws
// ---------------------------------------------------------------------------

/// Normalizing a code twice is normalizing it once, and a normalized code is
/// never one of the left/right-specific modifier codes.
pub proof fn lemma_normalized_is_generic(key: i32)
    ensures
        normalized(normalized(key)) == normalized(key),
        normalized(key) != VK_LSHIFT && normalized(key) != VK_RSHIFT,
        normalized(key) != VK_LCONTROL && normalized(key) != VK_RCONTROL,
        normalized(key) != VK_LMENU && normalized(key) != VK_RMENU,
        normalized(key) != VK_RWIN,
{
}

/// Normalizing collapses exactly the side-specific modifiers: left and right
/// Shift (160, 161) become Shift (16), left and right Control (162, 163)
/// become Control (17), left and right Alt (164, 165) become Alt (18), the
/// right Windows key (92) becomes the left one (91), and every other code is
/// left as it is.
pub proof fn lemma_normalize_collapses_only_sides(key: i32)
    ensures
        (key == 160 || key == 161) ==> normalized(key) == 16,
        (key == 162 || key == 163) ==> normalized(key) == 17,
        (key == 164 || key == 165) ==> normalized(key) == 18,
        key == 92 ==> normalized(key) == 91,
        !(160 <= key <= 165 || key == 92) ==> normalized(key) == key,
{
}

/// When a chord key counts as held: that very key is down; or it is Shift
/// (16) and a left or right Shift (160, 161) is down; or Control (17) and a
/// left or right Control (162, 163) is down; or Alt (18) and a left or right
/// Alt (164, 165) is down; or the left Windows key (91) and the right one
/// (92) is down. Nothing else makes it held.
pub proof fn lemma_is_held_exact(code: i32, pressed: Set<i32>)
    ensures
        is_held(code, pressed) == (pressed.contains(code)
            || (code == 16 && (pressed.contains(160) || pressed.contains(161)))
            || (code == 17 && (pressed.contains(162) || pressed.contains(163)))
            || (code == 18 && (pressed.contains(164) || pressed.contains(165)))
            || (code == 91 && pressed.contains(92))),
{
    if is_held(code, pressed) && !pressed.contains(code) {
        let p = choose|p: i32| pressed.contains(p) && normalized(p) == code;
        lemma_normalize_collapses_only_sides(p);
    }
    if code == 16 && pressed.contains(160) {
        lemma_normalize_collapses_only_sides(160);
    }
    if code == 16 && pressed.contains(161) {
        lemma_normalize_collapses_only_sides(161);
    }
    if code == 17 && pressed.contains(162) {
        lemma_normalize_collapses_only_sides(162);
    }
    if code == 17 && pressed.contains(163) {
        lemma_normalize_collapses_only_sides(163);
    }
    if code == 18 && pressed.contains(164) {
        lemma_normalize_collapses_only_sides(164);
    }
    if code == 18 && pressed.contains(165) {
        lemma_normalize_collapses_only_sides(165);
    }
    if code == 91 && pressed.contains(92) {
        lemma_normalize_collapses_only_sides(92);
    }
}

/// What handling a held chord does, by its times alone: when `now` is at
/// least one debounce interval after the last trigger (or the interval is
/// zero), the callback decides the outcome and the hook records `now`,
/// keeping its callback, codes and interval; when `now` is earlier than that,
/// the callback is skipped, the hook is unchanged and the event is blocked.
pub proof fn lemma_handling_by_elapsed_time<C: Fn() -> bool>(
    before: HookData<C>,
    after: HookData<C>,
    now: u128,
    block: bool,
)
    requires
        fire_step(before, after, now, block),
    ensures
        (now >= before.last_trigger + before.debounce_interval || before.debounce_interval == 0) ==> {
            &&& call_ensures(before.callback, (), block)
            &&& after.last_trigger == now
            &&& after.callback == before.callback
            &&& after.vk_codes == before.vk_codes
            &&& after.debounce_interval == before.debounce_interval
        },
        !(now >= before.last_trigger + before.debounce_interval || before.debounce_interval == 0) ==> {
            &&& after == before
            &&& block
        },
{
}

/// A chord all of whose keys are down is held, whichever of them are
/// left/right-specific modifiers.
pub proof fn lemma_chord_of_down_keys_is_held(codes: Seq<i32>, pressed: Set<i32>)
    requires
        forall|j: int| 0 <= j < codes.len() ==> pressed.contains(#[trigger] codes[j]),
    ensures
        chord_held(codes, pressed),
{
}

/// Pressing and then releasing a key leaves the other keys as they were and
/// the key itself released; a key that was not held before is back to the
/// state before the press.
pub proof fn lemma_press_release(keys: Map<i32, bool>, vk: i32)
    ensures
        key_states_after(key_states_after(keys, vk, KeyMessage::KeyDown), vk, KeyMessage::KeyUp) == keys.remove(vk),
        !keys.contains_key(vk) ==> key_states_after(
            key_states_after(keys, vk, KeyMessage::KeyDown),
            vk,
            KeyMessage::KeyUp,
        ) == keys,
{
    assert(keys.insert(vk, true).remove(vk) =~= keys.remove(vk));
    if !keys.contains_key(vk) {
        assert(keys.remove(vk) =~= keys);
    }
}

/// Once a chord has fired at `t`, handling it again before its debounce
/// interval has passed (at a `t2` with `t <= t2 < t + interval`) skips the
/// callback, leaves the hook as it is and blocks the event.
pub proof fn lemma_debounce_suppresses_repeat<C: Fn() -> bool>(
    h0: HookData<C>,
    h1: HookData<C>,
    h2: HookData<C>,
    t: u128,
    t2: u128,
    b1: bool,
    b2: bool,
)
    requires
        fire_step(h0, h1, t, b1),
        debounce_elapsed(h0.last_trigger, t, h0.debounce_interval),
        fire_step(h1, h2, t2, b2),
        t <= t2,
        t2 < t + h0.debounce_interval,
    ensures
        h2 == h1,
        b2,
{
}

/// Dispatching an event keeps every registration: each hook keeps its
/// callback, its codes and its debounce interval; only the time it last
/// fired may change.
pub proof fn lemma_dispatch_keeps_registrations<C: Fn() -> bool, K: Fn() -> u128>(
    before: Seq<HookData<C>>,
    after: Seq<HookData<C>>,
    pressed: Set<i32>,
    clock: K,
    block: bool,
)
    requires
        dispatched(before, after, pressed, clock, block),
    ensures
        after.len() == before.len(),
        forall|i: int| 0 <= i < before.len() ==> {
            &&& (#[trigger] after[i]).callback == before[i].callback
            &&& after[i].vk_codes == before[i].vk_codes
            &&& after[i].debounce_interval == before[i].debounce_interval
        },
{
    let k = choose|k: int| #[trigger] stops_at(before, after, pressed, clock, block, k);
    assert forall|i: int| 0 <= i < before.len() implies {
        &&& (#[trigger] after[i]).callback == before[i].callback
        &&& after[i].vk_codes == before[i].vk_codes
        &&& after[i].debounce_interval == before[i].debounce_interval
    } by {
        if i < k {
            assert(passed_hook(before[i], after[i], pressed, clock));
            if chord_held(before[i].vk_codes@, pressed) {
                let t = choose|t: u128| call_ensures(clock, (), t) && #[trigger] fire_step(before[i], after[i], t, false);
            }
        } else if i == k {
            let t = choose|t: u128| call_ensures(clock, (), t) && #[trigger] fire_step(before[i], after[i], t, true);
        }
    }
}

/// Whether handling `hook` at `now` runs its callback.
pub open spec fn fires_at<C>(hook: HookData<C>, now: u128) -> bool {
    debounce_elapsed(hook.last_trigger, now, hook.debounce_interval)
}

proof fn lemma_debounce_prefix<C: Fn() -> bool>(hooks: Seq<HookData<C>>, times: Seq<u128>, blocks: Seq<bool>, k: int)
    requires
        hooks.len() == times.len() + 1,
        blocks.len() == times.len(),
        forall|i: int| 0 <= i < times.len() ==> #[trigger] fire_step(hooks[i], hooks[i + 1], times[i], blocks[i]),
        hooks[0].debounce_interval > 0,
        0 <= k <= times.len(),
    ensures
        hooks[k].debounce_interval == hooks[0].debounce_interval,
        hooks[k].last_trigger >= hooks[0].last_trigger,
        forall|i: int| 0 <= i < k && fires_at(hooks[i], #[trigger] times[i]) ==> hooks[k].last_trigger >= times[i],
    decreases k,
{
    if k > 0 {
        let j = k - 1;
        lemma_debounce_prefix(hooks, times, blocks, j);
        assert(fire_step(hooks[j], hooks[j + 1], times[j], blocks[j]));
    }
}

/// Over any run of handlings of one hook (handling `hooks[i]` at `times[i]`
/// gives `hooks[i + 1]`) with a positive debounce interval, the callback runs
/// at least one interval after the hook's initial last trigger, and any two
/// of its runs are at least one interval apart.
pub proof fn lemma_debounce_spacing<C: Fn() -> bool>(hooks: Seq<HookData<C>>, times: Seq<u128>, blocks: Seq<bool>)
    requires
        hooks.len() == times.len() + 1,
        blocks.len() == times.len(),
        forall|i: int| 0 <= i < times.len() ==> #[trigger] fire_step(hooks[i], hooks[i + 1], times[i], blocks[i]),
        hooks[0].debounce_interval > 0,
    ensures
        forall|i: int| 0 <= i < times.len() && fires_at(hooks[i], #[trigger] times[i])
            ==> times[i] >= hooks[0].last_trigger + hooks[0].debounce_interval,
        forall|i: int, j: int| 0 <= i < j < times.len() && fires_at(hooks[i], #[trigger] times[i])
            && fires_at(hooks[j], #[trigger] times[j]) ==> times[j] >= times[i] + hooks[0].debounce_interval,
{
    assert forall|i: int| 0 <= i < times.len() && fires_at(hooks[i], #[trigger] times[i])
        implies times[i] >= hooks[0].last_trigger + hooks[0].debounce_interval by {
        lemma_debounce_prefix(hooks, times, blocks, i);
    }
    assert forall|i: int, j: int| 0 <= i < j < times.len() && fires_at(hooks[i], #[trigger] times[i])
        && fires_at(hooks[j], #[trigger] times[j]) implies times[j] >= times[i] + hooks[0].debounce_interval by {
        lemma_debounce_prefix(hooks, times, blocks, j);
    }
}

/// Across any run of calls on one state, each keeping or setting the flag
/// that the message loop was started (as every function of this module
/// does), the flag never goes back to `false`, and at most one call claims
/// the start of the loop (`claimed[i]`: call `i` returned `true` from
/// `claim_message_loop`).
pub proof fn lemma_message_loop_started_once<C>(states: Seq<GlobalState<C>>, claimed: Seq<bool>)
    requires
        states.len() == claimed.len() + 1,
        forall|i: int| 0 <= i < claimed.len() ==> (#[trigger] states[i]).message_loop_started
            ==> states[i + 1].message_loop_started,
        forall|i: int| 0 <= i < claimed.len() ==> #[trigger] claimed[i]
            ==> !states[i].message_loop_started && states[i + 1].message_loop_started,
    ensures
        forall|i: int, j: int| 0 <= i <= j < states.len() && (#[trigger] states[i]).message_loop_started
            ==> (#[trigger] states[j]).message_loop_started,
        forall|i: int, j: int| 0 <= i < j < claimed.len() ==> !(#[trigger] claimed[i] && #[trigger] claimed[j]),
{
    assert forall|i: int, j: int| 0 <= i <= j < states.len() && (#[trigger] states[i]).message_loop_started
        implies (#[trigger] states[j]).message_loop_started by {
        lemma_flag_persists(states, claimed, i, j);
    }
    assert forall|i: int, j: int| 0 <= i < j < claimed.len() implies !(#[trigger] claimed[i] && #[trigger] claimed[j]) by {
        if claimed[i] {
            lemma_flag_persists(states, claimed, i + 1, j);
        }
    }
}

proof fn lemma_flag_persists<C>(states: Seq<GlobalState<C>>, claimed: Seq<bool>, i: int, j: int)
    requires
        states.len() == claimed.len() + 1,
        forall|k: int| 0 <= k < claimed.len() ==> (#[trigger] states[k]).message_loop_started
            ==> states[k + 1].message_loop_started,
        0 <= i <= j < states.len(),
        states[i].message_loop_started,
    ensures
        states[j].message_loop_started,
    decreases j - i,
{
    if i < j {
        assert(states[i].message_loop_started ==> states[i + 1].message_loop_started);
        lemma_flag_persists(states, claimed, i + 1, j);
    }
}

/// An event is passed on only when every registered chord that is held had
/// its debounce interval passed at some reading of the clock, recorded that
/// reading, and had its callback return `false`; chords that are not held are
/// left untouched.
pub proof fn lemma_pass_means_every_held_callback_declined<C: Fn() -> bool, K: Fn() -> u128>(
    before: Seq<HookData<C>>,
    after: Seq<HookData<C>>,
    pressed: Set<i32>,
    clock: K,
    block: bool,
)
    requires
        dispatched(before, after, pressed, clock, block),
        !block,
    ensures
        after.len() == before.len(),
        forall|i: int| 0 <= i < before.len() && chord_held(#[trigger] before[i].vk_codes@, pressed) ==> exists|t: u128| {
            &&& call_ensures(clock, (), t)
            &&& fires_at(before[i], t)
            &&& after[i].last_trigger == t
            &&& call_ensures(before[i].callback, (), false)
        },
        forall|i: int| 0 <= i < before.len() && !chord_held(#[trigger] before[i].vk_codes@, pressed) ==> after[i] == before[i],
{
    let k = choose|k: int| #[trigger] stops_at(before, after, pressed, clock, block, k);
    assert(k == before.len());
    assert forall|i: int| 0 <= i < before.len() && chord_held(#[trigger] before[i].vk_codes@, pressed) implies exists|t: u128| {
        &&& call_ensures(clock, (), t)
        &&& fires_at(before[i], t)
        &&& after[i].last_trigger == t
        &&& call_ensures(before[i].callback, (), false)
    } by {
        assert(passed_hook(before[i], after[i], pressed, clock));
        let t = choose|t: u128| call_ensures(clock, (), t) && #[trigger] fire_step(before[i], after[i], t, false);
        assert(fires_at(before[i], t));
    }
    assert forall|i: int| 0 <= i < before.len() && !chord_held(#[trigger] before[i].vk_codes@, pressed) implies after[i] == before[i] by {
        assert(passed_hook(before[i], after[i], pressed, clock));
    }
}

/// With no registered chord every event is passed on and nothing changes.
pub proof fn lemma_no_hooks_pass<C: Fn() -> bool, K: Fn() -> u128>(
    after: Seq<HookData<C>>,
    pressed: Set<i32>,
    clock: K,
    block: bool,
)
    requires
        dispatched(Seq::<HookData<C>>::empty(), after, pressed, clock, block),
    ensures
        !block,
        after.len() == 0,
{
    let k = choose|k: int| #[trigger] stops_at(Seq::<HookData<C>>::empty(), after, pressed, clock, block, k);
}

/// When no registered chord is held, the event is passed on and no hook changes.
pub proof fn lemma_unheld_chords_pass<C: Fn() -> bool, K: Fn() -> u128>(
    before: Seq<HookData<C>>,
    after: Seq<HookData<C>>,
    pressed: Set<i32>,
    clock: K,
    block: bool,
)
    requires
        dispatched(before, after, pressed, clock, block),
        forall|i: int| 0 <= i < before.len() ==> !chord_held(#[trigger] before[i].vk_codes@, pressed),
    ensures
        !block,
        after == before,
{
    let k = choose|k: int| #[trigger] stops_at(before, after, pressed, clock, block, k);
    assert forall|i: int| 0 <= i < before.len() implies after[i] == before[i] by {
        if i < k {
            assert(passed_hook(before[i], after[i], pressed, clock));
        }
    }
    assert(after =~= before);
}

/// An event is blocked only by a hook whose chord is held: when it is
/// blocked, some hook's chord is held, and every hook before the first such
/// blocking one let the event through.
pub proof fn lemma_block_needs_held_chord<C: Fn() -> bool, K: Fn() -> u128>(
    before: Seq<HookData<C>>,
    after: Seq<HookData<C>>,
    pressed: Set<i32>,
    clock: K,
    block: bool,
)
    requires
        dispatched(before, after, pressed, clock, block),
        block,
    ensures
        exists|k: int| 0 <= k < before.len() && chord_held(#[trigger] before[k].vk_codes@, pressed),
{
    let k = choose|k: int| #[trigger] stops_at(before, after, pressed, clock, block, k);
    assert(chord_held(before[k].vk_codes@, pressed));
}

} // verus!
