//! Global keyboard shortcuts: key chords are parsed into virtual-key codes,
//! and each keyboard event is matched against the registered chords.
pub mod virtual_keys;
pub mod key_chord_parser;
pub mod key_listener;

pub use key_chord_parser::KeyChordParser;
pub use key_listener::{KeyListener, KeyListenerError, GlobalState, HookData};
