//! Key chords: the table of key names and the parser from a chord such as
//! `"Ctrl + Shift + Z"` to the virtual-key codes it names.
use vstd::prelude::*;
use vstd::hash_map::StringHashMap;
use vstd::string::StrSliceExecFns;
use crate::virtual_keys::{
    VK_CANCEL, VK_BACK, VK_TAB, VK_RETURN, VK_SHIFT, VK_CONTROL, VK_MENU, VK_PAUSE, VK_CAPITAL, VK_ESCAPE, VK_SPACE, VK_PRIOR, VK_NEXT, VK_END, VK_HOME, VK_LEFT, VK_UP, VK_RIGHT, VK_DOWN, VK_SNAPSHOT, VK_INSERT, VK_DELETE, VK_LWIN, VK_RWIN, VK_APPS, VK_SLEEP, VK_MULTIPLY, VK_ADD, VK_SUBTRACT, VK_DECIMAL, VK_DIVIDE, VK_NUMLOCK, VK_SCROLL, VK_LSHIFT, VK_RSHIFT, VK_LCONTROL, VK_RCONTROL, VK_LMENU, VK_RMENU, VK_VOLUME_MUTE, VK_VOLUME_DOWN, VK_VOLUME_UP, VK_MEDIA_NEXT_TRACK, VK_MEDIA_PREV_TRACK, VK_MEDIA_STOP, VK_MEDIA_PLAY_PAUSE, VK_ZOOM, VK_A, VK_0, VK_NUMPAD0, VK_F1,
};

verus! {

// ---------------------------------------------------------------------------
// The key table
// ---------------------------------------------------------------------------

/// The modifier keys.
pub open spec fn modifier_keys() -> Map<Seq<char>, i32> {
    map![
        "ctrl"@ => VK_CONTROL, "lctrl"@ => VK_LCONTROL, "rctrl"@ => VK_RCONTROL,
        "shift"@ => VK_SHIFT, "lshift"@ => VK_LSHIFT, "rshift"@ => VK_RSHIFT,
        "alt"@ => VK_MENU, "lalt"@ => VK_LMENU, "ralt"@ => VK_RMENU
    ]
}

/// A family of `count` keys: the `i`-th (from 0) is named `name(i)` and has
/// the code `code(i)`; a later member replaces an earlier one of the same name.
pub open spec fn key_family(count: nat, name: spec_fn(int) -> Seq<char>, code: spec_fn(int) -> int) -> Map<Seq<char>, i32>
    decreases count,
{
    if count == 0 {
        Map::empty()
    } else {
        key_family((count - 1) as nat, name, code).insert(name(count - 1), code(count - 1) as i32)
    }
}

/// The decimal digit character of `d` (`0 <= d < 10`).
pub open spec fn digit_char(d: int) -> char {
    (48 + d) as char
}

/// The decimal notation of `n`, without leading zeros.
pub open spec fn decimal(n: nat) -> Seq<char>
    decreases n,
{
    if n < 10 {
        seq![digit_char(n as int)]
    } else {
        decimal(n / 10).push(digit_char((n % 10) as int))
    }
}

/// The letter keys: `"a"` .. `"z"` name the codes `0x41` .. `0x5A`.
pub open spec fn letter_keys() -> Map<Seq<char>, i32> {
    key_family(26, |i: int| seq![(97 + i) as char], |i: int| VK_A + i)
}

/// The digit keys: `"0"` .. `"9"` name the codes `0x30` .. `0x39`.
pub open spec fn digit_keys() -> Map<Seq<char>, i32> {
    key_family(10, |i: int| seq![digit_char(i)], |i: int| VK_0 + i)
}

/// The function keys: `"f1"` .. `"f12"` name the codes `0x70` .. `0x7B`.
pub open spec fn function_keys() -> Map<Seq<char>, i32> {
    key_family(12, |i: int| seq!['f'] + decimal((i + 1) as nat), |i: int| VK_F1 + i)
}

/// The numeric keypad digits: `"num0"` .. `"num9"` name the codes `0x60` .. `0x69`.
pub open spec fn numpad_keys() -> Map<Seq<char>, i32> {
    key_family(10, |i: int| seq!['n', 'u', 'm'] + decimal(i as nat), |i: int| VK_NUMPAD0 + i)
}

/// The other keys of the numeric keypad.
pub open spec fn numpad_special_keys() -> Map<Seq<char>, i32> {
    map![
        "numlock"@ => VK_NUMLOCK, "numslash"@ => VK_DIVIDE, "nummultiply"@ => VK_MULTIPLY,
        "numminus"@ => VK_SUBTRACT, "numplus"@ => VK_ADD, "numenter"@ => VK_RETURN,
        "numdecimal"@ => VK_DECIMAL
    ]
}

/// Editing and whitespace keys.
pub open spec fn special_keys() -> Map<Seq<char>, i32> {
    map![
        "back"@ => VK_BACK, "tab"@ => VK_TAB, "enter"@ => VK_RETURN,
        "space"@ => VK_SPACE, "capslock"@ => VK_CAPITAL, "esc"@ => VK_ESCAPE
    ]
}

/// Cursor and page keys.
pub open spec fn navigation_keys() -> Map<Seq<char>, i32> {
    map![
        "left"@ => VK_LEFT, "right"@ => VK_RIGHT, "up"@ => VK_UP, "down"@ => VK_DOWN,
        "home"@ => VK_HOME, "end"@ => VK_END, "pageup"@ => VK_PRIOR, "pagedown"@ => VK_NEXT,
        "insert"@ => VK_INSERT, "delete"@ => VK_DELETE
    ]
}

/// System keys.
pub open spec fn system_keys() -> Map<Seq<char>, i32> {
    map![
        "printscreen"@ => VK_SNAPSHOT, "scrolllock"@ => VK_SCROLL, "pause"@ => VK_PAUSE,
        "break"@ => VK_CANCEL, "menu"@ => VK_MENU, "lmenu"@ => VK_LMENU, "rmenu"@ => VK_RMENU,
        "lwin"@ => VK_LWIN, "rwin"@ => VK_RWIN, "apps"@ => VK_APPS, "sleep"@ => VK_SLEEP,
        "zoom"@ => VK_ZOOM
    ]
}

/// Media keys.
pub open spec fn media_keys() -> Map<Seq<char>, i32> {
    map![
        "volumeup"@ => VK_VOLUME_UP, "volumedown"@ => VK_VOLUME_DOWN,
        "volumemute"@ => VK_VOLUME_MUTE, "stop"@ => VK_MEDIA_STOP,
        "playpause"@ => VK_MEDIA_PLAY_PAUSE, "prev"@ => VK_MEDIA_PREV_TRACK,
        "next"@ => VK_MEDIA_NEXT_TRACK
    ]
}

/// Every key name the parser knows, with its virtual-key code. Where two
/// groups name the same key, the later group wins.
pub open spec fn key_table() -> Map<Seq<char>, i32> {
    modifier_keys()
        .union_prefer_right(letter_keys())
        .union_prefer_right(digit_keys())
        .union_prefer_right(function_keys())
        .union_prefer_right(numpad_keys())
        .union_prefer_right(numpad_special_keys())
        .union_prefer_right(special_keys())
        .union_prefer_right(navigation_keys())
        .union_prefer_right(system_keys())
        .union_prefer_right(media_keys())
}

proof fn lemma_union_insert(a: Map<Seq<char>, i32>, b: Map<Seq<char>, i32>, k: Seq<char>, v: i32)
    ensures
        a.union_prefer_right(b.insert(k, v)) == a.union_prefer_right(b).insert(k, v),
{
    assert(a.union_prefer_right(b.insert(k, v)) =~= a.union_prefer_right(b).insert(k, v));
}

// ---------------------------------------------------------------------------
// Building strings
// ---------------------------------------------------------------------------

/// Calls `char::to_string`, which yields the one-character string of `c`.
#[verifier::external_body]
fn char_to_string(c: char) -> (s: String)
    ensures
        s@ == seq![c],
{
    c.to_string()
}

/// The decimal notation of `n` as a string.
fn decimal_string(n: u32) -> (s: String)
    ensures
        s@ == decimal(n as nat),
    decreases n,
{
    if n < 10 {
        let c = ((48 + n) as u8) as char;
        char_to_string(c)
    } else {
        let mut s = decimal_string(n / 10);
        let c = ((48 + n % 10) as u8) as char;
        let t = char_to_string(c);
        s.append(t.as_str());
        s
    }
}


// ---------------------------------------------------------------------------
// Splitting a chord into key names
// ---------------------------------------------------------------------------

/// The characters with the Unicode property `White_Space`.
pub open spec fn is_white_space(c: char) -> bool {
    let u = c as u32;
    ||| 0x09 <= u <= 0x0D
    ||| u == 0x20
    ||| u == 0x85
    ||| u == 0xA0
    ||| u == 0x1680
    ||| 0x2000 <= u <= 0x200A
    ||| u == 0x2028
    ||| u == 0x2029
    ||| u == 0x202F
    ||| u == 0x205F
    ||| u == 0x3000
}

/// `t` without its leading white space.
pub open spec fn trim_start(t: Seq<char>) -> Seq<char>
    decreases t.len(),
{
    if t.len() > 0 && is_white_space(t[0]) {
        trim_start(t.drop_first())
    } else {
        t
    }
}

/// `t` without its trailing white space.
pub open spec fn trim_end(t: Seq<char>) -> Seq<char>
    decreases t.len(),
{
    if t.len() > 0 && is_white_space(t.last()) {
        trim_end(t.drop_last())
    } else {
        t
    }
}

/// `t` without leading and trailing white space.
pub open spec fn trim(t: Seq<char>) -> Seq<char> {
    trim_end(trim_start(t))
}

/// The pieces of `s` between the `'+'` characters, in order: `n` separators
/// make `n + 1` pieces, and the empty string is one empty piece.
pub open spec fn split_plus(s: Seq<char>) -> Seq<Seq<char>>
    decreases s.len(),
{
    if s.len() == 0 {
        seq![Seq::<char>::empty()]
    } else {
        let pieces = split_plus(s.drop_last());
        if s.last() == '+' {
            pieces.push(Seq::<char>::empty())
        } else {
            pieces.update(pieces.len() - 1, pieces.last().push(s.last()))
        }
    }
}

/// The key names that a chord lists: its pieces between `'+'`, trimmed.
pub open spec fn chord_names(s: Seq<char>) -> Seq<Seq<char>> {
    split_plus(s).map_values(|p: Seq<char>| trim(p))
}

proof fn lemma_split_plus_nonempty(s: Seq<char>)
    ensures
        split_plus(s).len() >= 1,
    decreases s.len(),
{
    if s.len() > 0 {
        lemma_split_plus_nonempty(s.drop_last());
    }
}

/// Whether `c` has the Unicode property `White_Space`, as `char::is_whitespace` decides.
pub fn is_whitespace(c: char) -> (r: bool)
    ensures
        r == is_white_space(c),
{
    let u = c as u32;
    (0x09 <= u && u <= 0x0D) || u == 0x20 || u == 0x85 || u == 0xA0 || u == 0x1680
        || (0x2000 <= u && u <= 0x200A) || u == 0x2028 || u == 0x2029 || u == 0x202F
        || u == 0x205F || u == 0x3000
}

/// The bounds, within `lo .. hi`, of `chars[lo .. hi]` without leading and
/// trailing white space.
fn trimmed_bounds(chars: &Vec<char>, lo: usize, hi: usize) -> (r: (usize, usize))
    requires
        lo <= hi <= chars@.len(),
    ensures
        lo <= r.0 <= r.1 <= hi,
        chars@.subrange(r.0 as int, r.1 as int) == trim(chars@.subrange(lo as int, hi as int)),
{
    let mut a = lo;
    while a < hi && is_whitespace(chars[a])
        invariant
            lo <= a <= hi <= chars@.len(),
            trim_start(chars@.subrange(lo as int, hi as int)) == trim_start(chars@.subrange(a as int, hi as int)),
        decreases hi - a,
    {
        assert(chars@.subrange(a as int, hi as int).drop_first() =~= chars@.subrange(a + 1, hi as int));
        a = a + 1;
    }
    let mut b = hi;
    while b > a && is_whitespace(chars[b - 1])
        invariant
            lo <= a <= b <= hi <= chars@.len(),
            trim_end(chars@.subrange(a as int, hi as int)) == trim_end(chars@.subrange(a as int, b as int)),
        decreases b - a,
    {
        assert(chars@.subrange(a as int, b as int).drop_last() =~= chars@.subrange(a as int, b - 1));
        b = b - 1;
    }
    (a, b)
}

/// The key names of `key_chord`, as slices of it: the pieces between `'+'`
/// characters with white space trimmed from both ends.
pub fn chord_tokens<'a>(key_chord: &'a str) -> (r: Vec<&'a str>)
    ensures
        r@.len() == chord_names(key_chord@).len(),
        forall|j: int| 0 <= j < r@.len() ==> r@[j]@ == #[trigger] chord_names(key_chord@)[j],
{
    let mut chars: Vec<char> = Vec::new();
    for c in it: key_chord.chars()
        invariant
            chars@ == it.seq().take(it.index()),
    {
        chars.push(c);
    }
    proof {
        assert(chars@ =~= key_chord@);
    }
    let n = chars.len();
    let mut tokens: Vec<&'a str> = Vec::new();
    let mut start: usize = 0;
    let mut i: usize = 0;
    let ghost mut pieces: Seq<Seq<char>> = Seq::empty();
    proof {
        assert(chars@.take(0) =~= Seq::<char>::empty());
        assert(chars@.subrange(0, 0) =~= Seq::<char>::empty());
        assert(split_plus(Seq::<char>::empty()) =~= pieces.push(Seq::<char>::empty()));
    }
    while i < n
        invariant
            n == chars@.len(),
            chars@ == key_chord@,
            start <= i <= n,
            split_plus(chars@.take(i as int)) == pieces.push(chars@.subrange(start as int, i as int)),
            tokens@.len() == pieces.len(),
            forall|j: int| 0 <= j < tokens@.len() ==> tokens@[j]@ == trim(#[trigger] pieces[j]),
        decreases n - i,
    {
        let ghost prefix = chars@.take(i + 1);
        proof {
            assert(prefix.drop_last() =~= chars@.take(i as int));
            assert(prefix.last() == chars@[i as int]);
        }
        if chars[i] == '+' {
            let (a, b) = trimmed_bounds(&chars, start, i);
            let token = key_chord.substring_char(a, b);
            let ghost old_tokens = tokens@;
            proof {
                assert(chars@.subrange((i + 1) as int, (i + 1) as int) =~= Seq::<char>::empty());
                assert(token@ == trim(chars@.subrange(start as int, i as int)));
                pieces = pieces.push(chars@.subrange(start as int, i as int));
            }
            tokens.push(token);
            proof {
                assert(tokens@ == old_tokens.push(token));
            }
            start = i + 1;
        } else {
            proof {
                assert(chars@.subrange(start as int, i as int).push(chars@[i as int])
                    =~= chars@.subrange(start as int, (i + 1) as int));
            }
        }
        i = i + 1;
    }
    let (a, b) = trimmed_bounds(&chars, start, n);
    let token = key_chord.substring_char(a, b);
    let ghost old_tokens = tokens@;
    proof {
        assert(token@ == trim(chars@.subrange(start as int, n as int)));
    }
    tokens.push(token);
    proof {
        assert(tokens@ == old_tokens.push(token));
        assert(chars@.take(n as int) =~= chars@);
        let all = pieces.push(chars@.subrange(start as int, n as int));
        assert(split_plus(key_chord@) == all);
        assert forall|j: int| 0 <= j < tokens@.len() implies tokens@[j]@ == #[trigger] chord_names(key_chord@)[j] by {
            assert(tokens@[j]@ == trim(all[j]));
        }
    }
    tokens
}

// ---------------------------------------------------------------------------
// Case folding and lookup
// ---------------------------------------------------------------------------

/// What `str::to_lowercase` returns for a string with the characters `s`
/// (the Unicode lowercase mapping).
pub uninterp spec fn unicode_lowercase(s: Seq<char>) -> Seq<char>;

/// Whether `c` is an ASCII character.
pub open spec fn is_ascii_char(c: char) -> bool {
    (c as u32) < 128
}

/// Whether every character of `s` is ASCII.
pub open spec fn is_ascii_seq(s: Seq<char>) -> bool {
    forall|i: int| 0 <= i < s.len() ==> is_ascii_char(#[trigger] s[i])
}

/// `c` with `'A'..='Z'` mapped to `'a'..='z'`.
pub open spec fn ascii_lower_char(c: char) -> char {
    if 65 <= (c as u32) <= 90 {
        ((c as u32) + 32) as char
    } else {
        c
    }
}

/// `c` with `'a'..='z'` mapped to `'A'..='Z'`.
pub open spec fn ascii_upper_char(c: char) -> char {
    if 97 <= (c as u32) <= 122 {
        ((c as u32) - 32) as char
    } else {
        c
    }
}

/// `s` with its ASCII letters in lower case.
pub open spec fn ascii_lowercase(s: Seq<char>) -> Seq<char> {
    s.map_values(|c: char| ascii_lower_char(c))
}

/// `s` with its ASCII letters in upper case.
pub open spec fn ascii_uppercase(s: Seq<char>) -> Seq<char> {
    s.map_values(|c: char| ascii_upper_char(c))
}

/// Calls `str::to_lowercase`. The result is a function of the characters of
/// `s` alone and is named. Of an ASCII string it is the ASCII lower case, as
/// the documentation of `to_ascii_lowercase` says (`to_lowercase` lower-cases
/// ASCII characters in addition to non-ASCII ones); of other strings the
/// contract says nothing more than the name.
#[verifier::external_body]
fn to_lowercase(s: &str) -> (r: String)
    ensures
        r@ == unicode_lowercase(s@),
        is_ascii_seq(s@) ==> r@ == ascii_lowercase(s@),
{
    s.to_lowercase()
}

/// A key name in lower case, as `str::to_lowercase` gives it.
pub open spec fn lower_name(n: Seq<char>) -> Seq<char> {
    if is_ascii_seq(n) {
        ascii_lowercase(n)
    } else {
        unicode_lowercase(n)
    }
}

/// Each name of `names` in lower case.
pub open spec fn lowercased(names: Seq<Seq<char>>) -> Seq<Seq<char>> {
    names.map_values(|n: Seq<char>| lower_name(n))
}

/// The characters of each string of `v`.
pub open spec fn string_views(v: Seq<String>) -> Seq<Seq<char>> {
    v.map_values(|k: String| k@)
}

/// The codes of those of `names` that `table` knows, in the order of `names`;
/// unknown names are skipped.
pub open spec fn known_codes(table: Map<Seq<char>, i32>, names: Seq<Seq<char>>) -> Seq<i32>
    decreases names.len(),
{
    if names.len() == 0 {
        Seq::empty()
    } else {
        let rest = known_codes(table, names.drop_last());
        if table.contains_key(names.last()) {
            rest.push(table[names.last()])
        } else {
            rest
        }
    }
}

/// The codes of `names` that `table` knows, or `None` when it knows none of them.
pub open spec fn chord_codes(table: Map<Seq<char>, i32>, names: Seq<Seq<char>>) -> Option<Seq<i32>> {
    let codes = known_codes(table, names);
    if codes.len() == 0 {
        None
    } else {
        Some(codes)
    }
}

/// What parsing the chord `s` with the key table `table` gives.
pub open spec fn parse_chord(table: Map<Seq<char>, i32>, s: Seq<char>) -> Option<Seq<i32>> {
    chord_codes(table, lowercased(chord_names(s)))
}

/// The sequence view of an optional vector of codes.
pub open spec fn codes_view(r: Option<Vec<i32>>) -> Option<Seq<i32>> {
    match r {
        Some(v) => Some(v@),
        None => None,
    }
}

// ---------------------------------------------------------------------------
// The parser
// ---------------------------------------------------------------------------

/// Maps key names (lower case) to Windows virtual-key codes.
pub struct KeyChordParser {
    key_map: StringHashMap<i32>,
}

impl View for KeyChordParser {
    type V = Map<Seq<char>, i32>;

    closed spec fn view(&self) -> Map<Seq<char>, i32> {
        self.key_map@
    }
}

impl KeyChordParser {
    /// Creates a parser that knows every key of `key_table()`.
    pub fn new() -> (r: Self)
        ensures
            r@ == key_table(),
    {
        let mut key_map: StringHashMap<i32> = StringHashMap::new();

        // Modifier keys
        key_map.insert("ctrl".to_string(), VK_CONTROL);
        key_map.insert("lctrl".to_string(), VK_LCONTROL);
        key_map.insert("rctrl".to_string(), VK_RCONTROL);
        key_map.insert("shift".to_string(), VK_SHIFT);
        key_map.insert("lshift".to_string(), VK_LSHIFT);
        key_map.insert("rshift".to_string(), VK_RSHIFT);
        key_map.insert("alt".to_string(), VK_MENU);
        key_map.insert("lalt".to_string(), VK_LMENU);
        key_map.insert("ralt".to_string(), VK_RMENU);
        assert(key_map@ == modifier_keys());

        // Alphabet keys
        let ghost base = key_map@;
        let mut i: u32 = 0;
        while i < 26
            invariant
                i <= 26,
                key_map@ == base.union_prefer_right(
                    key_family(i as nat, |i: int| seq![(97 + i) as char], |i: int| VK_A + i),
                ),
            decreases 26 - i,
        {
            let c = ((97 + i) as u8) as char;
            proof {
                lemma_union_insert(
                    base,
                    key_family(i as nat, |i: int| seq![(97 + i) as char], |i: int| VK_A + i),
                    seq![c],
                    (VK_A + i) as i32,
                );
            }
            key_map.insert(char_to_string(c), VK_A + i as i32);
            i = i + 1;
        }
        assert(key_map@ == modifier_keys().union_prefer_right(letter_keys()));

        // Number keys
        let ghost base = key_map@;
        let mut i: u32 = 0;
        while i < 10
            invariant
                i <= 10,
                key_map@ == base.union_prefer_right(
                    key_family(i as nat, |i: int| seq![digit_char(i)], |i: int| VK_0 + i),
                ),
            decreases 10 - i,
        {
            let c = ((48 + i) as u8) as char;
            proof {
                lemma_union_insert(
                    base,
                    key_family(i as nat, |i: int| seq![digit_char(i)], |i: int| VK_0 + i),
                    seq![c],
                    (VK_0 + i) as i32,
                );
            }
            key_map.insert(char_to_string(c), VK_0 + i as i32);
            i = i + 1;
        }

        // Function keys
        let ghost base = key_map@;
        let mut i: u32 = 1;
        while i <= 12
            invariant
                1 <= i <= 13,
                key_map@ == base.union_prefer_right(
                    key_family((i - 1) as nat, |i: int| seq!['f'] + decimal((i + 1) as nat), |i: int| VK_F1 + i),
                ),
            decreases 13 - i,
        {
            let mut name = "f".to_string();
            let digits = decimal_string(i);
            name.append(digits.as_str());
            proof {
                reveal_strlit("f");
                assert(name@ =~= seq!['f'] + decimal(i as nat));
                lemma_union_insert(
                    base,
                    key_family((i - 1) as nat, |i: int| seq!['f'] + decimal((i + 1) as nat), |i: int| VK_F1 + i),
                    seq!['f'] + decimal(i as nat),
                    (VK_F1 + i - 1) as i32,
                );
            }
            key_map.insert(name, VK_DIVIDE + i as i32);
            i = i + 1;
        }

        // Numpad keys
        let ghost base = key_map@;
        let mut i: u32 = 0;
        while i <= 9
            invariant
                i <= 10,
                key_map@ == base.union_prefer_right(
                    key_family(i as nat, |i: int| seq!['n', 'u', 'm'] + decimal(i as nat), |i: int| VK_NUMPAD0 + i),
                ),
            decreases 10 - i,
        {
            let mut name = "num".to_string();
            let digits = decimal_string(i);
            name.append(digits.as_str());
            proof {
                reveal_strlit("num");
                assert(name@ =~= seq!['n', 'u', 'm'] + decimal(i as nat));
                lemma_union_insert(
                    base,
                    key_family(i as nat, |i: int| seq!['n', 'u', 'm'] + decimal(i as nat), |i: int| VK_NUMPAD0 + i),
                    seq!['n', 'u', 'm'] + decimal(i as nat),
                    (VK_NUMPAD0 + i) as i32,
                );
            }
            key_map.insert(name, VK_NUMPAD0 + i as i32);
            i = i + 1;
        }
        assert(key_map@ == modifier_keys().union_prefer_right(letter_keys()).union_prefer_right(digit_keys())
            .union_prefer_right(function_keys()).union_prefer_right(numpad_keys()));

        // Numpad special keys
        let ghost base = key_map@;
        key_map.insert("numlock".to_string(), VK_NUMLOCK);
        key_map.insert("numslash".to_string(), VK_DIVIDE);
        key_map.insert("nummultiply".to_string(), VK_MULTIPLY);
        key_map.insert("numminus".to_string(), VK_SUBTRACT);
        key_map.insert("numplus".to_string(), VK_ADD);
        key_map.insert("numenter".to_string(), VK_RETURN);
        key_map.insert("numdecimal".to_string(), VK_DECIMAL);
        assert(key_map@ =~= base.union_prefer_right(numpad_special_keys()));

        // Special keys
        let ghost base = key_map@;
        key_map.insert("back".to_string(), VK_BACK);
        key_map.insert("tab".to_string(), VK_TAB);
        key_map.insert("enter".to_string(), VK_RETURN);
        key_map.insert("space".to_string(), VK_SPACE);
        key_map.insert("capslock".to_string(), VK_CAPITAL);
        key_map.insert("esc".to_string(), VK_ESCAPE);
        assert(key_map@ =~= base.union_prefer_right(special_keys()));

        // Navigation keys
        let ghost base = key_map@;
        key_map.insert("left".to_string(), VK_LEFT);
        key_map.insert("right".to_string(), VK_RIGHT);
        key_map.insert("up".to_string(), VK_UP);
        key_map.insert("down".to_string(), VK_DOWN);
        key_map.insert("home".to_string(), VK_HOME);
        key_map.insert("end".to_string(), VK_END);
        key_map.insert("pageup".to_string(), VK_PRIOR);
        key_map.insert("pagedown".to_string(), VK_NEXT);
        key_map.insert("insert".to_string(), VK_INSERT);
        key_map.insert("delete".to_string(), VK_DELETE);
        assert(key_map@ =~= base.union_prefer_right(navigation_keys()));

        // System keys
        let ghost base = key_map@;
        key_map.insert("printscreen".to_string(), VK_SNAPSHOT);
        key_map.insert("scrolllock".to_string(), VK_SCROLL);
        key_map.insert("pause".to_string(), VK_PAUSE);
        key_map.insert("break".to_string(), VK_CANCEL);
        key_map.insert("menu".to_string(), VK_MENU);
        key_map.insert("lmenu".to_string(), VK_LMENU);
        key_map.insert("rmenu".to_string(), VK_RMENU);
        key_map.insert("lwin".to_string(), VK_LWIN);
        key_map.insert("rwin".to_string(), VK_RWIN);
        key_map.insert("apps".to_string(), VK_APPS);
        key_map.insert("sleep".to_string(), VK_SLEEP);
        key_map.insert("zoom".to_string(), VK_ZOOM);
        assert(key_map@ =~= base.union_prefer_right(system_keys()));

        // Media keys
        let ghost base = key_map@;
        key_map.insert("volumeup".to_string(), VK_VOLUME_UP);
        key_map.insert("volumedown".to_string(), VK_VOLUME_DOWN);
        key_map.insert("volumemute".to_string(), VK_VOLUME_MUTE);
        key_map.insert("stop".to_string(), VK_MEDIA_STOP);
        key_map.insert("playpause".to_string(), VK_MEDIA_PLAY_PAUSE);
        key_map.insert("prev".to_string(), VK_MEDIA_PREV_TRACK);
        key_map.insert("next".to_string(), VK_MEDIA_NEXT_TRACK);
        assert(key_map@ =~= base.union_prefer_right(media_keys()));

        KeyChordParser { key_map }
    }

    /// Looks up each of `names` (already in lower case) and returns the codes
    /// of the known ones in order, or `None` when none is known.
    pub fn parse_names(&self, names: &Vec<String>) -> (r: Option<Vec<i32>>)
        ensures
            codes_view(r) == chord_codes(self@, string_views(names@)),
    {
        let mut codes: Vec<i32> = Vec::new();
        let mut i: usize = 0;
        while i < names.len()
            invariant
                i <= names@.len(),
                codes@ == known_codes(self@, string_views(names@).take(i as int)),
            decreases names@.len() - i,
        {
            proof {
                assert(string_views(names@).take(i + 1).drop_last() =~= string_views(names@).take(i as int));
            }
            match self.key_map.get(names[i].as_str()) {
                Some(code) => codes.push(*code),
                None => {},
            }
            i = i + 1;
        }
        proof {
            assert(string_views(names@).take(names@.len() as int) =~= string_views(names@));
        }
        if codes.len() == 0 {
            None
        } else {
            Some(codes)
        }
    }

    /// Parses a key chord into Windows virtual-key codes. The chord lists key
    /// names separated by `'+'`, as in `"Ctrl + Shift + Z"`; each name is
    /// trimmed and lower-cased, unknown names are skipped, and `None` comes back
    /// when no name is known.
    pub fn parse(&self, key_chord: &str) -> (r: Option<Vec<i32>>)
        ensures
            codes_view(r) == parse_chord(self@, key_chord@),
    {
        let tokens = chord_tokens(key_chord);
        let mut names: Vec<String> = Vec::new();
        let mut i: usize = 0;
        while i < tokens.len()
            invariant
                i <= tokens@.len(),
                tokens@.len() == chord_names(key_chord@).len(),
                forall|j: int| 0 <= j < tokens@.len() ==> tokens@[j]@ == #[trigger] chord_names(key_chord@)[j],
                names@.len() == i,
                forall|j: int| 0 <= j < i ==> (#[trigger] names@[j])@ == lower_name(chord_names(key_chord@)[j]),
            decreases tokens@.len() - i,
        {
            let lower = to_lowercase(tokens[i]);
            names.push(lower);
            i = i + 1;
        }
        proof {
            assert(string_views(names@) =~= lowercased(chord_names(key_chord@)));
        }
        self.parse_names(&names)
    }
}


// ---------------------------------------------------------------------------
// Laws
// ---------------------------------------------------------------------------

/// A parsed chord lists at least one code, and each is the code the table
/// gives some name.
pub proof fn lemma_parse_codes_known(table: Map<Seq<char>, i32>, s: Seq<char>)
    ensures
        parse_chord(table, s) matches Some(codes) ==> codes.len() > 0 && forall|i: int|
            0 <= i < codes.len() ==> table.values().contains(#[trigger] codes[i]),
{
    lemma_known_codes_in_table(table, lowercased(chord_names(s)));
}

proof fn lemma_known_codes_in_table(table: Map<Seq<char>, i32>, names: Seq<Seq<char>>)
    ensures
        forall|i: int| 0 <= i < known_codes(table, names).len() ==> table.values().contains(
            #[trigger] known_codes(table, names)[i],
        ),
    decreases names.len(),
{
    if names.len() > 0 {
        lemma_known_codes_in_table(table, names.drop_last());
        let rest = known_codes(table, names.drop_last());
        if table.contains_key(names.last()) {
            assert(table.values().contains(table[names.last()]));
            assert forall|i: int| 0 <= i < known_codes(table, names).len() implies table.values().contains(
                #[trigger] known_codes(table, names)[i]) by {
                if i < rest.len() {
                    assert(known_codes(table, names)[i] == rest[i]);
                }
            }
        }
    }
}

/// A piece without `'+'` is a single piece.
pub proof fn lemma_split_plus_single(p: Seq<char>)
    requires
        !p.contains('+'),
    ensures
        split_plus(p) == seq![p],
    decreases p.len(),
{
    if p.len() > 0 {
        assert(!p.drop_last().contains('+')) by {
            if p.drop_last().contains('+') {
                let i = choose|i: int| 0 <= i < p.drop_last().len() && p.drop_last()[i] == '+';
                assert(p[i] == '+');
            }
        }
        lemma_split_plus_single(p.drop_last());
        assert(p.drop_last().push(p.last()) =~= p);
        assert(p.last() != '+') by {
            assert(p[p.len() - 1] == p.last());
        }
    } else {
        assert(p =~= Seq::<char>::empty());
    }
}

/// Joining two chords with `'+'` joins their pieces.
pub proof fn lemma_split_plus_concat(a: Seq<char>, b: Seq<char>)
    ensures
        split_plus(a + seq!['+'] + b) == split_plus(a) + split_plus(b),
    decreases b.len(),
{
    let ab = a + seq!['+'] + b;
    if b.len() == 0 {
        assert(ab.drop_last() =~= a);
        assert(split_plus(b) =~= seq![Seq::<char>::empty()]);
        assert(split_plus(ab) =~= split_plus(a) + split_plus(b));
    } else {
        lemma_split_plus_concat(a, b.drop_last());
        assert(ab.drop_last() =~= a + seq!['+'] + b.drop_last());
        lemma_split_plus_nonempty(b.drop_last());
        lemma_split_plus_nonempty(a);
        let x = split_plus(a);
        let y = split_plus(b.drop_last());
        if b.last() == '+' {
            assert(split_plus(ab) =~= x + y.push(Seq::<char>::empty()));
        } else {
            assert((x + y).update((x + y).len() - 1, (x + y).last().push(b.last()))
                =~= x + y.update(y.len() - 1, y.last().push(b.last())));
        }
    }
}

proof fn lemma_known_codes_concat(table: Map<Seq<char>, i32>, x: Seq<Seq<char>>, y: Seq<Seq<char>>)
    ensures
        known_codes(table, x + y) == known_codes(table, x) + known_codes(table, y),
    decreases y.len(),
{
    if y.len() == 0 {
        assert(x + y =~= x);
        assert(known_codes(table, x) + known_codes(table, y) =~= known_codes(table, x));
    } else {
        lemma_known_codes_concat(table, x, y.drop_last());
        assert((x + y).drop_last() =~= x + y.drop_last());
        assert((x + y).last() == y.last());
        if table.contains_key(y.last()) {
            assert(known_codes(table, x + y) =~= known_codes(table, x) + known_codes(table, y));
        } else {
            assert(known_codes(table, x + y) =~= known_codes(table, x) + known_codes(table, y));
        }
    }
}

/// The codes of two chords joined with `'+'` are the codes of the first
/// followed by the codes of the second.
pub proof fn lemma_parse_concat(table: Map<Seq<char>, i32>, a: Seq<char>, b: Seq<char>)
    ensures
        known_codes(table, lowercased(chord_names(a + seq!['+'] + b)))
            == known_codes(table, lowercased(chord_names(a))) + known_codes(table, lowercased(chord_names(b))),
{
    lemma_split_plus_concat(a, b);
    let pa = split_plus(a);
    let pb = split_plus(b);
    assert(lowercased(chord_names(a + seq!['+'] + b)) =~= lowercased(chord_names(a)) + lowercased(chord_names(b)));
    lemma_known_codes_concat(table, lowercased(chord_names(a)), lowercased(chord_names(b)));
}

proof fn lemma_trim_start_space(w: Seq<char>, p: Seq<char>)
    requires
        forall|i: int| 0 <= i < w.len() ==> is_white_space(#[trigger] w[i]),
    ensures
        trim_start(w + p) == trim_start(p),
    decreases w.len(),
{
    if w.len() > 0 {
        assert((w + p)[0] == w[0]);
        assert((w + p).drop_first() =~= w.drop_first() + p);
        lemma_trim_start_space(w.drop_first(), p);
    } else {
        assert(w + p =~= p);
    }
}

proof fn lemma_trim_end_space(p: Seq<char>, w: Seq<char>)
    requires
        forall|i: int| 0 <= i < w.len() ==> is_white_space(#[trigger] w[i]),
    ensures
        trim_end(p + w) == trim_end(p),
    decreases w.len(),
{
    if w.len() > 0 {
        assert((p + w).last() == w.last());
        assert((p + w).drop_last() =~= p + w.drop_last());
        lemma_trim_end_space(p, w.drop_last());
    } else {
        assert(p + w =~= p);
    }
}

proof fn lemma_trim_start_suffix(p: Seq<char>, w: Seq<char>)
    requires
        forall|i: int| 0 <= i < w.len() ==> is_white_space(#[trigger] w[i]),
    ensures
        exists|k: nat| trim_start(p + w) == trim_start(p) + w.skip(k as int) && k <= w.len(),
    decreases p.len(),
{
    if p.len() > 0 {
        assert((p + w)[0] == p[0]);
        if is_white_space(p[0]) {
            assert((p + w).drop_first() =~= p.drop_first() + w);
            lemma_trim_start_suffix(p.drop_first(), w);
        } else {
            assert(trim_start(p + w) == trim_start(p) + w.skip(0));
        }
    } else {
        assert(p + w =~= w);
        lemma_trim_start_all_space(w);
        assert(trim_start(p) + w.skip(w.len() as int) =~= Seq::<char>::empty());
        assert(trim_start(p + w) == trim_start(p) + w.skip(w.len() as int));
    }
}

proof fn lemma_trim_start_all_space(w: Seq<char>)
    requires
        forall|i: int| 0 <= i < w.len() ==> is_white_space(#[trigger] w[i]),
    ensures
        trim_start(w) == Seq::<char>::empty(),
    decreases w.len(),
{
    if w.len() > 0 {
        assert forall|i: int| 0 <= i < w.drop_first().len() implies is_white_space(#[trigger] w.drop_first()[i]) by {
            assert(w.drop_first()[i] == w[i + 1]);
        }
        lemma_trim_start_all_space(w.drop_first());
    } else {
        assert(w =~= Seq::<char>::empty());
    }
}

/// White space around a key name does not change the name.
pub proof fn lemma_trim_surrounding_space(w1: Seq<char>, p: Seq<char>, w2: Seq<char>)
    requires
        forall|i: int| 0 <= i < w1.len() ==> is_white_space(#[trigger] w1[i]),
        forall|i: int| 0 <= i < w2.len() ==> is_white_space(#[trigger] w2[i]),
    ensures
        trim(w1 + p + w2) == trim(p),
{
    assert(w1 + p + w2 =~= w1 + (p + w2));
    lemma_trim_start_space(w1, p + w2);
    lemma_trim_start_suffix(p, w2);
    let k = choose|k: nat| trim_start(p + w2) == trim_start(p) + w2.skip(k as int) && k <= w2.len();
    assert forall|i: int| 0 <= i < w2.skip(k as int).len() implies is_white_space(#[trigger] w2.skip(k as int)[i]) by {
        assert(w2.skip(k as int)[i] == w2[i + k]);
    }
    lemma_trim_end_space(trim_start(p), w2.skip(k as int));
}


proof fn lemma_split_plus_append(s: Seq<char>, w: Seq<char>)
    requires
        !w.contains('+'),
    ensures
        split_plus(s + w).len() == split_plus(s).len(),
        split_plus(s + w) == split_plus(s).update(split_plus(s).len() - 1, split_plus(s).last() + w),
    decreases w.len(),
{
    lemma_split_plus_nonempty(s);
    let p = split_plus(s);
    if w.len() == 0 {
        assert(s + w =~= s);
        assert(p.update(p.len() - 1, p.last() + w) =~= p);
    } else {
        let w0 = w.drop_last();
        assert(!w0.contains('+')) by {
            if w0.contains('+') {
                let i = choose|i: int| 0 <= i < w0.len() && w0[i] == '+';
                assert(w[i] == '+');
            }
        }
        assert(w.last() != '+') by {
            assert(w[w.len() - 1] == w.last());
        }
        lemma_split_plus_append(s, w0);
        assert((s + w).drop_last() =~= s + w0);
        assert((s + w).last() == w.last());
        let q = split_plus(s + w0);
        assert(q.last() == p.last() + w0);
        assert(q.last().push(w.last()) =~= p.last() + w);
        assert(split_plus(s + w) == q.update(q.len() - 1, q.last().push(w.last())));
        assert(split_plus(s + w) =~= p.update(p.len() - 1, p.last() + w));
    }
}

proof fn lemma_split_plus_prepend(w: Seq<char>, s: Seq<char>)
    requires
        !w.contains('+'),
    ensures
        split_plus(w + s).len() == split_plus(s).len(),
        split_plus(w + s) == split_plus(s).update(0, w + split_plus(s)[0]),
    decreases s.len(),
{
    lemma_split_plus_nonempty(s);
    if s.len() == 0 {
        assert(w + s =~= w);
        lemma_split_plus_single(w);
        assert(split_plus(s) =~= seq![Seq::<char>::empty()]);
        assert(w + Seq::<char>::empty() =~= w);
        assert(split_plus(s).update(0, w + split_plus(s)[0]) =~= seq![w]);
    } else {
        let s0 = s.drop_last();
        lemma_split_plus_prepend(w, s0);
        lemma_split_plus_nonempty(s0);
        assert((w + s).drop_last() =~= w + s0);
        assert((w + s).last() == s.last());
        let p = split_plus(s0);
        if s.last() == '+' {
            assert(split_plus(w + s) =~= split_plus(s).update(0, w + split_plus(s)[0]));
        } else {
            if p.len() == 1 {
                assert((w + p[0]).push(s.last()) =~= w + p[0].push(s.last()));
            }
            assert(split_plus(w + s) =~= split_plus(s).update(0, w + split_plus(s)[0]));
        }
    }
}

proof fn lemma_space_has_no_plus(w: Seq<char>)
    requires
        forall|i: int| 0 <= i < w.len() ==> is_white_space(#[trigger] w[i]),
    ensures
        !w.contains('+'),
{
    if w.contains('+') {
        let i = choose|i: int| 0 <= i < w.len() && w[i] == '+';
        assert(is_white_space(w[i]));
    }
}

/// White space before and after a chord does not change its key names.
pub proof fn lemma_chord_names_padding(w1: Seq<char>, s: Seq<char>, w2: Seq<char>)
    requires
        forall|i: int| 0 <= i < w1.len() ==> is_white_space(#[trigger] w1[i]),
        forall|i: int| 0 <= i < w2.len() ==> is_white_space(#[trigger] w2[i]),
    ensures
        chord_names(w1 + s + w2) == chord_names(s),
{
    lemma_space_has_no_plus(w1);
    lemma_space_has_no_plus(w2);
    lemma_split_plus_prepend(w1, s);
    lemma_split_plus_append(w1 + s, w2);
    let p = split_plus(s);
    let q = split_plus(w1 + s + w2);
    let e = Seq::<char>::empty();
    assert forall|i: int| 0 <= i < p.len() implies trim(#[trigger] q[i]) == trim(p[i]) by {
        if i == 0 && p.len() == 1 {
            assert(q[i] == w1 + p[0] + w2);
            lemma_trim_surrounding_space(w1, p[0], w2);
        } else if i == 0 {
            assert(q[i] =~= w1 + p[0] + e);
            lemma_trim_surrounding_space(w1, p[0], e);
        } else if i == p.len() - 1 {
            assert(q[i] =~= e + p[i] + w2);
            lemma_trim_surrounding_space(e, p[i], w2);
        }
    }
    assert(chord_names(w1 + s + w2) =~= chord_names(s));
}

/// White space before and after a chord does not change what it parses to.
pub proof fn lemma_parse_padding(table: Map<Seq<char>, i32>, w1: Seq<char>, s: Seq<char>, w2: Seq<char>)
    requires
        forall|i: int| 0 <= i < w1.len() ==> is_white_space(#[trigger] w1[i]),
        forall|i: int| 0 <= i < w2.len() ==> is_white_space(#[trigger] w2[i]),
    ensures
        parse_chord(table, w1 + s + w2) == parse_chord(table, s),
{
    lemma_chord_names_padding(w1, s, w2);
}

/// White space around a `'+'` between two chords does not change what the
/// joined chord parses to (so `"Ctrl + Z"` parses as `"Ctrl+Z"`).
pub proof fn lemma_parse_spaced_separator(
    table: Map<Seq<char>, i32>,
    a: Seq<char>,
    w1: Seq<char>,
    w2: Seq<char>,
    b: Seq<char>,
)
    requires
        forall|i: int| 0 <= i < w1.len() ==> is_white_space(#[trigger] w1[i]),
        forall|i: int| 0 <= i < w2.len() ==> is_white_space(#[trigger] w2[i]),
    ensures
        parse_chord(table, a + w1 + seq!['+'] + w2 + b) == parse_chord(table, a + seq!['+'] + b),
{
    let e = Seq::<char>::empty();
    assert(a + w1 + seq!['+'] + w2 + b =~= (a + w1) + seq!['+'] + (w2 + b));
    lemma_parse_concat(table, a + w1, w2 + b);
    lemma_parse_concat(table, a, b);
    assert(e + a + w1 =~= a + w1);
    lemma_chord_names_padding(e, a, w1);
    assert(w2 + b + e =~= w2 + b);
    lemma_chord_names_padding(w2, b, e);
}

proof fn lemma_upper_preserves_space(c: char)
    ensures
        is_white_space(ascii_upper_char(c)) == is_white_space(c),
        (ascii_upper_char(c) == '+') == (c == '+'),
        is_ascii_char(ascii_upper_char(c)) == is_ascii_char(c),
{
}

proof fn lemma_split_plus_upper(s: Seq<char>)
    ensures
        split_plus(ascii_uppercase(s)) == split_plus(s).map_values(|p: Seq<char>| ascii_uppercase(p)),
    decreases s.len(),
{
    lemma_split_plus_nonempty(s);
    if s.len() == 0 {
        assert(ascii_uppercase(s) =~= s);
        assert(ascii_uppercase(Seq::<char>::empty()) =~= Seq::<char>::empty());
        assert(split_plus(s).map_values(|p: Seq<char>| ascii_uppercase(p)) =~= split_plus(s));
    } else {
        let s0 = s.drop_last();
        lemma_split_plus_upper(s0);
        lemma_split_plus_nonempty(s0);
        assert(ascii_uppercase(s).drop_last() =~= ascii_uppercase(s0));
        assert(ascii_uppercase(s).last() == ascii_upper_char(s.last()));
        lemma_upper_preserves_space(s.last());
        let p = split_plus(s0);
        if s.last() == '+' {
            assert(ascii_uppercase(Seq::<char>::empty()) =~= Seq::<char>::empty());
            assert(split_plus(ascii_uppercase(s)) =~= split_plus(s).map_values(|p: Seq<char>| ascii_uppercase(p)));
        } else {
            assert(ascii_uppercase(p.last().push(s.last())) =~= ascii_uppercase(p.last()).push(ascii_upper_char(s.last())));
            assert(split_plus(ascii_uppercase(s)) =~= split_plus(s).map_values(|p: Seq<char>| ascii_uppercase(p)));
        }
    }
}

proof fn lemma_trim_start_upper(p: Seq<char>)
    ensures
        trim_start(ascii_uppercase(p)) == ascii_uppercase(trim_start(p)),
    decreases p.len(),
{
    if p.len() > 0 {
        lemma_upper_preserves_space(p[0]);
        assert(ascii_uppercase(p)[0] == ascii_upper_char(p[0]));
        assert(ascii_uppercase(p).drop_first() =~= ascii_uppercase(p.drop_first()));
        lemma_trim_start_upper(p.drop_first());
    } else {
        assert(ascii_uppercase(p) =~= p);
    }
}

proof fn lemma_trim_end_upper(p: Seq<char>)
    ensures
        trim_end(ascii_uppercase(p)) == ascii_uppercase(trim_end(p)),
    decreases p.len(),
{
    if p.len() > 0 {
        lemma_upper_preserves_space(p.last());
        assert(ascii_uppercase(p).last() == ascii_upper_char(p.last()));
        assert(ascii_uppercase(p).drop_last() =~= ascii_uppercase(p.drop_last()));
        lemma_trim_end_upper(p.drop_last());
    } else {
        assert(ascii_uppercase(p) =~= p);
    }
}

proof fn lemma_split_plus_ascii(s: Seq<char>)
    requires
        is_ascii_seq(s),
    ensures
        forall|i: int| 0 <= i < split_plus(s).len() ==> is_ascii_seq(#[trigger] split_plus(s)[i]),
    decreases s.len(),
{
    if s.len() > 0 {
        let s0 = s.drop_last();
        assert(is_ascii_seq(s0)) by {
            assert forall|i: int| 0 <= i < s0.len() implies is_ascii_char(#[trigger] s0[i]) by {
                assert(s0[i] == s[i]);
            }
        }
        lemma_split_plus_ascii(s0);
        lemma_split_plus_nonempty(s0);
        let p = split_plus(s0);
        assert(is_ascii_char(s[s.len() - 1]));
        if s.last() != '+' {
            assert(is_ascii_seq(p.last().push(s.last()))) by {
                assert(is_ascii_seq(p[p.len() - 1]));
                assert forall|i: int| 0 <= i < p.last().push(s.last()).len() implies
                    is_ascii_char(#[trigger] p.last().push(s.last())[i]) by {
                    if i < p.last().len() {
                        assert(p.last().push(s.last())[i] == p.last()[i]);
                    }
                }
            }
        }
    }
}

proof fn lemma_trim_ascii(p: Seq<char>)
    requires
        is_ascii_seq(p),
    ensures
        is_ascii_seq(trim(p)),
{
    lemma_trim_start_subrange(p);
    let k = choose|k: int| 0 <= k <= p.len() && trim_start(p) == p.subrange(k, p.len() as int);
    let q = trim_start(p);
    assert(is_ascii_seq(q)) by {
        assert forall|i: int| 0 <= i < q.len() implies is_ascii_char(#[trigger] q[i]) by {
            assert(q[i] == p[i + k]);
        }
    }
    lemma_trim_end_subrange(q);
    let m = choose|m: int| 0 <= m <= q.len() && trim_end(q) == q.subrange(0, m);
    let r = trim_end(q);
    assert forall|i: int| 0 <= i < r.len() implies is_ascii_char(#[trigger] r[i]) by {
        assert(r[i] == q[i]);
    }
}

proof fn lemma_trim_start_subrange(p: Seq<char>)
    ensures
        exists|k: int| 0 <= k <= p.len() && trim_start(p) == p.subrange(k, p.len() as int),
    decreases p.len(),
{
    if p.len() > 0 && is_white_space(p[0]) {
        lemma_trim_start_subrange(p.drop_first());
        let k = choose|k: int| 0 <= k <= p.drop_first().len() && trim_start(p.drop_first())
            == p.drop_first().subrange(k, p.drop_first().len() as int);
        assert(p.drop_first().subrange(k, p.drop_first().len() as int) =~= p.subrange(k + 1, p.len() as int));
    } else {
        assert(p.subrange(0, p.len() as int) =~= p);
    }
}

proof fn lemma_trim_end_subrange(p: Seq<char>)
    ensures
        exists|m: int| 0 <= m <= p.len() && trim_end(p) == p.subrange(0, m),
    decreases p.len(),
{
    if p.len() > 0 && is_white_space(p.last()) {
        lemma_trim_end_subrange(p.drop_last());
        let m = choose|m: int| 0 <= m <= p.drop_last().len() && trim_end(p.drop_last()) == p.drop_last().subrange(0, m);
        assert(p.drop_last().subrange(0, m) =~= p.subrange(0, m));
    } else {
        assert(p.subrange(0, p.len() as int) =~= p);
    }
}

proof fn lemma_lower_name_upper(n: Seq<char>)
    requires
        is_ascii_seq(n),
    ensures
        lower_name(ascii_uppercase(n)) == lower_name(n),
{
    let u = ascii_uppercase(n);
    assert forall|i: int| 0 <= i < u.len() implies is_ascii_char(#[trigger] u[i]) by {
        lemma_upper_preserves_space(n[i]);
    }
    assert(ascii_lowercase(u) =~= ascii_lowercase(n));
}

/// For an ASCII chord, the case of its letters does not change what it
/// parses to (so `"CTRL + Z"` parses as `"ctrl + z"`).
pub proof fn lemma_parse_ascii_case(table: Map<Seq<char>, i32>, s: Seq<char>)
    requires
        is_ascii_seq(s),
    ensures
        parse_chord(table, ascii_uppercase(s)) == parse_chord(table, s),
{
    lemma_split_plus_upper(s);
    lemma_split_plus_ascii(s);
    let p = split_plus(s);
    let up = split_plus(ascii_uppercase(s));
    assert forall|i: int| 0 <= i < p.len() implies lower_name(trim(#[trigger] up[i])) == lower_name(trim(p[i])) by {
        assert(up[i] == ascii_uppercase(p[i]));
        lemma_trim_start_upper(p[i]);
        lemma_trim_end_upper(trim_start(p[i]));
        lemma_trim_ascii(p[i]);
        lemma_lower_name_upper(trim(p[i]));
    }
    assert(lowercased(chord_names(ascii_uppercase(s))) =~= lowercased(chord_names(s)));
}


/// The result of parsing two chords joined with `'+'`, from the results of
/// parsing each: the codes of the first followed by those of the second, or
/// `None` when neither has any.
pub open spec fn join_parsed(x: Option<Seq<i32>>, y: Option<Seq<i32>>) -> Option<Seq<i32>> {
    match (x, y) {
        (Some(a), Some(b)) => Some(a + b),
        (Some(a), None) => Some(a),
        (None, Some(b)) => Some(b),
        (None, None) => None,
    }
}

/// Parsing two chords joined with `'+'` gives the codes of the first chord
/// followed by those of the second; no code is dropped, added or reordered.
pub proof fn lemma_parse_join(table: Map<Seq<char>, i32>, a: Seq<char>, b: Seq<char>)
    ensures
        parse_chord(table, a + seq!['+'] + b) == join_parsed(parse_chord(table, a), parse_chord(table, b)),
{
    lemma_parse_concat(table, a, b);
    let ca = known_codes(table, lowercased(chord_names(a)));
    let cb = known_codes(table, lowercased(chord_names(b)));
    if ca.len() == 0 {
        assert(ca + cb =~= cb);
    }
    if cb.len() == 0 {
        assert(ca + cb =~= ca);
    }
}

/// A chord of one name (no `'+'`) parses to the single code of that name,
/// trimmed and lower-cased, when the table knows it, and to `None` otherwise.
pub proof fn lemma_parse_single_name(table: Map<Seq<char>, i32>, n: Seq<char>)
    requires
        !n.contains('+'),
    ensures
        parse_chord(table, n) == (if table.contains_key(lower_name(trim(n))) {
            Some(seq![table[lower_name(trim(n))]])
        } else {
            None::<Seq<i32>>
        }),
{
    lemma_split_plus_single(n);
    let names = lowercased(chord_names(n));
    assert(names =~= seq![lower_name(trim(n))]);
    assert(names.drop_last() =~= Seq::<Seq<char>>::empty());
    let k = lower_name(trim(n));
    assert(names.last() == k);
    assert(known_codes(table, Seq::<Seq<char>>::empty()) == Seq::<i32>::empty());
    assert(known_codes(table, names.drop_last()) == Seq::<i32>::empty());
    if table.contains_key(k) {
        assert(known_codes(table, names) =~= seq![table[k]]);
    } else {
        assert(known_codes(table, names) =~= Seq::<i32>::empty());
    }
}

} // verus!
