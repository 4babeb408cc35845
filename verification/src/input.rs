//! Keys, and the keystrokes that name a channel.

use vstd::prelude::*;
use vstd::utf8::is_ascii_chars;

use crate::bands::{catalog, has_frequency, has_longer_name, look_up_typed, named_channel};

verus! {

/// A key of the keyboard, as far as the viewer reads it.
#[derive(Debug, Clone, Copy, PartialEq, Eq, Structural)]
pub enum Key {
    A,
    B,
    C,
    D,
    E,
    F,
    G,
    H,
    I,
    J,
    K,
    L,
    M,
    N,
    O,
    P,
    Q,
    R,
    S,
    T,
    U,
    V,
    W,
    X,
    Y,
    Z,
    Key0,
    Key1,
    Key2,
    Key3,
    Key4,
    Key5,
    Key6,
    Key7,
    Key8,
    Key9,
    NumPad0,
    NumPad1,
    NumPad2,
    NumPad3,
    NumPad4,
    NumPad5,
    NumPad6,
    NumPad7,
    NumPad8,
    NumPad9,
    Escape,
    Backspace,
    Enter,
    /// Any key the viewer does not read.
    Other,
}

/// The letter or digit of a key.
pub open spec fn char_of(k: Key) -> Option<char> {
    match k {
        Key::A => Some('A'),
        Key::B => Some('B'),
        Key::C => Some('C'),
        Key::D => Some('D'),
        Key::E => Some('E'),
        Key::F => Some('F'),
        Key::G => Some('G'),
        Key::H => Some('H'),
        Key::I => Some('I'),
        Key::J => Some('J'),
        Key::K => Some('K'),
        Key::L => Some('L'),
        Key::M => Some('M'),
        Key::N => Some('N'),
        Key::O => Some('O'),
        Key::P => Some('P'),
        Key::Q => Some('Q'),
        Key::R => Some('R'),
        Key::S => Some('S'),
        Key::T => Some('T'),
        Key::U => Some('U'),
        Key::V => Some('V'),
        Key::W => Some('W'),
        Key::X => Some('X'),
        Key::Y => Some('Y'),
        Key::Z => Some('Z'),
        Key::Key0 | Key::NumPad0 => Some('0'),
        Key::Key1 | Key::NumPad1 => Some('1'),
        Key::Key2 | Key::NumPad2 => Some('2'),
        Key::Key3 | Key::NumPad3 => Some('3'),
        Key::Key4 | Key::NumPad4 => Some('4'),
        Key::Key5 | Key::NumPad5 => Some('5'),
        Key::Key6 | Key::NumPad6 => Some('6'),
        Key::Key7 | Key::NumPad7 => Some('7'),
        Key::Key8 | Key::NumPad8 => Some('8'),
        Key::Key9 | Key::NumPad9 => Some('9'),
        Key::Escape | Key::Backspace | Key::Enter | Key::Other => None,
    }
}

/// The letter or digit of a key.
pub fn key_to_char(k: Key) -> (c: Option<char>)
    ensures
        c == char_of(k),
{
    match k {
        Key::A => Some('A'),
        Key::B => Some('B'),
        Key::C => Some('C'),
        Key::D => Some('D'),
        Key::E => Some('E'),
        Key::F => Some('F'),
        Key::G => Some('G'),
        Key::H => Some('H'),
        Key::I => Some('I'),
        Key::J => Some('J'),
        Key::K => Some('K'),
        Key::L => Some('L'),
        Key::M => Some('M'),
        Key::N => Some('N'),
        Key::O => Some('O'),
        Key::P => Some('P'),
        Key::Q => Some('Q'),
        Key::R => Some('R'),
        Key::S => Some('S'),
        Key::T => Some('T'),
        Key::U => Some('U'),
        Key::V => Some('V'),
        Key::W => Some('W'),
        Key::X => Some('X'),
        Key::Y => Some('Y'),
        Key::Z => Some('Z'),
        Key::Key0 | Key::NumPad0 => Some('0'),
        Key::Key1 | Key::NumPad1 => Some('1'),
        Key::Key2 | Key::NumPad2 => Some('2'),
        Key::Key3 | Key::NumPad3 => Some('3'),
        Key::Key4 | Key::NumPad4 => Some('4'),
        Key::Key5 | Key::NumPad5 => Some('5'),
        Key::Key6 | Key::NumPad6 => Some('6'),
        Key::Key7 | Key::NumPad7 => Some('7'),
        Key::Key8 | Key::NumPad8 => Some('8'),
        Key::Key9 | Key::NumPad9 => Some('9'),
        Key::Escape | Key::Backspace | Key::Enter | Key::Other => None,
    }
}

/// Whether a character is one of the letters keys give.
pub open spec fn is_letter(c: char) -> bool {
    'A' <= c <= 'Z'
}

/// Every key that gives a character gives an ASCII letter or digit.
pub proof fn law_keys_give_letters_and_digits(k: Key)
    ensures
        char_of(k) matches Some(c) ==> is_letter(c) || '0' <= c <= '9',
{
}

/// Where the entry of a channel stands.
#[derive(Debug, Clone)]
pub enum ChannelInputState {
    /// Not active.
    Idle,
    /// Waiting for the first character, the band letter.
    WaitingFirst,
    /// Collecting a channel number; Enter accepts an ambiguous prefix such as S6.
    Typing(String),
}

/// Where the entry of a channel stands, as plain values.
pub enum Entry {
    Idle,
    WaitingFirst,
    Typing(Seq<char>),
}

impl View for ChannelInputState {
    type V = Entry;

    open spec fn view(&self) -> Entry {
        match *self {
            ChannelInputState::Idle => Entry::Idle,
            ChannelInputState::WaitingFirst => Entry::WaitingFirst,
            ChannelInputState::Typing(name) => Entry::Typing(name@),
        }
    }
}

/// A text being typed is one or two ASCII characters: a third always decides it.
pub open spec fn entry_wf(e: Entry) -> bool {
    e matches Entry::Typing(name) ==> is_ascii_chars(name) && 1 <= name.len() <= 2
}

/// What a keystroke came to.
#[derive(Debug)]
pub enum Typed {
    /// The entry goes on, or nothing was entered.
    Nothing,
    /// Tune to this frequency in hertz.
    Tune(u64),
    /// No channel goes by this name.
    Unknown(String),
}

/// What a keystroke came to, as plain values.
pub enum Outcome {
    Nothing,
    Tune(u64),
    Unknown(Seq<char>),
}

impl View for Typed {
    type V = Outcome;

    open spec fn view(&self) -> Outcome {
        match *self {
            Typed::Nothing => Outcome::Nothing,
            Typed::Tune(f) => Outcome::Tune(f),
            Typed::Unknown(m) => Outcome::Unknown(m@),
        }
    }
}

/// Whether a key decides anything while the first character is awaited. The C that
/// started the entry does not, nor does a digit.
pub open spec fn opens_entry(k: Key) -> bool {
    k != Key::C && (k == Key::Escape || (char_of(k) matches Some(c) && is_letter(c)))
}

/// Whether a key decides anything while a name is typed.
pub open spec fn moves_entry(k: Key) -> bool {
    k == Key::Escape || k == Key::Backspace || k == Key::Enter || char_of(k) is Some
}

/// Index of the first key from `i` on that opens an entry; the length where none does.
pub open spec fn opening_from(keys: Seq<Key>, i: int) -> int
    decreases keys.len() - i,
{
    if i >= keys.len() {
        keys.len() as int
    } else if opens_entry(keys[i]) {
        i
    } else {
        opening_from(keys, i + 1)
    }
}

/// Index of the first key from `i` on that moves an entry; the length where none does.
pub open spec fn moving_from(keys: Seq<Key>, i: int) -> int
    decreases keys.len() - i,
{
    if i >= keys.len() {
        keys.len() as int
    } else if moves_entry(keys[i]) {
        i
    } else {
        moving_from(keys, i + 1)
    }
}

/// The entry after the keys of one frame while the first character is awaited.
pub open spec fn first_entered(keys: Seq<Key>) -> Entry {
    let i = opening_from(keys, 0);
    if i >= keys.len() {
        Entry::WaitingFirst
    } else if keys[i] == Key::Escape {
        Entry::Idle
    } else {
        Entry::Typing(seq![char_of(keys[i])->0])
    }
}

/// The text a key makes of a typed one.
pub open spec fn typed_with(name: Seq<char>, k: Key) -> Seq<char> {
    match char_of(k) {
        Some(c) => name.push(c),
        None => name,
    }
}

/// What the operator is told of a name no channel goes by.
pub open spec fn unknown_text(name: Seq<char>) -> Seq<char> {
    "Unknown channel: "@ + name
}

/// The entry and outcome after one key while `name` is typed, given what the channel
/// table says of the text with the key: the channel it names, and whether a longer
/// name begins with it.
pub open spec fn key_typed(name: Seq<char>, k: Key, exact: Option<u64>, longer: bool) -> (
    Entry,
    Outcome,
) {
    if k == Key::Escape {
        (Entry::Idle, Outcome::Nothing)
    } else if k == Key::Backspace {
        if name.len() <= 1 {
            (Entry::WaitingFirst, Outcome::Nothing)
        } else {
            (Entry::Typing(name.drop_last()), Outcome::Nothing)
        }
    } else {
        let text = typed_with(name, k);
        if k != Key::Enter && longer {
            (Entry::Typing(text), Outcome::Nothing)
        } else {
            match exact {
                Some(f) => (Entry::Typing(name), Outcome::Tune(f)),
                None => (Entry::Idle, Outcome::Unknown(unknown_text(text))),
            }
        }
    }
}

/// The entry and outcome after the keys of one frame while `name` is typed.
pub open spec fn keys_typed(name: Seq<char>, keys: Seq<Key>) -> (Entry, Outcome) {
    let i = moving_from(keys, 0);
    if i >= keys.len() {
        (Entry::Typing(name), Outcome::Nothing)
    } else {
        let text = typed_with(name, keys[i]);
        key_typed(
            name,
            keys[i],
            named_channel(text),
            has_longer_name(catalog(true), text),
        )
    }
}

/// The entry and outcome after the keys of one frame.
pub open spec fn entry_after(e: Entry, keys: Seq<Key>) -> (Entry, Outcome) {
    match e {
        Entry::Idle => (Entry::Idle, Outcome::Nothing),
        Entry::WaitingFirst => (first_entered(keys), Outcome::Nothing),
        Entry::Typing(name) => keys_typed(name, keys),
    }
}

/// The last character of a text removed.
fn without_last(name: &str) -> (r: String)
    requires
        name@.len() >= 1,
    ensures
        r@ == name@.drop_last(),
{
    let n: usize = name.unicode_len();
    let mut r: String = String::new();
    let mut i: usize = 0;
    while i < n - 1
        invariant
            n == name@.len(),
            i <= n - 1,
            r@ == name@.take(i as int),
        decreases n - 1 - i,
    {
        r.push(name.get_char(i));
        i = i + 1;
        assert(r@ =~= name@.take(i as int));
    }
    assert(r@ =~= name@.drop_last());
    r
}

/// The entry and outcome after one key while a name is typed, given what the channel
/// table says of the text with the key.
pub fn step_typing(name: &str, k: Key, exact: Option<u64>, longer: bool) -> (r: (
    ChannelInputState,
    Typed,
))
    requires
        name@.len() >= 1,
    ensures
        (r.0@, r.1@) == key_typed(name@, k, exact, longer),
{
    match k {
        Key::Escape => {
            return (ChannelInputState::Idle, Typed::Nothing);
        },
        Key::Backspace => {
            let left: String = without_last(name);
            if left.as_str().is_empty() {
                return (ChannelInputState::WaitingFirst, Typed::Nothing);
            }
            return (ChannelInputState::Typing(left), Typed::Nothing);
        },
        _ => {},
    }
    let mut text: String = String::from_str(name);
    if let Some(c) = key_to_char(k) {
        text.push(c);
    }
    let submit: bool = match k {
        Key::Enter => true,
        _ => false,
    };
    if !submit && longer {
        return (ChannelInputState::Typing(text), Typed::Nothing);
    }
    match exact {
        Some(f) => (ChannelInputState::Typing(String::from_str(name)), Typed::Tune(f)),
        None => {
            let mut message: String = String::new();
            message.append("Unknown channel: ");
            message.append(text.as_str());
            assert(message@ =~= unknown_text(text@));
            (ChannelInputState::Idle, Typed::Unknown(message))
        },
    }
}

/// Index of the first key that opens an entry.
fn find_opening(keys: &Vec<Key>) -> (r: usize)
    ensures
        r == opening_from(keys@, 0),
        r <= keys@.len(),
{
    let mut i: usize = 0;
    while i < keys.len()
        invariant
            i <= keys@.len(),
            opening_from(keys@, 0) == opening_from(keys@, i as int),
        decreases keys@.len() - i,
    {
        let k: Key = keys[i];
        let letter: bool = match key_to_char(k) {
            Some(c) => 'A' <= c && c <= 'Z',
            None => false,
        };
        if k != Key::C && (k == Key::Escape || letter) {
            return i;
        }
        i = i + 1;
    }
    i
}

/// Index of the first key that moves an entry.
fn find_moving(keys: &Vec<Key>) -> (r: usize)
    ensures
        r == moving_from(keys@, 0),
        r <= keys@.len(),
{
    let mut i: usize = 0;
    while i < keys.len()
        invariant
            i <= keys@.len(),
            moving_from(keys@, 0) == moving_from(keys@, i as int),
        decreases keys@.len() - i,
    {
        let k: Key = keys[i];
        if k == Key::Escape || k == Key::Backspace || k == Key::Enter || key_to_char(k).is_some() {
            return i;
        }
        i = i + 1;
    }
    i
}

proof fn lemma_found(keys: Seq<Key>, i: int)
    requires
        0 <= i <= keys.len(),
    ensures
        opening_from(keys, i) < keys.len() ==> i <= opening_from(keys, i) && opens_entry(
            keys[opening_from(keys, i)],
        ),
        moving_from(keys, i) < keys.len() ==> i <= moving_from(keys, i) && moves_entry(
            keys[moving_from(keys, i)],
        ),
    decreases keys.len() - i,
{
    if i < keys.len() {
        lemma_found(keys, i + 1);
    }
}

/// Feed the keys of one frame to the entry of a channel. Only channels of the table are
/// tuned to.
pub fn feed_keys(state: ChannelInputState, keys: &Vec<Key>) -> (r: (ChannelInputState, Typed))
    requires
        entry_wf(state@),
    ensures
        (r.0@, r.1@) == entry_after(state@, keys@),
        entry_wf(r.0@),
        r.1@ matches Outcome::Tune(f) ==> 0 < f <= 5_945_000_000 && has_frequency(
            catalog(true),
            f,
        ),
        r.1@ matches Outcome::Unknown(m) ==> is_ascii_chars(m) && m.len() <= 20,
{
    proof {
        lemma_found(keys@, 0);
        reveal_strlit("Unknown channel: ");
    }
    match state {
        ChannelInputState::Idle => (ChannelInputState::Idle, Typed::Nothing),
        ChannelInputState::WaitingFirst => {
            let i: usize = find_opening(keys);
            if i == keys.len() {
                return (ChannelInputState::WaitingFirst, Typed::Nothing);
            }
            match key_to_char(keys[i]) {
                Some(c) => {
                    let mut name: String = String::new();
                    name.push(c);
                    assert(name@ =~= seq![c]);
                    (ChannelInputState::Typing(name), Typed::Nothing)
                },
                None => (ChannelInputState::Idle, Typed::Nothing),
            }
        },
        ChannelInputState::Typing(name) => {
            let i: usize = find_moving(keys);
            if i == keys.len() {
                return (ChannelInputState::Typing(name), Typed::Nothing);
            }
            let k: Key = keys[i];
            let mut text: String = name.clone();
            if let Some(c) = key_to_char(k) {
                text.push(c);
            }
            assert(text@ =~= typed_with(name@, k));
            let (exact, longer) = look_up_typed(text.as_str());
            step_typing(name.as_str(), k, exact, longer)
        },
    }
}

/// Escape always gives up the entry, whatever was typed.
pub proof fn law_escape_cancels(e: Entry, keys: Seq<Key>)
    requires
        keys.len() > 0,
        keys[0] == Key::Escape,
    ensures
        entry_after(e, keys) == (Entry::Idle, Outcome::Nothing),
{
}

/// Backspace takes back the character typed before it.
pub proof fn law_backspace_takes_back(name: Seq<char>, k: Key, exact: Option<u64>)
    requires
        name.len() >= 1,
        char_of(k) is Some,
    ensures
        key_typed(name, k, exact, true).0 == Entry::Typing(typed_with(name, k)),
        key_typed(typed_with(name, k), Key::Backspace, None, false).0 == Entry::Typing(name),
{
    assert(typed_with(name, k).drop_last() =~= name);
}

/// A text that names a channel is tuned to as soon as no longer name begins with it, and
/// on Enter in any case.
pub proof fn law_named_channel_is_tuned(name: Seq<char>, k: Key, f: u64, longer: bool)
    requires
        k == Key::Enter || (char_of(k) is Some && !longer),
    ensures
        key_typed(name, k, Some(f), longer).1 == Outcome::Tune(f),
{
}

} // verus!
