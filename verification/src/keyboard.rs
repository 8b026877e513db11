use vstd::prelude::*;

verus! {

pub const MOD_SHIFT: u8 = 1;
pub const MOD_CTRL: u8 = 2;
pub const MOD_ALT: u8 = 4;

/// Slots of the key queue; one stays free to tell full from empty.
pub const QUEUE_SIZE: usize = 64;

/// A key as the desktop sees it.
#[derive(Debug, Clone, Copy, PartialEq, Eq, Structural)]
pub enum Key {
    Character(char),
    ArrowUp,
    ArrowDown,
    ArrowLeft,
    ArrowRight,
    Home,
    End,
    PageUp,
    PageDown,
    Delete,
    Backspace,
    Enter,
    Escape,
    Tab,
    Space,
    F4,
    F5,
}

/// A key with the modifiers held when it was pressed.
#[derive(Debug, Clone, Copy, PartialEq, Eq, Structural)]
pub struct KeyInput {
    pub key: Key,
    pub modifiers: u8,
}

/// The character older code expects for a key: private-use code points for
/// the navigation keys, control characters for the editing keys, none for
/// the function keys.
pub open spec fn legacy_of(k: Key) -> Option<char> {
    match k {
        Key::Character(c) => Some(c),
        Key::ArrowUp => Some('\u{F700}'),
        Key::ArrowDown => Some('\u{F701}'),
        Key::ArrowLeft => Some('\u{F702}'),
        Key::ArrowRight => Some('\u{F703}'),
        Key::Home => Some('\u{F704}'),
        Key::End => Some('\u{F705}'),
        Key::PageUp => Some('\u{F706}'),
        Key::PageDown => Some('\u{F707}'),
        Key::Delete => Some('\u{007F}'),
        Key::Backspace => Some('\u{0008}'),
        Key::Enter => Some('\n'),
        Key::Escape => Some('\u{001B}'),
        Key::Tab => Some('\t'),
        Key::Space => Some(' '),
        Key::F4 => None,
        Key::F5 => None,
    }
}

impl KeyInput {
    pub fn legacy_char(self) -> (r: Option<char>)
        ensures
            r == legacy_of(self.key),
    {
        match self.key {
            Key::Character(c) => Some(c),
            Key::ArrowUp => Some('\u{F700}'),
            Key::ArrowDown => Some('\u{F701}'),
            Key::ArrowLeft => Some('\u{F702}'),
            Key::ArrowRight => Some('\u{F703}'),
            Key::Home => Some('\u{F704}'),
            Key::End => Some('\u{F705}'),
            Key::PageUp => Some('\u{F706}'),
            Key::PageDown => Some('\u{F707}'),
            Key::Delete => Some('\u{007F}'),
            Key::Backspace => Some('\u{0008}'),
            Key::Enter => Some('\n'),
            Key::Escape => Some('\u{001B}'),
            Key::Tab => Some('\t'),
            Key::Space => Some(' '),
            Key::F4 => None,
            Key::F5 => None,
        }
    }

    pub fn has_ctrl(self) -> (r: bool)
        ensures
            r == (self.modifiers & 2 != 0),
    {
        self.modifiers & MOD_CTRL != 0
    }

    pub fn has_alt(self) -> (r: bool)
        ensures
            r == (self.modifiers & 4 != 0),
    {
        self.modifiers & MOD_ALT != 0
    }
}

/// The queue between the keyboard interrupt and the desktop loop, and the
/// modifiers currently held.
pub struct KeyQueue {
    pub items: Vec<KeyInput>,
    pub modifiers: u8,
    pub ps2_fallback: bool,
}

impl KeyQueue {
    pub fn new() -> (r: KeyQueue)
        ensures
            r.items@.len() == 0,
            r.modifiers == 0,
    {
        KeyQueue { items: Vec::new(), modifiers: 0, ps2_fallback: false }
    }
}

/// The key with only the shift, control and alt bits of its modifiers.
pub open spec fn masked(k: KeyInput) -> KeyInput {
    KeyInput { key: k.key, modifiers: k.modifiers & 7 }
}

/// The queue after one key is offered: it joins the back unless the queue
/// is full.
pub open spec fn queue_push(items: Seq<KeyInput>, input: KeyInput) -> Seq<KeyInput> {
    if items.len() >= QUEUE_SIZE - 1 {
        items
    } else {
        items.push(masked(input))
    }
}

/// The queue after the keys are offered one by one.
pub open spec fn queue_push_all(items: Seq<KeyInput>, inputs: Seq<KeyInput>) -> Seq<KeyInput>
    decreases inputs.len(),
{
    if inputs.len() == 0 {
        items
    } else {
        queue_push(queue_push_all(items, inputs.drop_last()), inputs.last())
    }
}

/// The key queue is first in, first out: keys pushed while there is room
/// line up behind what was queued, in the order they were pushed.
pub proof fn lemma_queue_fifo(items: Seq<KeyInput>, inputs: Seq<KeyInput>)
    requires
        items.len() + inputs.len() <= QUEUE_SIZE - 1,
    ensures
        queue_push_all(items, inputs) == items + inputs.map_values(|k: KeyInput| masked(k)),
    decreases inputs.len(),
{
    if inputs.len() > 0 {
        let d = inputs.drop_last();
        lemma_queue_fifo(items, d);
        assert((items + d.map_values(|k: KeyInput| masked(k))).push(masked(inputs.last()))
            =~= items + inputs.map_values(|k: KeyInput| masked(k)));
    } else {
        assert(items + inputs.map_values(|k: KeyInput| masked(k)) =~= items);
    }
}

/// Keys pushed once the queue is full are dropped: the queue holds what it
/// held followed by the pushed keys, cut at `QUEUE_SIZE - 1`.
pub proof fn lemma_queue_drops_overflow(items: Seq<KeyInput>, inputs: Seq<KeyInput>)
    requires
        items.len() <= QUEUE_SIZE - 1,
    ensures
        queue_push_all(items, inputs) == (items + inputs.map_values(|k: KeyInput| masked(k))).take(
            if items.len() + inputs.len() < QUEUE_SIZE - 1 {
                (items.len() + inputs.len()) as int
            } else {
                QUEUE_SIZE - 1
            },
        ),
    decreases inputs.len(),
{
    let all = items + inputs.map_values(|k: KeyInput| masked(k));
    if inputs.len() == 0 {
        assert(all.take(items.len() as int) =~= items);
    } else {
        let d = inputs.drop_last();
        lemma_queue_drops_overflow(items, d);
        let pre = items + d.map_values(|k: KeyInput| masked(k));
        let n: int = if items.len() + d.len() < QUEUE_SIZE - 1 {
            (items.len() + d.len()) as int
        } else {
            QUEUE_SIZE - 1
        };
        assert(pre.take(n).len() == n);
        if n < QUEUE_SIZE - 1 {
            assert(pre.take(n).push(masked(inputs.last())) =~= all.take(n + 1));
        } else {
            assert(pre.take(n) =~= all.take(n));
        }
    }
}

/// The key queue never holds more than `QUEUE_SIZE - 1` keys.
pub proof fn lemma_queue_bounded(items: Seq<KeyInput>, inputs: Seq<KeyInput>)
    requires
        items.len() <= QUEUE_SIZE - 1,
    ensures
        queue_push_all(items, inputs).len() <= QUEUE_SIZE - 1,
    decreases inputs.len(),
{
    if inputs.len() > 0 {
        lemma_queue_bounded(items, inputs.drop_last());
    }
}

/// Queues a key; when the queue is full the key is dropped.
pub fn push_input(q: &mut KeyQueue, input: KeyInput)
    ensures
        final(q).items@ == queue_push(old(q).items@, input),
        final(q).modifiers == old(q).modifiers,
        final(q).ps2_fallback == old(q).ps2_fallback,
        old(q).items@.len() >= QUEUE_SIZE - 1 ==> final(q).items@ == old(q).items@,
        old(q).items@.len() < QUEUE_SIZE - 1 ==> final(q).items@ == old(q).items@.push(
            masked(input),
        ),
{
    if q.items.len() >= QUEUE_SIZE - 1 {
        return;
    }
    q.items.push(KeyInput { key: input.key, modifiers: input.modifiers & 7 });
}

/// Queues a character typed with the modifiers now held.
pub fn push(q: &mut KeyQueue, c: char)
    ensures
        final(q).modifiers == old(q).modifiers,
        old(q).items@.len() >= QUEUE_SIZE - 1 ==> final(q).items@ == old(q).items@,
        old(q).items@.len() < QUEUE_SIZE - 1 ==> final(q).items@ == old(q).items@.push(
            masked(KeyInput { key: Key::Character(c), modifiers: old(q).modifiers }),
        ),
{
    let m = q.modifiers;
    push_input(q, KeyInput { key: Key::Character(c), modifiers: m });
}

/// Takes the oldest key.
pub fn pop_input(q: &mut KeyQueue) -> (r: Option<KeyInput>)
    ensures
        final(q).modifiers == old(q).modifiers,
        old(q).items@.len() == 0 ==> r is None && final(q).items@ == old(q).items@,
        old(q).items@.len() > 0 ==> r == Some(old(q).items@[0]) && final(q).items@ == old(
            q,
        ).items@.drop_first(),
{
    if q.items.len() == 0 {
        return None;
    }
    let k = q.items.remove(0);
    assert(q.items@ =~= old(q).items@.drop_first());
    Some(k)
}

/// Takes the oldest key as a legacy character; keys without one are
/// consumed and give `None`.
pub fn pop(q: &mut KeyQueue) -> (r: Option<char>)
    ensures
        final(q).modifiers == old(q).modifiers,
        old(q).items@.len() == 0 ==> r is None && final(q).items@ == old(q).items@,
        old(q).items@.len() > 0 ==> r == legacy_of(old(q).items@[0].key) && final(q).items@ == old(
            q,
        ).items@.drop_first(),
{
    match pop_input(q) {
        Some(k) => k.legacy_char(),
        None => None,
    }
}

pub fn current_modifiers(q: &KeyQueue) -> (r: u8)
    ensures
        r == q.modifiers,
{
    q.modifiers
}

/// Turns the PS/2 keyboard path on.
pub fn enable_ps2_fallback(q: &mut KeyQueue)
    ensures
        final(q).ps2_fallback,
        final(q).items@ == old(q).items@,
        final(q).modifiers == old(q).modifiers,
{
    q.ps2_fallback = true;
}

/// Turns the PS/2 keyboard path off.
pub fn disable_ps2_fallback(q: &mut KeyQueue)
    ensures
        !final(q).ps2_fallback,
        final(q).items@ == old(q).items@,
        final(q).modifiers == old(q).modifiers,
{
    q.ps2_fallback = false;
}


// ── Raw key events ──────────────────────────────────────────────────────────

/// A physical key, named as the scancode tables name it.
#[derive(Debug, Clone, Copy, PartialEq, Eq, Structural)]
pub enum KeyCode {
    A,
    B,
    C,
    D,
    E,
    F,
    G,
    H,
    I,
    J,
    K,
    L,
    M,
    N,
    O,
    P,
    Q,
    R,
    S,
    T,
    U,
    V,
    W,
    X,
    Y,
    Z,
    Key1,
    Key2,
    Key3,
    Key4,
    Key5,
    Key6,
    Key7,
    Key8,
    Key9,
    Key0,
    Enter,
    Escape,
    Backspace,
    Tab,
    Spacebar,
    Minus,
    Equals,
    BracketSquareLeft,
    BracketSquareRight,
    BackSlash,
    HashTilde,
    SemiColon,
    Quote,
    BackTick,
    Comma,
    Fullstop,
    Slash,
    CapsLock,
    F1,
    F2,
    F3,
    F4,
    F5,
    F6,
    F7,
    F8,
    F9,
    F10,
    F11,
    F12,
    PrintScreen,
    ScrollLock,
    PauseBreak,
    Insert,
    Home,
    PageUp,
    Delete,
    End,
    PageDown,
    ArrowRight,
    ArrowLeft,
    ArrowDown,
    ArrowUp,
    NumpadLock,
    NumpadSlash,
    NumpadStar,
    NumpadMinus,
    NumpadPlus,
    NumpadEnter,
    Numpad1,
    Numpad2,
    Numpad3,
    Numpad4,
    Numpad5,
    Numpad6,
    Numpad7,
    Numpad8,
    Numpad9,
    Numpad0,
    NumpadPeriod,
    ShiftLeft,
    ShiftRight,
    ControlLeft,
    ControlRight,
    AltLeft,
    AltRight,
}

/// Whether a key went down, came up, or was pressed and released at once.
#[derive(Debug, Clone, Copy, PartialEq, Eq, Structural)]
pub enum KeyState {
    Down,
    Up,
    SingleShot,
}

/// What a keyboard layout made of a key event.
#[derive(Debug, Clone, Copy, PartialEq, Eq, Structural)]
pub enum DecodedKey {
    Unicode(char),
    RawKey(KeyCode),
}

/// The key a USB HID keyboard usage stands for.
pub open spec fn usage_key(usage: u8) -> Option<KeyCode> {
    match usage {
        0x04 => Some(KeyCode::A),
        0x05 => Some(KeyCode::B),
        0x06 => Some(KeyCode::C),
        0x07 => Some(KeyCode::D),
        0x08 => Some(KeyCode::E),
        0x09 => Some(KeyCode::F),
        0x0A => Some(KeyCode::G),
        0x0B => Some(KeyCode::H),
        0x0C => Some(KeyCode::I),
        0x0D => Some(KeyCode::J),
        0x0E => Some(KeyCode::K),
        0x0F => Some(KeyCode::L),
        0x10 => Some(KeyCode::M),
        0x11 => Some(KeyCode::N),
        0x12 => Some(KeyCode::O),
        0x13 => Some(KeyCode::P),
        0x14 => Some(KeyCode::Q),
        0x15 => Some(KeyCode::R),
        0x16 => Some(KeyCode::S),
        0x17 => Some(KeyCode::T),
        0x18 => Some(KeyCode::U),
        0x19 => Some(KeyCode::V),
        0x1A => Some(KeyCode::W),
        0x1B => Some(KeyCode::X),
        0x1C => Some(KeyCode::Y),
        0x1D => Some(KeyCode::Z),
        0x1E => Some(KeyCode::Key1),
        0x1F => Some(KeyCode::Key2),
        0x20 => Some(KeyCode::Key3),
        0x21 => Some(KeyCode::Key4),
        0x22 => Some(KeyCode::Key5),
        0x23 => Some(KeyCode::Key6),
        0x24 => Some(KeyCode::Key7),
        0x25 => Some(KeyCode::Key8),
        0x26 => Some(KeyCode::Key9),
        0x27 => Some(KeyCode::Key0),
        0x28 => Some(KeyCode::Enter),
        0x29 => Some(KeyCode::Escape),
        0x2A => Some(KeyCode::Backspace),
        0x2B => Some(KeyCode::Tab),
        0x2C => Some(KeyCode::Spacebar),
        0x2D => Some(KeyCode::Minus),
        0x2E => Some(KeyCode::Equals),
        0x2F => Some(KeyCode::BracketSquareLeft),
        0x30 => Some(KeyCode::BracketSquareRight),
        0x31 => Some(KeyCode::BackSlash),
        0x32 => Some(KeyCode::HashTilde),
        0x33 => Some(KeyCode::SemiColon),
        0x34 => Some(KeyCode::Quote),
        0x35 => Some(KeyCode::BackTick),
        0x36 => Some(KeyCode::Comma),
        0x37 => Some(KeyCode::Fullstop),
        0x38 => Some(KeyCode::Slash),
        0x39 => Some(KeyCode::CapsLock),
        0x3A => Some(KeyCode::F1),
        0x3B => Some(KeyCode::F2),
        0x3C => Some(KeyCode::F3),
        0x3D => Some(KeyCode::F4),
        0x3E => Some(KeyCode::F5),
        0x3F => Some(KeyCode::F6),
        0x40 => Some(KeyCode::F7),
        0x41 => Some(KeyCode::F8),
        0x42 => Some(KeyCode::F9),
        0x43 => Some(KeyCode::F10),
        0x44 => Some(KeyCode::F11),
        0x45 => Some(KeyCode::F12),
        0x46 => Some(KeyCode::PrintScreen),
        0x47 => Some(KeyCode::ScrollLock),
        0x48 => Some(KeyCode::PauseBreak),
        0x49 => Some(KeyCode::Insert),
        0x4A => Some(KeyCode::Home),
        0x4B => Some(KeyCode::PageUp),
        0x4C => Some(KeyCode::Delete),
        0x4D => Some(KeyCode::End),
        0x4E => Some(KeyCode::PageDown),
        0x4F => Some(KeyCode::ArrowRight),
        0x50 => Some(KeyCode::ArrowLeft),
        0x51 => Some(KeyCode::ArrowDown),
        0x52 => Some(KeyCode::ArrowUp),
        0x53 => Some(KeyCode::NumpadLock),
        0x54 => Some(KeyCode::NumpadSlash),
        0x55 => Some(KeyCode::NumpadStar),
        0x56 => Some(KeyCode::NumpadMinus),
        0x57 => Some(KeyCode::NumpadPlus),
        0x58 => Some(KeyCode::NumpadEnter),
        0x59 => Some(KeyCode::Numpad1),
        0x5A => Some(KeyCode::Numpad2),
        0x5B => Some(KeyCode::Numpad3),
        0x5C => Some(KeyCode::Numpad4),
        0x5D => Some(KeyCode::Numpad5),
        0x5E => Some(KeyCode::Numpad6),
        0x5F => Some(KeyCode::Numpad7),
        0x60 => Some(KeyCode::Numpad8),
        0x61 => Some(KeyCode::Numpad9),
        0x62 => Some(KeyCode::Numpad0),
        0x63 => Some(KeyCode::NumpadPeriod),
        0x64 => Some(KeyCode::BackSlash),
        _ => None,
    }
}

pub fn usb_usage_to_keycode(usage: u8) -> (r: Option<KeyCode>)
    ensures
        r == usage_key(usage),
{
    match usage {
        0x04 => Some(KeyCode::A),
        0x05 => Some(KeyCode::B),
        0x06 => Some(KeyCode::C),
        0x07 => Some(KeyCode::D),
        0x08 => Some(KeyCode::E),
        0x09 => Some(KeyCode::F),
        0x0A => Some(KeyCode::G),
        0x0B => Some(KeyCode::H),
        0x0C => Some(KeyCode::I),
        0x0D => Some(KeyCode::J),
        0x0E => Some(KeyCode::K),
        0x0F => Some(KeyCode::L),
        0x10 => Some(KeyCode::M),
        0x11 => Some(KeyCode::N),
        0x12 => Some(KeyCode::O),
        0x13 => Some(KeyCode::P),
        0x14 => Some(KeyCode::Q),
        0x15 => Some(KeyCode::R),
        0x16 => Some(KeyCode::S),
        0x17 => Some(KeyCode::T),
        0x18 => Some(KeyCode::U),
        0x19 => Some(KeyCode::V),
        0x1A => Some(KeyCode::W),
        0x1B => Some(KeyCode::X),
        0x1C => Some(KeyCode::Y),
        0x1D => Some(KeyCode::Z),
        0x1E => Some(KeyCode::Key1),
        0x1F => Some(KeyCode::Key2),
        0x20 => Some(KeyCode::Key3),
        0x21 => Some(KeyCode::Key4),
        0x22 => Some(KeyCode::Key5),
        0x23 => Some(KeyCode::Key6),
        0x24 => Some(KeyCode::Key7),
        0x25 => Some(KeyCode::Key8),
        0x26 => Some(KeyCode::Key9),
        0x27 => Some(KeyCode::Key0),
        0x28 => Some(KeyCode::Enter),
        0x29 => Some(KeyCode::Escape),
        0x2A => Some(KeyCode::Backspace),
        0x2B => Some(KeyCode::Tab),
        0x2C => Some(KeyCode::Spacebar),
        0x2D => Some(KeyCode::Minus),
        0x2E => Some(KeyCode::Equals),
        0x2F => Some(KeyCode::BracketSquareLeft),
        0x30 => Some(KeyCode::BracketSquareRight),
        0x31 => Some(KeyCode::BackSlash),
        0x32 => Some(KeyCode::HashTilde),
        0x33 => Some(KeyCode::SemiColon),
        0x34 => Some(KeyCode::Quote),
        0x35 => Some(KeyCode::BackTick),
        0x36 => Some(KeyCode::Comma),
        0x37 => Some(KeyCode::Fullstop),
        0x38 => Some(KeyCode::Slash),
        0x39 => Some(KeyCode::CapsLock),
        0x3A => Some(KeyCode::F1),
        0x3B => Some(KeyCode::F2),
        0x3C => Some(KeyCode::F3),
        0x3D => Some(KeyCode::F4),
        0x3E => Some(KeyCode::F5),
        0x3F => Some(KeyCode::F6),
        0x40 => Some(KeyCode::F7),
        0x41 => Some(KeyCode::F8),
        0x42 => Some(KeyCode::F9),
        0x43 => Some(KeyCode::F10),
        0x44 => Some(KeyCode::F11),
        0x45 => Some(KeyCode::F12),
        0x46 => Some(KeyCode::PrintScreen),
        0x47 => Some(KeyCode::ScrollLock),
        0x48 => Some(KeyCode::PauseBreak),
        0x49 => Some(KeyCode::Insert),
        0x4A => Some(KeyCode::Home),
        0x4B => Some(KeyCode::PageUp),
        0x4C => Some(KeyCode::Delete),
        0x4D => Some(KeyCode::End),
        0x4E => Some(KeyCode::PageDown),
        0x4F => Some(KeyCode::ArrowRight),
        0x50 => Some(KeyCode::ArrowLeft),
        0x51 => Some(KeyCode::ArrowDown),
        0x52 => Some(KeyCode::ArrowUp),
        0x53 => Some(KeyCode::NumpadLock),
        0x54 => Some(KeyCode::NumpadSlash),
        0x55 => Some(KeyCode::NumpadStar),
        0x56 => Some(KeyCode::NumpadMinus),
        0x57 => Some(KeyCode::NumpadPlus),
        0x58 => Some(KeyCode::NumpadEnter),
        0x59 => Some(KeyCode::Numpad1),
        0x5A => Some(KeyCode::Numpad2),
        0x5B => Some(KeyCode::Numpad3),
        0x5C => Some(KeyCode::Numpad4),
        0x5D => Some(KeyCode::Numpad5),
        0x5E => Some(KeyCode::Numpad6),
        0x5F => Some(KeyCode::Numpad7),
        0x60 => Some(KeyCode::Numpad8),
        0x61 => Some(KeyCode::Numpad9),
        0x62 => Some(KeyCode::Numpad0),
        0x63 => Some(KeyCode::NumpadPeriod),
        0x64 => Some(KeyCode::BackSlash),
        _ => None,
    }
}

/// The modifier key behind each bit of a HID boot report's first byte.
pub open spec fn modifier_key(bit: int) -> Option<KeyCode> {
    if bit == 0 {
        Some(KeyCode::ControlLeft)
    } else if bit == 1 {
        Some(KeyCode::ShiftLeft)
    } else if bit == 2 {
        Some(KeyCode::AltLeft)
    } else if bit == 4 {
        Some(KeyCode::ControlRight)
    } else if bit == 5 {
        Some(KeyCode::ShiftRight)
    } else if bit == 6 {
        Some(KeyCode::AltRight)
    } else {
        None
    }
}

pub fn usb_modifier_keycode(bit: usize) -> (r: Option<KeyCode>)
    ensures
        r == modifier_key(bit as int),
{
    match bit {
        0 => Some(KeyCode::ControlLeft),
        1 => Some(KeyCode::ShiftLeft),
        2 => Some(KeyCode::AltLeft),
        4 => Some(KeyCode::ControlRight),
        5 => Some(KeyCode::ShiftRight),
        6 => Some(KeyCode::AltRight),
        _ => None,
    }
}

/// The modifier bit a key holds down.
pub open spec fn mod_bit(code: KeyCode) -> Option<u8> {
    match code {
        KeyCode::ShiftLeft | KeyCode::ShiftRight => Some(MOD_SHIFT),
        KeyCode::ControlLeft | KeyCode::ControlRight => Some(MOD_CTRL),
        KeyCode::AltLeft | KeyCode::AltRight => Some(MOD_ALT),
        _ => None,
    }
}

pub fn modifier_bit(code: KeyCode) -> (r: Option<u8>)
    ensures
        r == mod_bit(code),
{
    match code {
        KeyCode::ShiftLeft | KeyCode::ShiftRight => Some(MOD_SHIFT),
        KeyCode::ControlLeft | KeyCode::ControlRight => Some(MOD_CTRL),
        KeyCode::AltLeft | KeyCode::AltRight => Some(MOD_ALT),
        _ => None,
    }
}

/// The desktop key for a navigation, editing or function key.
pub open spec fn special_of(code: KeyCode) -> Option<Key> {
    match code {
        KeyCode::ArrowUp => Some(Key::ArrowUp),
        KeyCode::ArrowDown => Some(Key::ArrowDown),
        KeyCode::ArrowLeft => Some(Key::ArrowLeft),
        KeyCode::ArrowRight => Some(Key::ArrowRight),
        KeyCode::Home => Some(Key::Home),
        KeyCode::End => Some(Key::End),
        KeyCode::PageUp => Some(Key::PageUp),
        KeyCode::PageDown => Some(Key::PageDown),
        KeyCode::Delete => Some(Key::Delete),
        KeyCode::Backspace => Some(Key::Backspace),
        KeyCode::Enter => Some(Key::Enter),
        KeyCode::Escape => Some(Key::Escape),
        KeyCode::Tab => Some(Key::Tab),
        KeyCode::Spacebar => Some(Key::Space),
        KeyCode::F4 => Some(Key::F4),
        KeyCode::F5 => Some(Key::F5),
        _ => None,
    }
}

pub fn raw_key_to_special(code: KeyCode) -> (r: Option<Key>)
    ensures
        r == special_of(code),
{
    match code {
        KeyCode::ArrowUp => Some(Key::ArrowUp),
        KeyCode::ArrowDown => Some(Key::ArrowDown),
        KeyCode::ArrowLeft => Some(Key::ArrowLeft),
        KeyCode::ArrowRight => Some(Key::ArrowRight),
        KeyCode::Home => Some(Key::Home),
        KeyCode::End => Some(Key::End),
        KeyCode::PageUp => Some(Key::PageUp),
        KeyCode::PageDown => Some(Key::PageDown),
        KeyCode::Delete => Some(Key::Delete),
        KeyCode::Backspace => Some(Key::Backspace),
        KeyCode::Enter => Some(Key::Enter),
        KeyCode::Escape => Some(Key::Escape),
        KeyCode::Tab => Some(Key::Tab),
        KeyCode::Spacebar => Some(Key::Space),
        KeyCode::F4 => Some(Key::F4),
        KeyCode::F5 => Some(Key::F5),
        _ => None,
    }
}

/// The key a shortcut chord (with control or alt held) stands for.
pub open spec fn shortcut_of(code: KeyCode) -> Option<Key> {
    match code {
        KeyCode::A => Some(Key::Character('a')),
        KeyCode::C => Some(Key::Character('c')),
        KeyCode::F => Some(Key::Character('f')),
        KeyCode::N => Some(Key::Character('n')),
        KeyCode::P => Some(Key::Character('p')),
        KeyCode::R => Some(Key::Character('r')),
        KeyCode::V => Some(Key::Character('v')),
        KeyCode::W => Some(Key::Character('w')),
        KeyCode::X => Some(Key::Character('x')),
        KeyCode::M => Some(Key::Character('m')),
        KeyCode::Key1 => Some(Key::Character('1')),
        KeyCode::Key2 => Some(Key::Character('2')),
        KeyCode::Key3 => Some(Key::Character('3')),
        KeyCode::Key4 => Some(Key::Character('4')),
        _ => special_of(code),
    }
}

pub fn shortcut_key_from_raw(code: KeyCode) -> (r: Option<Key>)
    ensures
        r == shortcut_of(code),
{
    match code {
        KeyCode::A => Some(Key::Character('a')),
        KeyCode::C => Some(Key::Character('c')),
        KeyCode::F => Some(Key::Character('f')),
        KeyCode::N => Some(Key::Character('n')),
        KeyCode::P => Some(Key::Character('p')),
        KeyCode::R => Some(Key::Character('r')),
        KeyCode::V => Some(Key::Character('v')),
        KeyCode::W => Some(Key::Character('w')),
        KeyCode::X => Some(Key::Character('x')),
        KeyCode::M => Some(Key::Character('m')),
        KeyCode::Key1 => Some(Key::Character('1')),
        KeyCode::Key2 => Some(Key::Character('2')),
        KeyCode::Key3 => Some(Key::Character('3')),
        KeyCode::Key4 => Some(Key::Character('4')),
        _ => raw_key_to_special(code),
    }
}

/// The desktop key for what the layout decoded: line ends, tab and the
/// editing control characters become their keys, other characters stay
/// characters.
pub open spec fn decoded_of(d: DecodedKey) -> Option<Key> {
    match d {
        DecodedKey::Unicode(c) => if c == '\n' || c == '\r' {
            Some(Key::Enter)
        } else if c == '\t' {
            Some(Key::Tab)
        } else if c == '\u{0008}' {
            Some(Key::Backspace)
        } else if c == '\u{007F}' {
            Some(Key::Delete)
        } else if c == '\u{001B}' {
            Some(Key::Escape)
        } else {
            Some(Key::Character(c))
        },
        DecodedKey::RawKey(code) => special_of(code),
    }
}

pub fn decoded_key_to_key(d: DecodedKey) -> (r: Option<Key>)
    ensures
        r == decoded_of(d),
{
    match d {
        DecodedKey::Unicode(c) => {
            if c == '\n' || c == '\r' {
                Some(Key::Enter)
            } else if c == '\t' {
                Some(Key::Tab)
            } else if c == '\u{0008}' {
                Some(Key::Backspace)
            } else if c == '\u{007F}' {
                Some(Key::Delete)
            } else if c == '\u{001B}' {
                Some(Key::Escape)
            } else {
                Some(Key::Character(c))
            }
        },
        DecodedKey::RawKey(code) => raw_key_to_special(code),
    }
}

/// The modifiers after a key event: a modifier key sets its bit going down
/// and clears it coming up.
pub open spec fn mods_after(mods: u8, code: KeyCode, state: KeyState) -> u8 {
    match mod_bit(code) {
        None => mods,
        Some(b) => if state == KeyState::Up {
            mods & !b
        } else {
            mods | b
        },
    }
}

/// The key a pressed key event queues, if any: with control or alt held a
/// shortcut key wins, else what the layout decoded, else the raw key's own
/// meaning.
pub open spec fn event_key(mods: u8, code: KeyCode, decoded: Option<DecodedKey>) -> Option<Key> {
    if mods & (MOD_CTRL | MOD_ALT) != 0 && shortcut_of(code) is Some {
        shortcut_of(code)
    } else {
        match decoded {
            Some(d) if decoded_of(d) is Some => decoded_of(d),
            _ => special_of(code),
        }
    }
}

/// Takes one key event from a keyboard driver: tracks the modifiers and,
/// for a key going down, queues the key it stands for. Says whether a key
/// was offered to the queue.
pub fn handle_driver_event(q: &mut KeyQueue, code: KeyCode, state: KeyState, decoded: Option<DecodedKey>) -> (r: bool)
    ensures
        final(q).modifiers == mods_after(old(q).modifiers, code, state),
        final(q).ps2_fallback == old(q).ps2_fallback,
        state == KeyState::Up ==> !r && final(q).items@ == old(q).items@,
        state != KeyState::Up ==> match event_key(final(q).modifiers, code, decoded) {
            None => !r && final(q).items@ == old(q).items@,
            Some(k) => r && final(q).items@ == queue_push(
                old(q).items@,
                KeyInput { key: k, modifiers: final(q).modifiers },
            ),
        },
{
    match modifier_bit(code) {
        Some(b) => {
            if state == KeyState::Up {
                q.modifiers = q.modifiers & !b;
            } else {
                q.modifiers = q.modifiers | b;
            }
        },
        None => {},
    }
    if state == KeyState::Up {
        return false;
    }
    let modifiers = q.modifiers;
    if modifiers & (MOD_CTRL | MOD_ALT) != 0 {
        if let Some(key) = shortcut_key_from_raw(code) {
            push_input(q, KeyInput { key, modifiers });
            return true;
        }
    }
    let from_layout = match decoded {
        Some(d) => decoded_key_to_key(d),
        None => None,
    };
    let key = match from_layout {
        Some(k) => Some(k),
        None => raw_key_to_special(code),
    };
    match key {
        Some(k) => {
            push_input(q, KeyInput { key: k, modifiers });
            true
        },
        None => false,
    }
}

// ── USB boot reports ────────────────────────────────────────────────────────

/// A boot report signalling too many keys at once (usages 1 to 3).
pub open spec fn rollover(report: Seq<u8>) -> bool {
    exists|i: int| 2 <= i < 8 && 1 <= #[trigger] report[i] <= 3
}

/// The modifier keys whose bit differs between the two first bytes, bit 0
/// first, each with its new state.
pub open spec fn modifier_changes(prev: u8, now: u8, n: int) -> Seq<(KeyCode, KeyState)>
    decreases n,
{
    if n <= 0 {
        Seq::empty()
    } else {
        let b = n - 1;
        let mask = 1u8 << (b as u8);
        let earlier = modifier_changes(prev, now, n - 1);
        if (prev & mask != 0) != (now & mask != 0) && modifier_key(b) is Some {
            earlier.push((modifier_key(b)->0, if now & mask != 0 { KeyState::Down } else { KeyState::Up }))
        } else {
            earlier
        }
    }
}

/// The keys among `now[2..n]`, in order, that are not held in `before` (a
/// report's key slots), each with `state`.
pub open spec fn key_changes(before: Seq<u8>, now: Seq<u8>, n: int, state: KeyState) -> Seq<(KeyCode, KeyState)>
    decreases n,
{
    if n <= 2 {
        Seq::empty()
    } else {
        let u = now[n - 1];
        let earlier = key_changes(before, now, n - 1, state);
        if u != 0 && !before.subrange(2, 8).contains(u) && usage_key(u) is Some {
            earlier.push((usage_key(u)->0, state))
        } else {
            earlier
        }
    }
}

/// The key events between two boot reports: modifier changes, then keys
/// newly down, then keys released; none for a rollover report.
pub open spec fn report_events(prev: Seq<u8>, report: Seq<u8>) -> Seq<(KeyCode, KeyState)> {
    if rollover(report) {
        Seq::empty()
    } else {
        modifier_changes(prev[0], report[0], 8) + key_changes(prev, report, 8, KeyState::Down)
            + key_changes(report, prev, 8, KeyState::Up)
    }
}

fn holds_usage(slots: &[u8; 8], u: u8) -> (r: bool)
    ensures
        r == slots@.subrange(2, 8).contains(u),
{
    let mut i: usize = 2;
    while i < 8
        invariant
            2 <= i <= 8,
            slots@.len() == 8,
            forall|k: int| 2 <= k < i ==> slots@[k] != u,
        decreases 8 - i,
    {
        if slots[i] == u {
            assert(slots@.subrange(2, 8)[i - 2] == u);
            return true;
        }
        i = i + 1;
    }
    assert forall|k: int| 0 <= k < 6 implies slots@.subrange(2, 8)[k] != u by {
        assert(slots@.subrange(2, 8)[k] == slots@[k + 2]);
    }
    false
}

fn push_key_changes(out: &mut Vec<(KeyCode, KeyState)>, before: &[u8; 8], now: &[u8; 8], state: KeyState)
    ensures
        final(out)@ == old(out)@ + key_changes(before@, now@, 8, state),
{
    let ghost start = out@;
    let mut i: usize = 2;
    proof {
        assert(start + key_changes(before@, now@, 2, state) =~= start);
    }
    while i < 8
        invariant
            2 <= i <= 8,
            now@.len() == 8,
            out@ == start + key_changes(before@, now@, i as int, state),
        decreases 8 - i,
    {
        let u = now[i];
        let ghost prev_out = out@;
        if u != 0 && !holds_usage(before, u) {
            match usb_usage_to_keycode(u) {
                Some(code) => {
                    out.push((code, state));
                    assert(out@ =~= start + key_changes(before@, now@, i + 1, state));
                },
                None => {},
            }
        }
        i = i + 1;
    }
}

/// Takes a USB HID boot keyboard report and gives the key events since the
/// previous one, which it then remembers; a rollover report changes
/// nothing.
pub fn handle_usb_boot_report(prev: &mut [u8; 8], report: &[u8; 8]) -> (r: Vec<(KeyCode, KeyState)>)
    ensures
        r@ == report_events(old(prev)@, report@),
        *final(prev) == if rollover(report@) {
            *old(prev)
        } else {
            *report
        },
{
    let mut out: Vec<(KeyCode, KeyState)> = Vec::new();
    let mut i: usize = 2;
    while i < 8
        invariant
            2 <= i <= 8,
            report@.len() == 8,
            out@.len() == 0,
            forall|k: int| 2 <= k < i ==> !(1 <= #[trigger] report@[k] <= 3),
        decreases 8 - i,
    {
        if report[i] >= 1 && report[i] <= 3 {
            assert(1 <= report@[i as int] <= 3);
            assert(rollover(report@));
            assert(out@ =~= report_events(prev@, report@));
            return out;
        }
        i = i + 1;
    }
    let p0 = prev[0];
    let r0 = report[0];
    let mut bit: usize = 0;
    while bit < 8
        invariant
            bit <= 8,
            out@ == modifier_changes(p0, r0, bit as int),
        decreases 8 - bit,
    {
        let mask: u8 = 1u8 << (bit as u8);
        let was_down = p0 & mask != 0;
        let is_down = r0 & mask != 0;
        if was_down != is_down {
            match usb_modifier_keycode(bit) {
                Some(code) => {
                    let st = if is_down {
                        KeyState::Down
                    } else {
                        KeyState::Up
                    };
                    out.push((code, st));
                },
                None => {},
            }
        }
        bit = bit + 1;
    }
    let before: [u8; 8] = *prev;
    push_key_changes(&mut out, &before, report, KeyState::Down);
    push_key_changes(&mut out, report, &before, KeyState::Up);
    *prev = *report;
    out
}


// ── Laws of the USB keyboard path ───────────────────────────────────────────

/// The HID usage table for boot keyboards: each usage names the key the
/// table assigns it (letters from 0x04, digits from 0x1E, editing,
/// function, navigation and keypad keys after them); usages outside
/// 0x04..=0x64 name no key.
pub proof fn lemma_hid_usage_table()
    ensures
        usage_key(0x04) == Some(KeyCode::A),
        usage_key(0x05) == Some(KeyCode::B),
        usage_key(0x06) == Some(KeyCode::C),
        usage_key(0x07) == Some(KeyCode::D),
        usage_key(0x08) == Some(KeyCode::E),
        usage_key(0x09) == Some(KeyCode::F),
        usage_key(0x0A) == Some(KeyCode::G),
        usage_key(0x0B) == Some(KeyCode::H),
        usage_key(0x0C) == Some(KeyCode::I),
        usage_key(0x0D) == Some(KeyCode::J),
        usage_key(0x0E) == Some(KeyCode::K),
        usage_key(0x0F) == Some(KeyCode::L),
        usage_key(0x10) == Some(KeyCode::M),
        usage_key(0x11) == Some(KeyCode::N),
        usage_key(0x12) == Some(KeyCode::O),
        usage_key(0x13) == Some(KeyCode::P),
        usage_key(0x14) == Some(KeyCode::Q),
        usage_key(0x15) == Some(KeyCode::R),
        usage_key(0x16) == Some(KeyCode::S),
        usage_key(0x17) == Some(KeyCode::T),
        usage_key(0x18) == Some(KeyCode::U),
        usage_key(0x19) == Some(KeyCode::V),
        usage_key(0x1A) == Some(KeyCode::W),
        usage_key(0x1B) == Some(KeyCode::X),
        usage_key(0x1C) == Some(KeyCode::Y),
        usage_key(0x1D) == Some(KeyCode::Z),
        usage_key(0x1E) == Some(KeyCode::Key1),
        usage_key(0x1F) == Some(KeyCode::Key2),
        usage_key(0x20) == Some(KeyCode::Key3),
        usage_key(0x21) == Some(KeyCode::Key4),
        usage_key(0x22) == Some(KeyCode::Key5),
        usage_key(0x23) == Some(KeyCode::Key6),
        usage_key(0x24) == Some(KeyCode::Key7),
        usage_key(0x25) == Some(KeyCode::Key8),
        usage_key(0x26) == Some(KeyCode::Key9),
        usage_key(0x27) == Some(KeyCode::Key0),
        usage_key(0x28) == Some(KeyCode::Enter),
        usage_key(0x29) == Some(KeyCode::Escape),
        usage_key(0x2A) == Some(KeyCode::Backspace),
        usage_key(0x2B) == Some(KeyCode::Tab),
        usage_key(0x2C) == Some(KeyCode::Spacebar),
        usage_key(0x2D) == Some(KeyCode::Minus),
        usage_key(0x2E) == Some(KeyCode::Equals),
        usage_key(0x2F) == Some(KeyCode::BracketSquareLeft),
        usage_key(0x30) == Some(KeyCode::BracketSquareRight),
        usage_key(0x31) == Some(KeyCode::BackSlash),
        usage_key(0x32) == Some(KeyCode::HashTilde),
        usage_key(0x33) == Some(KeyCode::SemiColon),
        usage_key(0x34) == Some(KeyCode::Quote),
        usage_key(0x35) == Some(KeyCode::BackTick),
        usage_key(0x36) == Some(KeyCode::Comma),
        usage_key(0x37) == Some(KeyCode::Fullstop),
        usage_key(0x38) == Some(KeyCode::Slash),
        usage_key(0x39) == Some(KeyCode::CapsLock),
        usage_key(0x3A) == Some(KeyCode::F1),
        usage_key(0x3B) == Some(KeyCode::F2),
        usage_key(0x3C) == Some(KeyCode::F3),
        usage_key(0x3D) == Some(KeyCode::F4),
        usage_key(0x3E) == Some(KeyCode::F5),
        usage_key(0x3F) == Some(KeyCode::F6),
        usage_key(0x40) == Some(KeyCode::F7),
        usage_key(0x41) == Some(KeyCode::F8),
        usage_key(0x42) == Some(KeyCode::F9),
        usage_key(0x43) == Some(KeyCode::F10),
        usage_key(0x44) == Some(KeyCode::F11),
        usage_key(0x45) == Some(KeyCode::F12),
        usage_key(0x46) == Some(KeyCode::PrintScreen),
        usage_key(0x47) == Some(KeyCode::ScrollLock),
        usage_key(0x48) == Some(KeyCode::PauseBreak),
        usage_key(0x49) == Some(KeyCode::Insert),
        usage_key(0x4A) == Some(KeyCode::Home),
        usage_key(0x4B) == Some(KeyCode::PageUp),
        usage_key(0x4C) == Some(KeyCode::Delete),
        usage_key(0x4D) == Some(KeyCode::End),
        usage_key(0x4E) == Some(KeyCode::PageDown),
        usage_key(0x4F) == Some(KeyCode::ArrowRight),
        usage_key(0x50) == Some(KeyCode::ArrowLeft),
        usage_key(0x51) == Some(KeyCode::ArrowDown),
        usage_key(0x52) == Some(KeyCode::ArrowUp),
        usage_key(0x53) == Some(KeyCode::NumpadLock),
        usage_key(0x54) == Some(KeyCode::NumpadSlash),
        usage_key(0x55) == Some(KeyCode::NumpadStar),
        usage_key(0x56) == Some(KeyCode::NumpadMinus),
        usage_key(0x57) == Some(KeyCode::NumpadPlus),
        usage_key(0x58) == Some(KeyCode::NumpadEnter),
        usage_key(0x59) == Some(KeyCode::Numpad1),
        usage_key(0x5A) == Some(KeyCode::Numpad2),
        usage_key(0x5B) == Some(KeyCode::Numpad3),
        usage_key(0x5C) == Some(KeyCode::Numpad4),
        usage_key(0x5D) == Some(KeyCode::Numpad5),
        usage_key(0x5E) == Some(KeyCode::Numpad6),
        usage_key(0x5F) == Some(KeyCode::Numpad7),
        usage_key(0x60) == Some(KeyCode::Numpad8),
        usage_key(0x61) == Some(KeyCode::Numpad9),
        usage_key(0x62) == Some(KeyCode::Numpad0),
        usage_key(0x63) == Some(KeyCode::NumpadPeriod),
        usage_key(0x64) == Some(KeyCode::BackSlash),
        forall|u: u8| (u < 0x04 || u > 0x64) ==> #[trigger] usage_key(u) is None,
{
}

/// A report that presses one key (no modifiers, nothing held before) gives
/// exactly that key going down.
pub proof fn lemma_single_key_press(u: u8)
    requires
        0x04 <= u <= 0x64,
    ensures
        usage_key(u) is Some,
        report_events(seq![0u8, 0, 0, 0, 0, 0, 0, 0], seq![0u8, 0, u, 0, 0, 0, 0, 0]) == seq![
            (usage_key(u)->0, KeyState::Down),
        ],
{
    lemma_hid_usage_table();
    let prev = seq![0u8, 0, 0, 0, 0, 0, 0, 0];
    let rep = seq![0u8, 0, u, 0, 0, 0, 0, 0];
    assert(!rollover(rep)) by {
        assert forall|i: int| 2 <= i < 8 implies !(1 <= #[trigger] rep[i] <= 3) by {
            if i == 2 {
            } else {
                assert(rep[i] == 0);
            }
        }
    }
    reveal_with_fuel(modifier_changes, 9);
    assert(modifier_changes(0, 0, 8) =~= Seq::<(KeyCode, KeyState)>::empty());
    assert(!prev.subrange(2, 8).contains(u)) by {
        assert forall|j: int| 0 <= j < 6 implies prev.subrange(2, 8)[j] != u by {
            assert(prev.subrange(2, 8)[j] == prev[j + 2]);
        }
    }
    reveal_with_fuel(key_changes, 9);
    assert(key_changes(prev, rep, 8, KeyState::Down) =~= seq![(usage_key(u)->0, KeyState::Down)]);
    assert(key_changes(rep, prev, 8, KeyState::Up) =~= Seq::<(KeyCode, KeyState)>::empty());
    assert(report_events(prev, rep) =~= seq![(usage_key(u)->0, KeyState::Down)]);
}

/// Releasing the only key held gives exactly that key coming up.
pub proof fn lemma_single_key_release(u: u8)
    requires
        0x04 <= u <= 0x64,
    ensures
        report_events(seq![0u8, 0, u, 0, 0, 0, 0, 0], seq![0u8, 0, 0, 0, 0, 0, 0, 0]) == seq![
            (usage_key(u)->0, KeyState::Up),
        ],
{
    lemma_hid_usage_table();
    let prev = seq![0u8, 0, u, 0, 0, 0, 0, 0];
    let rep = seq![0u8, 0, 0, 0, 0, 0, 0, 0];
    assert(!rollover(rep)) by {
        assert forall|i: int| 2 <= i < 8 implies !(1 <= #[trigger] rep[i] <= 3) by {
            assert(rep[i] == 0);
        }
    }
    reveal_with_fuel(modifier_changes, 9);
    assert(modifier_changes(0, 0, 8) =~= Seq::<(KeyCode, KeyState)>::empty());
    assert(!rep.subrange(2, 8).contains(u)) by {
        assert forall|j: int| 0 <= j < 6 implies rep.subrange(2, 8)[j] != u by {
            assert(rep.subrange(2, 8)[j] == rep[j + 2]);
        }
    }
    reveal_with_fuel(key_changes, 9);
    assert(key_changes(prev, rep, 8, KeyState::Down) =~= Seq::<(KeyCode, KeyState)>::empty());
    assert(key_changes(rep, prev, 8, KeyState::Up) =~= seq![(usage_key(u)->0, KeyState::Up)]);
    assert(report_events(prev, rep) =~= seq![(usage_key(u)->0, KeyState::Up)]);
}


/// The modifier bits of a boot report's first byte follow the HID order:
/// left control, shift, alt (bits 0 to 2), then right control, shift, alt
/// (bits 4 to 6); bits 3 and 7 (the GUI keys) give no key.
pub proof fn lemma_hid_modifier_bits()
    ensures
        modifier_key(0) == Some(KeyCode::ControlLeft),
        modifier_key(1) == Some(KeyCode::ShiftLeft),
        modifier_key(2) == Some(KeyCode::AltLeft),
        modifier_key(3) is None,
        modifier_key(4) == Some(KeyCode::ControlRight),
        modifier_key(5) == Some(KeyCode::ShiftRight),
        modifier_key(6) == Some(KeyCode::AltRight),
        modifier_key(7) is None,
{
}

/// Either shift key holds shift, either control key control, either alt
/// key alt: pressing one sets its bit, releasing it clears that bit, and
/// other keys leave the modifiers alone.
pub proof fn lemma_modifier_tracking(mods: u8, code: KeyCode, state: KeyState)
    ensures
        (code == KeyCode::ShiftLeft || code == KeyCode::ShiftRight) ==> mods_after(mods, code, state)
            == if state == KeyState::Up {
            mods & !MOD_SHIFT
        } else {
            mods | MOD_SHIFT
        },
        (code == KeyCode::ControlLeft || code == KeyCode::ControlRight) ==> mods_after(mods, code, state)
            == if state == KeyState::Up {
            mods & !MOD_CTRL
        } else {
            mods | MOD_CTRL
        },
        (code == KeyCode::AltLeft || code == KeyCode::AltRight) ==> mods_after(mods, code, state)
            == if state == KeyState::Up {
            mods & !MOD_ALT
        } else {
            mods | MOD_ALT
        },
        !(code == KeyCode::ShiftLeft || code == KeyCode::ShiftRight || code == KeyCode::ControlLeft
            || code == KeyCode::ControlRight || code == KeyCode::AltLeft || code == KeyCode::AltRight)
            ==> mods_after(mods, code, state) == mods,
{
}

/// The navigation and editing keys stand for themselves, whatever the
/// layout made of them.
pub proof fn lemma_navigation_keys()
    ensures
        special_of(KeyCode::ArrowUp) == Some(Key::ArrowUp),
        special_of(KeyCode::ArrowDown) == Some(Key::ArrowDown),
        special_of(KeyCode::ArrowLeft) == Some(Key::ArrowLeft),
        special_of(KeyCode::ArrowRight) == Some(Key::ArrowRight),
        special_of(KeyCode::Home) == Some(Key::Home),
        special_of(KeyCode::End) == Some(Key::End),
        special_of(KeyCode::PageUp) == Some(Key::PageUp),
        special_of(KeyCode::PageDown) == Some(Key::PageDown),
        special_of(KeyCode::Delete) == Some(Key::Delete),
        special_of(KeyCode::Backspace) == Some(Key::Backspace),
        special_of(KeyCode::Enter) == Some(Key::Enter),
        special_of(KeyCode::Escape) == Some(Key::Escape),
        special_of(KeyCode::Tab) == Some(Key::Tab),
        special_of(KeyCode::Spacebar) == Some(Key::Space),
{
}


/// What the layout decoded becomes a key: line ends are Enter, tab is Tab,
/// backspace, delete and escape their keys, and any other character is
/// typed as itself.
pub proof fn lemma_decoded_characters(c: char)
    ensures
        (c == '\n' || c == '\r') ==> decoded_of(DecodedKey::Unicode(c)) == Some(Key::Enter),
        c == '\t' ==> decoded_of(DecodedKey::Unicode(c)) == Some(Key::Tab),
        c == '\u{0008}' ==> decoded_of(DecodedKey::Unicode(c)) == Some(Key::Backspace),
        c == '\u{007F}' ==> decoded_of(DecodedKey::Unicode(c)) == Some(Key::Delete),
        c == '\u{001B}' ==> decoded_of(DecodedKey::Unicode(c)) == Some(Key::Escape),
        !(c == '\n' || c == '\r' || c == '\t' || c == '\u{0008}' || c == '\u{007F}' || c == '\u{001B}')
            ==> decoded_of(DecodedKey::Unicode(c)) == Some(Key::Character(c)),
{
}

/// With control or alt held, the shortcut letters and digits are typed in
/// lower case whatever the layout made of them.
pub proof fn lemma_shortcut_letters()
    ensures
        shortcut_of(KeyCode::A) == Some(Key::Character('a')),
        shortcut_of(KeyCode::C) == Some(Key::Character('c')),
        shortcut_of(KeyCode::F) == Some(Key::Character('f')),
        shortcut_of(KeyCode::M) == Some(Key::Character('m')),
        shortcut_of(KeyCode::N) == Some(Key::Character('n')),
        shortcut_of(KeyCode::P) == Some(Key::Character('p')),
        shortcut_of(KeyCode::R) == Some(Key::Character('r')),
        shortcut_of(KeyCode::V) == Some(Key::Character('v')),
        shortcut_of(KeyCode::W) == Some(Key::Character('w')),
        shortcut_of(KeyCode::X) == Some(Key::Character('x')),
        shortcut_of(KeyCode::Key1) == Some(Key::Character('1')),
        shortcut_of(KeyCode::Key2) == Some(Key::Character('2')),
        shortcut_of(KeyCode::Key3) == Some(Key::Character('3')),
        shortcut_of(KeyCode::Key4) == Some(Key::Character('4')),
        forall|k: KeyCode| #[trigger] special_of(k) is Some ==> shortcut_of(k) == special_of(k),
{
}

} // verus!
