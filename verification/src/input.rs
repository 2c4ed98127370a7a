//! Abstract pad. The handheld's face layout is the mnemonic: X sits on top
//! of the diamond and sets ⊤; B sits at the bottom and sets ⊥.

use vstd::prelude::*;

verus! {

#[derive(Clone, Copy, Debug, PartialEq, Eq, Hash, Structural)]
pub enum Button {
    Up,
    Down,
    Left,
    Right,
    /// Zoom / confirm.
    A,
    /// Set ⊥ / back.
    B,
    /// Set ⊤.
    X,
    /// Ghost preview.
    Y,
    Start,
    Select,
}

/// Every button, in pad order.
pub open spec fn all_buttons_of() -> Seq<Button> {
    seq![
        Button::Up,
        Button::Down,
        Button::Left,
        Button::Right,
        Button::A,
        Button::B,
        Button::X,
        Button::Y,
        Button::Start,
        Button::Select,
    ]
}

pub fn all_buttons() -> (v: [Button; 10])
    ensures
        v@ == all_buttons_of(),
{
    let v = [
        Button::Up,
        Button::Down,
        Button::Left,
        Button::Right,
        Button::A,
        Button::B,
        Button::X,
        Button::Y,
        Button::Start,
        Button::Select,
    ];
    assert(v@ =~= all_buttons_of());
    v
}

/// What tapping a zone does. Menus encode navigation as a button sequence,
/// so a tap behaves exactly like keys — one input model everywhere.
#[derive(Debug)]
pub enum TapAction {
    /// Synthesize these presses in order.
    Press(Vec<Button>),
    /// Point the play cursor at this atom occurrence.
    Cursor(usize),
}

impl Clone for TapAction {
    fn clone(&self) -> (r: TapAction)
        ensures
            match (r, *self) {
                (TapAction::Press(a), TapAction::Press(b)) => a@ == b@,
                (TapAction::Cursor(a), TapAction::Cursor(b)) => a == b,
                _ => false,
            },
    {
        match self {
            TapAction::Press(v) => TapAction::Press(v.clone()),
            TapAction::Cursor(i) => TapAction::Cursor(*i),
        }
    }
}

/// `n` presses of `b`.
pub open spec fn presses(b: Button, n: nat) -> Seq<Button> {
    Seq::new(n, |i: int| b)
}

/// Walk a menu from `sel` to `target` one step at a time, then confirm.
pub open spec fn menu_taps_of(sel: nat, target: nat) -> Seq<Button> {
    if target >= sel {
        presses(Button::Down, (target - sel) as nat).push(Button::A)
    } else {
        presses(Button::Up, (sel - target) as nat).push(Button::A)
    }
}

/// The button sequence that walks a menu from `sel` to `target`, then
/// confirms.
pub fn menu_taps(sel: usize, target: usize) -> (seq: Vec<Button>)
    ensures
        seq@ == menu_taps_of(sel as nat, target as nat),
{
    let mut seq: Vec<Button> = Vec::new();
    let (b, n) = if target >= sel {
        (Button::Down, target - sel)
    } else {
        (Button::Up, sel - target)
    };
    let mut i: usize = 0;
    while i < n
        invariant
            i <= n,
            seq@ == presses(b, i as nat),
        decreases n - i,
    {
        seq.push(b);
        i = i + 1;
        assert(seq@ =~= presses(b, i as nat));
    }
    seq.push(Button::A);
    assert(seq@ =~= menu_taps_of(sel as nat, target as nat));
    seq
}

/// The d-pad directions, the only buttons that repeat while held.
pub open spec fn is_direction(b: Button) -> bool {
    b is Up || b is Down || b is Left || b is Right
}

/// Milliseconds a direction is held before its first repeat.
pub const REPEAT_DELAY: u32 = 380;

/// Milliseconds between repeats after the first.
pub const REPEAT_RATE: u32 = 120;

/// How long the next repeat waits: the delay before the first, then the rate.
pub open spec fn threshold(fired: bool) -> nat {
    if fired {
        REPEAT_RATE as nat
    } else {
        REPEAT_DELAY as nat
    }
}

/// Repeats owed after `t` ms held (counting from the last repeat).
pub open spec fn repeat_count(fired: bool, t: nat) -> nat {
    if fired {
        t / (REPEAT_RATE as nat)
    } else if t < REPEAT_DELAY {
        0
    } else {
        1 + ((t - REPEAT_DELAY) as nat) / (REPEAT_RATE as nat)
    }
}

/// The ms left over after those repeats.
pub open spec fn repeat_rest(fired: bool, t: nat) -> nat {
    if fired {
        t % (REPEAT_RATE as nat)
    } else if t < REPEAT_DELAY {
        t
    } else {
        ((t - REPEAT_DELAY) as nat) % (REPEAT_RATE as nat)
    }
}

/// Auto-repeat for held d-pad directions, synthesized app-side so every
/// frontend behaves identically.
pub struct Repeater {
    /// The held direction and the ms since it was pressed or last repeated.
    held: Option<(Button, u32)>,
    fired_once: bool,
}

pub struct RepeaterView {
    pub held: Option<(Button, u32)>,
    pub fired_once: bool,
}

impl View for Repeater {
    type V = RepeaterView;

    closed spec fn view(&self) -> RepeaterView {
        RepeaterView { held: self.held, fired_once: self.fired_once }
    }
}

/// The ms the held direction has been counting, 0 when none is held.
pub open spec fn held_ms(v: RepeaterView) -> nat {
    match v.held {
        Some((_, t)) => t as nat,
        None => 0,
    }
}

impl Default for Repeater {
    fn default() -> (r: Repeater)
        ensures
            r@.held is None,
            !r@.fired_once,
    {
        Self::new()
    }
}

impl Repeater {
    pub fn new() -> (r: Repeater)
        ensures
            r@.held is None,
            !r@.fired_once,
    {
        Repeater { held: None, fired_once: false }
    }

    /// A direction starts counting from zero; other buttons do not repeat.
    /// The ms the held direction has been counting.
    pub fn held_for(&self) -> (t: u32)
        ensures
            t == held_ms(self@),
    {
        match self.held {
            Some((_, t)) => t,
            None => 0,
        }
    }

    pub fn press(&mut self, b: Button)
        ensures
            is_direction(b) ==> final(self)@.held == Some((b, 0u32)) && !final(self)@.fired_once,
            !is_direction(b) ==> final(self)@ == old(self)@,
    {
        if matches!(b, Button::Up | Button::Down | Button::Left | Button::Right) {
            self.held = Some((b, 0));
            self.fired_once = false;
        }
    }

    /// Releasing the held direction stops it; other releases change nothing.
    pub fn release(&mut self, b: Button)
        ensures
            (match old(self)@.held {
                Some((h, _)) => h == b,
                None => false,
            }) ==> final(self)@.held is None && final(self)@.fired_once == old(self)@.fired_once,
            !(match old(self)@.held {
                Some((h, _)) => h == b,
                None => false,
            }) ==> final(self)@ == old(self)@,
    {
        if let Some((h, _)) = self.held {
            if h == b {
                self.held = None;
            }
        }
    }

    /// Advance time; returns synthesized repeat presses.
    pub fn tick(&mut self, dt_ms: u32) -> (out: Vec<Button>)
        requires
            held_ms(old(self)@) + dt_ms <= u32::MAX,
        ensures
            match old(self)@.held {
                None => out@.len() == 0 && final(self)@ == old(self)@,
                Some((b, t)) => {
                    let total = (t + dt_ms) as nat;
                    let n = repeat_count(old(self)@.fired_once, total);
                    &&& out@ == presses(b, n)
                    &&& final(self)@.held == Some(
                        (b, repeat_rest(old(self)@.fired_once, total) as u32),
                    )
                    &&& final(self)@.fired_once == (old(self)@.fired_once || n > 0)
                    &&& repeat_rest(old(self)@.fired_once, total) < threshold(
                        final(self)@.fired_once,
                    )
                },
            },
    {
        let mut out: Vec<Button> = Vec::new();
        match self.held {
            None => {},
            Some((b, t0)) => {
                let ghost fired0 = self.fired_once;
                let ghost total = (t0 + dt_ms) as nat;
                let mut t: u32 = t0 + dt_ms;
                loop
                    invariant_except_break
                        out@ == presses(b, (repeat_count(fired0, total) - repeat_count(
                            self.fired_once,
                            t as nat,
                        )) as nat),
                        repeat_count(self.fired_once, t as nat) <= repeat_count(fired0, total),
                        repeat_rest(self.fired_once, t as nat) == repeat_rest(fired0, total),
                        self.fired_once == (fired0 || out@.len() > 0),
                        self.held == Some((b, t0)),
                    ensures
                        out@ == presses(b, repeat_count(fired0, total)),
                        t as nat == repeat_rest(fired0, total),
                        t < threshold(self.fired_once),
                        self.fired_once == (fired0 || out@.len() > 0),
                        self.held == Some((b, t0)),
                    decreases t,
                {
                    let threshold: u32 = if self.fired_once {
                        REPEAT_RATE
                    } else {
                        REPEAT_DELAY
                    };
                    if t < threshold {
                        break;
                    }
                    t = t - threshold;
                    self.fired_once = true;
                    out.push(b);
                    assert(out@ =~= presses(b, (repeat_count(fired0, total) - repeat_count(
                        self.fired_once,
                        t as nat,
                    )) as nat));
                }
                self.held = Some((b, t));
            },
        }
        out
    }
}

/// The handheld's key codes (Linux input events) on the pad's buttons; the
/// menu key acts as START.
pub open spec fn map_key_of(code: u16) -> Option<Button> {
    if code == 103 {
        Some(Button::Up)
    } else if code == 108 {
        Some(Button::Down)
    } else if code == 105 {
        Some(Button::Left)
    } else if code == 106 {
        Some(Button::Right)
    } else if code == 57 {
        Some(Button::A)
    } else if code == 29 {
        Some(Button::B)
    } else if code == 42 {
        Some(Button::X)
    } else if code == 56 {
        Some(Button::Y)
    } else if code == 28 || code == 1 {
        Some(Button::Start)
    } else if code == 97 {
        Some(Button::Select)
    } else {
        None
    }
}

pub fn map_key(code: u16) -> (b: Option<Button>)
    ensures
        b == map_key_of(code),
{
    match code {
        103 => Some(Button::Up),  // KEY_UP
        108 => Some(Button::Down),  // KEY_DOWN
        105 => Some(Button::Left),  // KEY_LEFT
        106 => Some(Button::Right),  // KEY_RIGHT
        57 => Some(Button::A),  // KEY_SPACE
        29 => Some(Button::B),  // KEY_LEFTCTRL
        42 => Some(Button::X),  // KEY_LEFTSHIFT
        56 => Some(Button::Y),  // KEY_LEFTALT
        28 => Some(Button::Start),  // KEY_ENTER
        97 => Some(Button::Select),  // KEY_RIGHTCTRL
        1 => Some(Button::Start),  // KEY_ESC: the menu key
        _ => None,
    }
}

/// The pad button a host's key code names (0..=9, in pad order); front ends
/// whose host sends plain indices use it.
pub fn button_of_code(code: u32) -> (b: Option<Button>)
    ensures
        b == (if code < 10 {
            Some(all_buttons_of()[code as int])
        } else {
            None
        }),
{
    if code < 10 {
        let all = all_buttons();
        Some(all[code as usize])
    } else {
        None
    }
}

/// The keyboard keys a desktop window turns into pad buttons; every other
/// key is `Other`.
#[derive(Clone, Copy, Debug, PartialEq, Eq, Structural)]
pub enum Key {
    ArrowUp,
    ArrowDown,
    ArrowLeft,
    ArrowRight,
    KeyW,
    KeyS,
    KeyX,
    KeyT,
    KeyB,
    KeyF,
    KeyA,
    KeyZ,
    KeyY,
    KeyP,
    Enter,
    Escape,
    Tab,
    Backspace,
    Other,
}

/// The desktop layout: arrows (and W/S) steer, X/T set ⊤, B/F set ⊥, A/Z
/// zoom, Y/P peek, Enter/Escape open the menu, Tab/Backspace select.
pub open spec fn keyboard_button_of(k: Key) -> Option<Button> {
    match k {
        Key::ArrowUp | Key::KeyW => Some(Button::Up),
        Key::ArrowDown | Key::KeyS => Some(Button::Down),
        Key::ArrowLeft => Some(Button::Left),
        Key::ArrowRight => Some(Button::Right),
        Key::KeyX | Key::KeyT => Some(Button::X),
        Key::KeyB | Key::KeyF => Some(Button::B),
        Key::KeyA | Key::KeyZ => Some(Button::A),
        Key::KeyY | Key::KeyP => Some(Button::Y),
        Key::Enter | Key::Escape => Some(Button::Start),
        Key::Tab | Key::Backspace => Some(Button::Select),
        Key::Other => None,
    }
}

pub fn keyboard_button(k: Key) -> (b: Option<Button>)
    ensures
        b == keyboard_button_of(k),
{
    match k {
        Key::ArrowUp | Key::KeyW => Some(Button::Up),
        Key::ArrowDown | Key::KeyS => Some(Button::Down),
        Key::ArrowLeft => Some(Button::Left),
        Key::ArrowRight => Some(Button::Right),
        Key::KeyX | Key::KeyT => Some(Button::X),
        Key::KeyB | Key::KeyF => Some(Button::B),
        Key::KeyA | Key::KeyZ => Some(Button::A),
        Key::KeyY | Key::KeyP => Some(Button::Y),
        Key::Enter | Key::Escape => Some(Button::Start),
        Key::Tab | Key::Backspace => Some(Button::Select),
        Key::Other => None,
    }
}

} // verus!
