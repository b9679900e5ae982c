//! Keyboard and mouse state with edge detection and action bindings.
//!
//! Keys are identified by integer codes that the host assigns; the state
//! remembers which keys and buttons are down now and which were down when
//! the frame began, and answers what was pressed or released in between.

use std::collections::HashSet;
use vstd::prelude::*;

verus! {

broadcast use vstd::std_specs::hash::group_hash_axioms;

/// Bit of the shift modifier.
pub const SHIFT: u8 = 0b0001;

/// Bit of the control modifier.
pub const CTRL: u8 = 0b0010;

/// Bit of the alt modifier.
pub const ALT: u8 = 0b0100;

/// Bit of the super modifier.
pub const SUPER: u8 = 0b1000;

/// All modifier bits.
pub const ALL_MODS: u8 = 0b1111;

/// A set of keyboard modifiers, one bit each.
#[derive(Clone, Copy, Debug, PartialEq, Eq, Structural, Hash)]
pub struct Mods {
    bits: u8,
}

impl Mods {
    /// The modifier bits that are set.
    pub closed spec fn spec_bits(self) -> u8 {
        self.bits
    }

    /// No modifier.
    pub fn empty() -> (mods: Mods)
        ensures
            mods.spec_bits() == 0,
    {
        Mods { bits: 0 }
    }

    /// The modifiers whose bits are set in `bits`; bits that name no
    /// modifier are dropped.
    pub fn from_bits_truncate(bits: u8) -> (mods: Mods)
        ensures
            mods.spec_bits() == bits & ALL_MODS,
    {
        Mods { bits: bits & ALL_MODS }
    }

    /// The modifier bits that are set.
    pub fn bits(self) -> (bits: u8)
        ensures
            bits == self.spec_bits(),
    {
        self.bits
    }

    /// Whether no modifier is set.
    pub fn is_empty(self) -> (none: bool)
        ensures
            none == (self.spec_bits() == 0),
    {
        self.bits == 0
    }

    /// Whether every modifier of `other` is set in `self`.
    pub fn contains(self, other: Mods) -> (all: bool)
        ensures
            all == (self.spec_bits() & other.spec_bits() == other.spec_bits()),
    {
        self.bits & other.bits == other.bits
    }

    /// The modifiers set in `self` or in `other`.
    pub fn union(self, other: Mods) -> (both: Mods)
        ensures
            both.spec_bits() == self.spec_bits() | other.spec_bits(),
    {
        Mods { bits: self.bits | other.bits }
    }
}

/// Two sets of modifiers with the same bits are the same set.
pub proof fn lemma_mods_equal_by_bits(a: Mods, b: Mods)
    requires
        a.spec_bits() == b.spec_bits(),
    ensures
        a == b,
{
}

/// A key together with the modifiers that must be held with it. A chord
/// without modifiers is satisfied whatever modifiers are held.
#[derive(Clone, Copy, Debug, PartialEq, Eq, Structural, Hash)]
pub struct KeyChord {
    pub key: u32,
    pub mods: Mods,
}

/// A button of the mouse.
#[derive(Clone, Copy, Debug, PartialEq, Eq, Structural, Hash)]
pub enum MouseButton {
    Left,
    Right,
    Middle,
    Other(u16),
}

/// The integer that stands for a mouse button: 0, 1 and 2 for left, right
/// and middle, and `3 + n` for the `n`-th other button.
pub open spec fn button_code(button: MouseButton) -> u32 {
    match button {
        MouseButton::Left => 0,
        MouseButton::Right => 1,
        MouseButton::Middle => 2,
        MouseButton::Other(n) => (3 + n) as u32,
    }
}

/// Different buttons have different codes.
pub proof fn lemma_button_code_injective(a: MouseButton, b: MouseButton)
    requires
        button_code(a) == button_code(b),
    ensures
        a == b,
{
}

/// What the window system reports, as far as key and button state goes.
#[derive(Clone, Copy, Debug)]
pub enum InputEvent {
    /// A key went down or up. `code` is `None` for a key without a code.
    Key { code: Option<u32>, pressed: bool },
    /// A mouse button went down or up.
    Mouse { button: MouseButton, pressed: bool },
    /// Anything else.
    Other,
}

/// A key bound to a named action.
pub struct Binding {
    pub name: String,
    pub chord: KeyChord,
}

/// What the input state is, mathematically.
pub struct InputView {
    /// Keys that are down.
    pub keys_now: Set<u32>,
    /// Keys that were down when the frame began.
    pub keys_prev: Set<u32>,
    /// Codes of the mouse buttons that are down.
    pub buttons_now: Set<u32>,
    /// Codes of the mouse buttons that were down when the frame began.
    pub buttons_prev: Set<u32>,
    /// The action bindings, in the order in which they were made: the name
    /// of the action and the chord bound to it.
    pub bindings: Seq<(Seq<char>, KeyChord)>,
}

/// Whether a chord is satisfied when the key set `keys` is down and the
/// modifiers `mods` are held.
pub open spec fn chord_down(chord: KeyChord, keys: Set<u32>, mods: Mods) -> bool {
    keys.contains(chord.key) && (chord.mods.spec_bits() == 0 || chord.mods == mods)
}

/// Whether a chord's key went down since the frame began, with the
/// modifiers `mods` held.
pub open spec fn chord_struck(chord: KeyChord, now: Set<u32>, prev: Set<u32>, mods: Mods) -> bool {
    now.contains(chord.key) && !prev.contains(chord.key) && (chord.mods.spec_bits() == 0
        || chord.mods == mods)
}

/// The state after an event.
pub open spec fn after_event(pre: InputView, e: InputEvent) -> InputView {
    match e {
        InputEvent::Key { code: Some(key), pressed } => InputView {
            keys_now: if pressed {
                pre.keys_now.insert(key)
            } else {
                pre.keys_now.remove(key)
            },
            ..pre
        },
        InputEvent::Mouse { button, pressed } => InputView {
            buttons_now: if pressed {
                pre.buttons_now.insert(button_code(button))
            } else {
                pre.buttons_now.remove(button_code(button))
            },
            ..pre
        },
        _ => pre,
    }
}

/// Keyboard and mouse state.
pub struct Input {
    pressed_now: HashSet<u32>,
    pressed_prev: HashSet<u32>,
    mouse_pressed_now: HashSet<u32>,
    mouse_pressed_prev: HashSet<u32>,
    actions: Vec<Binding>,
}

/// The bindings as pairs of an action's name and its chord.
pub open spec fn bindings_view(actions: Seq<Binding>) -> Seq<(Seq<char>, KeyChord)> {
    Seq::new(actions.len(), |i: int| (actions[i].name@, actions[i].chord))
}

impl View for Input {
    type V = InputView;

    closed spec fn view(&self) -> InputView {
        InputView {
            keys_now: self.pressed_now@,
            keys_prev: self.pressed_prev@,
            buttons_now: self.mouse_pressed_now@,
            buttons_prev: self.mouse_pressed_prev@,
            bindings: bindings_view(self.actions@),
        }
    }
}

/// Copies a set of codes with `HashSet::clone`: the copy holds the same
/// codes as the set copied.
#[verifier::external_body]
fn copy_codes(codes: &HashSet<u32>) -> (copy: HashSet<u32>)
    ensures
        copy@ == codes@,
{
    codes.clone()
}

/// The code of a mouse button.
pub fn code_of(button: MouseButton) -> (code: u32)
    ensures
        code == button_code(button),
{
    match button {
        MouseButton::Left => 0,
        MouseButton::Right => 1,
        MouseButton::Middle => 2,
        MouseButton::Other(n) => 3 + n as u32,
    }
}

impl Input {
    /// A state with nothing down and no action bound.
    pub fn new() -> (input: Self)
        ensures
            input@.keys_now == Set::<u32>::empty(),
            input@.keys_prev == Set::<u32>::empty(),
            input@.buttons_now == Set::<u32>::empty(),
            input@.buttons_prev == Set::<u32>::empty(),
            input@.bindings == Seq::<(Seq<char>, KeyChord)>::empty(),
    {
        let input = Input {
            pressed_now: HashSet::new(),
            pressed_prev: HashSet::new(),
            mouse_pressed_now: HashSet::new(),
            mouse_pressed_prev: HashSet::new(),
            actions: Vec::new(),
        };
        proof {
            assert(input@.bindings =~= Seq::<(Seq<char>, KeyChord)>::empty());
        }
        input
    }

    /// Starts a frame: what is down now is remembered as the state at the
    /// start of the frame, so that nothing counts as just pressed or just
    /// released until the next event.
    pub fn begin_frame(&mut self)
        ensures
            final(self)@ == (InputView {
                keys_prev: old(self)@.keys_now,
                buttons_prev: old(self)@.buttons_now,
                ..old(self)@
            }),
    {
        self.pressed_prev = copy_codes(&self.pressed_now);
        self.mouse_pressed_prev = copy_codes(&self.mouse_pressed_now);
    }

    /// Takes in one event: a key or button that went down joins those that
    /// are down, one that went up leaves them. Other events change nothing.
    pub fn handle_window_event(&mut self, e: &InputEvent)
        ensures
            final(self)@ == after_event(old(self)@, *e),
    {
        match *e {
            InputEvent::Key { code, pressed } => {
                if let Some(key) = code {
                    if pressed {
                        self.pressed_now.insert(key);
                    } else {
                        self.pressed_now.remove(&key);
                    }
                }
            },
            InputEvent::Mouse { button, pressed } => {
                let code = code_of(button);
                if pressed {
                    self.mouse_pressed_now.insert(code);
                } else {
                    self.mouse_pressed_now.remove(&code);
                }
            },
            InputEvent::Other => {},
        }
    }

    /// Whether `key` is down.
    pub fn pressed(&self, key: u32) -> (down: bool)
        ensures
            down == self@.keys_now.contains(key),
    {
        self.pressed_now.contains(&key)
    }

    /// Whether `key` went down since the frame began.
    pub fn just_pressed(&self, key: u32) -> (struck: bool)
        ensures
            struck == (self@.keys_now.contains(key) && !self@.keys_prev.contains(key)),
    {
        self.pressed_now.contains(&key) && !self.pressed_prev.contains(&key)
    }

    /// Whether `key` went up since the frame began.
    pub fn just_released(&self, key: u32) -> (released: bool)
        ensures
            released == (!self@.keys_now.contains(key) && self@.keys_prev.contains(key)),
    {
        !self.pressed_now.contains(&key) && self.pressed_prev.contains(&key)
    }

    /// Whether the mouse button is down.
    pub fn mouse_pressed(&self, b: MouseButton) -> (down: bool)
        ensures
            down == self@.buttons_now.contains(button_code(b)),
    {
        let code = code_of(b);
        self.mouse_pressed_now.contains(&code)
    }

    /// Whether the mouse button went up since the frame began.
    pub fn mouse_clicked(&self, b: MouseButton) -> (clicked: bool)
        ensures
            clicked == (self@.buttons_prev.contains(button_code(b))
                && !self@.buttons_now.contains(button_code(b))),
    {
        let code = code_of(b);
        self.mouse_pressed_prev.contains(&code) && !self.mouse_pressed_now.contains(&code)
    }

    /// Whether the mouse button went down since the frame began.
    pub fn mouse_just_pressed(&self, b: MouseButton) -> (struck: bool)
        ensures
            struck == (self@.buttons_now.contains(button_code(b))
                && !self@.buttons_prev.contains(button_code(b))),
    {
        let code = code_of(b);
        self.mouse_pressed_now.contains(&code) && !self.mouse_pressed_prev.contains(&code)
    }

    /// Binds one more chord to the action `name`.
    pub fn bind_action(&mut self, name: &str, chord: KeyChord)
        ensures
            final(self)@ == (InputView {
                bindings: old(self)@.bindings.push((name@, chord)),
                ..old(self)@
            }),
    {
        self.actions.push(Binding { name: String::from_str(name), chord });
        proof {
            assert(final(self)@.bindings =~= old(self)@.bindings.push((name@, chord)));
        }
    }

    /// Whether a chord bound to the action `name` is down while the
    /// modifiers `mods` are held.
    pub fn action_pressed(&self, name: &str, mods: Mods) -> (down: bool)
        ensures
            down == exists|k: int|
                0 <= k < self@.bindings.len() && (#[trigger] self@.bindings[k]).0 == name@
                    && chord_down(self@.bindings[k].1, self@.keys_now, mods),
    {
        let wanted = String::from_str(name);
        let mut k: usize = 0;
        while k < self.actions.len()
            invariant
                k <= self.actions@.len(),
                wanted@ == name@,
                forall|i: int|
                    0 <= i < k ==> !((#[trigger] self@.bindings[i]).0 == name@ && chord_down(
                        self@.bindings[i].1,
                        self@.keys_now,
                        mods,
                    )),
            decreases self.actions@.len() - k,
        {
            let binding = &self.actions[k];
            proof {
                assert(self@.bindings[k as int] == (binding.name@, binding.chord));
            }
            if binding.name == wanted && self.pressed(binding.chord.key) && (
            binding.chord.mods.is_empty() || binding.chord.mods == mods) {
                return true;
            }
            k += 1;
        }
        false
    }

    /// Whether the key of a chord bound to the action `name` went down since
    /// the frame began, while the modifiers `mods` are held.
    pub fn action_just_pressed(&self, name: &str, mods: Mods) -> (struck: bool)
        ensures
            struck == exists|k: int|
                0 <= k < self@.bindings.len() && (#[trigger] self@.bindings[k]).0 == name@
                    && chord_struck(
                    self@.bindings[k].1,
                    self@.keys_now,
                    self@.keys_prev,
                    mods,
                ),
    {
        let wanted = String::from_str(name);
        let mut k: usize = 0;
        while k < self.actions.len()
            invariant
                k <= self.actions@.len(),
                wanted@ == name@,
                forall|i: int|
                    0 <= i < k ==> !((#[trigger] self@.bindings[i]).0 == name@ && chord_struck(
                        self@.bindings[i].1,
                        self@.keys_now,
                        self@.keys_prev,
                        mods,
                    )),
            decreases self.actions@.len() - k,
        {
            let binding = &self.actions[k];
            proof {
                assert(self@.bindings[k as int] == (binding.name@, binding.chord));
            }
            if binding.name == wanted && self.just_pressed(binding.chord.key) && (
            binding.chord.mods.is_empty() || binding.chord.mods == mods) {
                return true;
            }
            k += 1;
        }
        false
    }

    /// The chord of `key` with `mods`.
    pub fn chord(key: u32, mods: Mods) -> (chord: KeyChord)
        ensures
            chord == (KeyChord { key, mods }),
    {
        KeyChord { key, mods }
    }
}

} // verus!
