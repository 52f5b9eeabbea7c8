use vstd::prelude::*;
use std::collections::HashMap;

verus! {

broadcast use vstd::std_specs::hash::group_hash_axioms;

pub const MOVE_FORWARD: u32 = 17;
pub const MOVE_LEFT: u32 = 30;
pub const MOVE_BACKWARD: u32 = 31;
pub const MOVE_RIGHT: u32 = 32;
pub const MOVE_UP: u32 = 57;
pub const MOVE_DOWN: u32 = 42;
pub const TOGGLE_FLIGHT: u32 = 33;
pub const TOGGLE_CULLING: u32 = 46;

/// The state of a key or a mouse button
#[derive(Debug, Clone, Copy, PartialEq, Eq, Structural)]
pub enum ElementState {
    Pressed,
    Released,
}

/// A button of the mouse
#[derive(Debug, Clone, Copy, PartialEq, Eq, Structural)]
pub enum MouseButton {
    Left,
    Right,
    Middle,
    Other(u16),
}

/// The code under which the state of a mouse button is kept
pub open spec fn button_code(b: MouseButton) -> u32 {
    match b {
        MouseButton::Left => 0,
        MouseButton::Right => 1,
        MouseButton::Middle => 2,
        MouseButton::Other(x) => (x + 3) as u32,
    }
}

fn button_code_exec(b: MouseButton) -> (c: u32)
    ensures
        c == button_code(b),
{
    match b {
        MouseButton::Left => 0,
        MouseButton::Right => 1,
        MouseButton::Middle => 2,
        MouseButton::Other(x) => x as u32 + 3,
    }
}

/// Distinct buttons are kept under distinct codes
pub proof fn lemma_button_code_injective(a: MouseButton, b: MouseButton)
    ensures
        button_code(a) == button_code(b) <==> a == b,
{
}

/// The keys of the keyboard that move the player, and whether the player flies
#[derive(Debug, Clone, Copy, PartialEq, Eq, Structural)]
pub struct KeyInput {
    pub key_move_forward: bool,
    pub key_move_left: bool,
    pub key_move_backward: bool,
    pub key_move_right: bool,
    pub key_move_up: bool,
    pub key_move_down: bool,
    pub flying: bool,
}

/// The state of the keyboard and mouse buttons.
pub struct InputState {
    keys: HashMap<u32, ElementState>,
    mouse_buttons: HashMap<u32, ElementState>,
    modifiers_state: u32,
    flying: bool,
    enable_culling: bool,
}

/// The last known state of an element in a map of states, if any
pub open spec fn known_state(m: Map<u32, ElementState>, code: u32) -> Option<ElementState> {
    if m.contains_key(code) {
        Some(m[code])
    } else {
        None
    }
}

impl InputState {
    /// The last known state of each key, by scancode
    pub closed spec fn key_states(&self) -> Map<u32, ElementState> {
        self.keys@
    }

    /// The last known state of a mouse button
    pub closed spec fn button_state(&self, b: MouseButton) -> Option<ElementState> {
        known_state(self.mouse_buttons@, button_code(b))
    }

    /// The modifier keys held, as bits
    pub closed spec fn modifiers(&self) -> u32 {
        self.modifiers_state
    }

    /// Whether the player flies
    pub closed spec fn is_flying(&self) -> bool {
        self.flying
    }

    /// Whether the chunks out of sight are left out of rendering
    pub closed spec fn culling(&self) -> bool {
        self.enable_culling
    }

    /// Whether the chunks out of sight are left out of rendering
    pub fn enable_culling(&self) -> (b: bool)
        ensures
            b == self.culling(),
    {
        self.enable_culling
    }

    pub fn new() -> (s: InputState)
        ensures
            s.key_states() == Map::<u32, ElementState>::empty(),
            forall|b: MouseButton| #[trigger] s.button_state(b) is None,
            s.modifiers() == 0,
            s.is_flying(),
            s.culling(),
    {
        InputState {
            keys: HashMap::new(),
            mouse_buttons: HashMap::new(),
            modifiers_state: 0,
            flying: true,
            enable_culling: true,
        }
    }

    /// Process a keyboard input, returning whether the state of the key changed
    /// or not. Releasing the flight or culling key toggles flight or culling.
    pub fn process_keyboard_input(&mut self, scancode: u32, state: ElementState) -> (changed: bool)
        ensures
            final(self).key_states() == old(self).key_states().insert(scancode, state),
            final(self).is_flying() == (old(self).is_flying() != (scancode == TOGGLE_FLIGHT && known_state(
                old(self).key_states(),
                scancode,
            ) == Some(ElementState::Pressed))),
            final(self).culling() == (old(self).culling() != (scancode == TOGGLE_CULLING && known_state(
                old(self).key_states(),
                scancode,
            ) == Some(ElementState::Pressed))),
            forall|b: MouseButton| #[trigger] final(self).button_state(b) == old(self).button_state(b),
            final(self).modifiers() == old(self).modifiers(),
            changed == (known_state(old(self).key_states(), scancode) != Some(state)),
    {
        let previous_state = match self.keys.get(&scancode) {
            Some(s) => Some(*s),
            None => None,
        };
        self.keys.insert(scancode, state);
        if previous_state == Some(ElementState::Pressed) {
            if scancode == TOGGLE_FLIGHT {
                self.flying = !self.flying;
            }
            if scancode == TOGGLE_CULLING {
                self.enable_culling = !self.enable_culling;
            }
        }
        previous_state != Some(state)
    }

    /// Process a mouse input, returning whether the state of the button changed or not
    pub fn process_mouse_input(&mut self, state: ElementState, button: MouseButton) -> (changed: bool)
        ensures
            final(self).button_state(button) == Some(state),
            forall|b: MouseButton| b != button ==> #[trigger] final(self).button_state(b) == old(self).button_state(b),
            final(self).key_states() == old(self).key_states(),
            final(self).modifiers() == old(self).modifiers(),
            final(self).is_flying() == old(self).is_flying(),
            final(self).culling() == old(self).culling(),
            changed == (old(self).button_state(button) != Some(state)),
    {
        let code = button_code_exec(button);
        let previous_state = match self.mouse_buttons.get(&code) {
            Some(s) => Some(*s),
            None => None,
        };
        self.mouse_buttons.insert(code, state);
        proof {
            assert forall|b: MouseButton| b != button implies #[trigger] self.button_state(b) == old(self).button_state(b) by {
                lemma_button_code_injective(b, button);
            }
        }
        previous_state != Some(state)
    }

    /// Update the modifiers
    pub fn set_modifiers_state(&mut self, modifiers_state: u32)
        ensures
            final(self).modifiers() == modifiers_state,
            final(self).key_states() == old(self).key_states(),
            forall|b: MouseButton| #[trigger] final(self).button_state(b) == old(self).button_state(b),
            final(self).is_flying() == old(self).is_flying(),
            final(self).culling() == old(self).culling(),
    {
        self.modifiers_state = modifiers_state;
    }

    /// The state of a key; a key never seen is released
    pub fn get_key_state(&self, scancode: u32) -> (s: ElementState)
        ensures
            s == (match known_state(self.key_states(), scancode) {
                Some(k) => k,
                None => ElementState::Released,
            }),
    {
        match self.keys.get(&scancode) {
            Some(s) => *s,
            None => ElementState::Released,
        }
    }

    /// Forget the state of every key and button, and the modifiers
    pub fn clear(&mut self)
        ensures
            final(self).key_states() == Map::<u32, ElementState>::empty(),
            forall|b: MouseButton| #[trigger] final(self).button_state(b) is None,
            final(self).modifiers() == 0,
            final(self).is_flying() == old(self).is_flying(),
            final(self).culling() == old(self).culling(),
    {
        self.keys.clear();
        self.mouse_buttons.clear();
        self.modifiers_state = 0;
    }

    fn is_key_pressed(&self, scancode: u32) -> (b: bool)
        ensures
            b == (known_state(self.key_states(), scancode) == Some(ElementState::Pressed)),
    {
        match self.get_key_state(scancode) {
            ElementState::Pressed => true,
            ElementState::Released => false,
        }
    }

    /// The keys that move the player, each held only if movement is allowed, and
    /// whether the player flies
    pub fn get_physics_input(&self, allow_movement: bool) -> (k: KeyInput)
        ensures
            k.key_move_forward == (allow_movement && self.pressed(MOVE_FORWARD)),
            k.key_move_left == (allow_movement && self.pressed(MOVE_LEFT)),
            k.key_move_backward == (allow_movement && self.pressed(MOVE_BACKWARD)),
            k.key_move_right == (allow_movement && self.pressed(MOVE_RIGHT)),
            k.key_move_up == (allow_movement && self.pressed(MOVE_UP)),
            k.key_move_down == (allow_movement && self.pressed(MOVE_DOWN)),
            k.flying == self.is_flying(),
    {
        KeyInput {
            key_move_forward: allow_movement && self.is_key_pressed(MOVE_FORWARD),
            key_move_left: allow_movement && self.is_key_pressed(MOVE_LEFT),
            key_move_backward: allow_movement && self.is_key_pressed(MOVE_BACKWARD),
            key_move_right: allow_movement && self.is_key_pressed(MOVE_RIGHT),
            key_move_up: allow_movement && self.is_key_pressed(MOVE_UP),
            key_move_down: allow_movement && self.is_key_pressed(MOVE_DOWN),
            flying: self.flying,
        }
    }

    /// The key was last seen pressed
    pub open spec fn pressed(&self, scancode: u32) -> bool {
        known_state(self.key_states(), scancode) == Some(ElementState::Pressed)
    }
}

} // verus!
