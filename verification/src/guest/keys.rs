//! Keyboard state as the guest receives it: two 64-bit masks (current and
//! previous frame), one bit per key.

use vstd::prelude::*;

verus! {

/// The keys the guest understands. Each has a fixed bit position.
#[derive(PartialEq, Eq, Structural, Debug, Copy, Clone)]
#[allow(missing_docs)]
pub enum Key {
    A,
    B,
    C,
    D,
    E,
    F,
    G,
    H,
    I,
    J,
    K,
    L,
    M,
    N,
    O,
    P,
    Q,
    R,
    S,
    T,
    U,
    V,
    W,
    X,
    Y,
    Z,
    Up,
    Down,
    Left,
    Right,
    Num0,
    Num1,
    Num2,
    Num3,
    Num4,
    Num5,
    Num6,
    Num7,
    Num8,
    Num9,
}

impl Key {
    /// The bit position of this key in a mask: the letters take bits 0 to
    /// 25, the arrows and digits bits 32 to 45.
    pub fn code(self) -> (c: u8)
        ensures
            c == self.spec_code(),
    {
        match self {
            Key::A => 0,
            Key::B => 1,
            Key::C => 2,
            Key::D => 3,
            Key::E => 4,
            Key::F => 5,
            Key::G => 6,
            Key::H => 7,
            Key::I => 8,
            Key::J => 9,
            Key::K => 10,
            Key::L => 11,
            Key::M => 12,
            Key::N => 13,
            Key::O => 14,
            Key::P => 15,
            Key::Q => 16,
            Key::R => 17,
            Key::S => 18,
            Key::T => 19,
            Key::U => 20,
            Key::V => 21,
            Key::W => 22,
            Key::X => 23,
            Key::Y => 24,
            Key::Z => 25,
            Key::Up => 32,
            Key::Down => 33,
            Key::Left => 34,
            Key::Right => 35,
            Key::Num0 => 36,
            Key::Num1 => 37,
            Key::Num2 => 38,
            Key::Num3 => 39,
            Key::Num4 => 40,
            Key::Num5 => 41,
            Key::Num6 => 42,
            Key::Num7 => 43,
            Key::Num8 => 44,
            Key::Num9 => 45,
        }
    }

    /// The bit position, at the specification level.
    pub open spec fn spec_code(self) -> u8 {
        match self {
            Key::A => 0,
            Key::B => 1,
            Key::C => 2,
            Key::D => 3,
            Key::E => 4,
            Key::F => 5,
            Key::G => 6,
            Key::H => 7,
            Key::I => 8,
            Key::J => 9,
            Key::K => 10,
            Key::L => 11,
            Key::M => 12,
            Key::N => 13,
            Key::O => 14,
            Key::P => 15,
            Key::Q => 16,
            Key::R => 17,
            Key::S => 18,
            Key::T => 19,
            Key::U => 20,
            Key::V => 21,
            Key::W => 22,
            Key::X => 23,
            Key::Y => 24,
            Key::Z => 25,
            Key::Up => 32,
            Key::Down => 33,
            Key::Left => 34,
            Key::Right => 35,
            Key::Num0 => 36,
            Key::Num1 => 37,
            Key::Num2 => 38,
            Key::Num3 => 39,
            Key::Num4 => 40,
            Key::Num5 => 41,
            Key::Num6 => 42,
            Key::Num7 => 43,
            Key::Num8 => 44,
            Key::Num9 => 45,
        }
    }
}

/// Whether the bit for `code` is set in `mask`.
pub open spec fn key_down(mask: u64, code: u8) -> bool {
    (mask >> code) & 1 != 0
}

/// This frame's and the previous frame's key masks.
#[derive(Debug, Copy, Clone)]
pub struct KeyboardState {
    old_keys: u64,
    keys: u64,
}

impl KeyboardState {
    /// This frame's mask, at the specification level.
    pub closed spec fn spec_keys(&self) -> u64 {
        self.keys
    }

    /// The previous frame's mask, at the specification level.
    pub closed spec fn spec_old_keys(&self) -> u64 {
        self.old_keys
    }

    /// Assembles the masks from their 32-bit halves, as the wire carries
    /// them: letters in the low half, the other keys in the high half.
    pub fn new(letters: u32, old_letters: u32, other: u32, old_other: u32) -> (r: KeyboardState)
        ensures
            r.spec_keys() == ((other as u64) << 32) + letters as u64,
            r.spec_old_keys() == ((old_other as u64) << 32) + old_letters as u64,
    {
        proof {
            let hi = other as u64;
            let lo = letters as u64;
            assert(hi <= 0xFFFFFFFF && lo <= 0xFFFFFFFF ==> (hi << 32) + lo <= u64::MAX)
                by (bit_vector);
            let hi2 = old_other as u64;
            let lo2 = old_letters as u64;
            assert(hi2 <= 0xFFFFFFFF && lo2 <= 0xFFFFFFFF ==> (hi2 << 32) + lo2 <= u64::MAX)
                by (bit_vector);
        }
        let keys = ((other as u64) << 32u64) + letters as u64;
        let old_keys = ((old_other as u64) << 32u64) + old_letters as u64;
        KeyboardState { keys, old_keys }
    }

    /// The key is down this frame.
    pub fn is_pressed(&self, key: Key) -> (r: bool)
        ensures
            r == key_down(self.spec_keys(), key.spec_code()),
    {
        let code = key.code();
        (self.keys >> code as u64) & 1 != 0
    }

    /// The key was down last frame.
    pub fn was_pressed(&self, key: Key) -> (r: bool)
        ensures
            r == key_down(self.spec_old_keys(), key.spec_code()),
    {
        let code = key.code();
        (self.old_keys >> code as u64) & 1 != 0
    }

    /// The key went down between the previous frame and this one.
    pub fn is_just_pressed(&self, key: Key) -> (r: bool)
        ensures
            r == (key_down(self.spec_keys(), key.spec_code()) && !key_down(
                self.spec_old_keys(),
                key.spec_code(),
            )),
    {
        self.is_pressed(key) && !self.was_pressed(key)
    }
}

} // verus!
