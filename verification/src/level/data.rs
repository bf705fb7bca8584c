//! Brick records: position, kind, hit points, special behaviour and the
//! power-up drop chance.
use vstd::prelude::*;

verus! {

#[derive(Debug, Clone, Copy, PartialEq, Eq, Hash, Structural)]
pub enum BrickKind {
    Normal,
    MultiHit,
    Invincible,
    Explosive,
}

impl Default for BrickKind {
    fn default() -> (k: Self)
        ensures
            k == BrickKind::Normal,
    {
        BrickKind::Normal
    }
}

#[derive(Debug, Clone, Copy, PartialEq, Eq, Structural)]
pub enum SpecialType {
    Plain,
    Moving,
    Regenerating,
    Teleport,
}

impl Default for SpecialType {
    fn default() -> (s: Self)
        ensures
            s == SpecialType::Plain,
    {
        SpecialType::Plain
    }
}

/// IEEE-754 single-precision bit pattern of `0.0`.
pub const CHANCE_ZERO_BITS: u32 = 0;
/// IEEE-754 single-precision bit pattern of `-0.0`.
pub const CHANCE_NEG_ZERO_BITS: u32 = 0x8000_0000;
/// IEEE-754 single-precision bit pattern of `+inf`, the largest positive value.
pub const CHANCE_POS_INF_BITS: u32 = 0x7f80_0000;
/// IEEE-754 single-precision bit pattern of `0.7`.
pub const CHANCE_SEVENTY_PERCENT_BITS: u32 = 0x3f33_3333;

/// A drop chance, given by its single-precision bit pattern, compares
/// greater than `0.0`: a positive finite value or `+inf` (NaN and negative
/// patterns do not).
pub open spec fn chance_positive(bits: u32) -> bool {
    0 < bits <= CHANCE_POS_INF_BITS
}

/// A drop chance, given by its single-precision bit pattern, compares equal
/// to `0.0` (either zero).
pub open spec fn chance_zero(bits: u32) -> bool {
    bits == CHANCE_ZERO_BITS || bits == CHANCE_NEG_ZERO_BITS
}

/// `bits > 0.0` for the single-precision value with these bits.
pub fn chance_is_positive(bits: u32) -> (b: bool)
    ensures
        b == chance_positive(bits),
{
    0 < bits && bits <= CHANCE_POS_INF_BITS
}

/// `bits == 0.0` for the single-precision value with these bits.
pub fn chance_is_zero(bits: u32) -> (b: bool)
    ensures
        b == chance_zero(bits),
{
    bits == CHANCE_ZERO_BITS || bits == CHANCE_NEG_ZERO_BITS
}

/// One brick of a level. The power-up drop chance is a single-precision
/// number in `0..=1`, held as its IEEE-754 bit pattern.
#[derive(Debug, Clone, Copy)]
pub struct BrickData {
    pub col: usize,
    pub row: usize,
    pub kind: BrickKind,
    pub health: u32,
    pub max_health: u32,
    pub special: SpecialType,
    pub powerup_chance_bits: u32,
}

impl BrickData {
    /// Whether the ball can ever break this brick.
    pub open spec fn destructible(self) -> bool {
        self.kind != BrickKind::Invincible
    }

    /// A plain one-hit brick at `(col, row)` with no special and no drop.
    pub fn normal(col: usize, row: usize) -> (b: Self)
        ensures
            b.col == col,
            b.row == row,
            b.kind == BrickKind::Normal,
            b.health == 1,
            b.max_health == 1,
            b.special == SpecialType::Plain,
            b.powerup_chance_bits == CHANCE_ZERO_BITS,
    {
        BrickData {
            col,
            row,
            kind: BrickKind::Normal,
            health: 1,
            max_health: 1,
            special: SpecialType::Plain,
            powerup_chance_bits: CHANCE_ZERO_BITS,
        }
    }

    pub fn is_destructible(&self) -> (b: bool)
        ensures
            b == self.destructible(),
    {
        !matches!(self.kind, BrickKind::Invincible)
    }

    pub fn is_explosive(&self) -> (b: bool)
        ensures
            b == (self.kind == BrickKind::Explosive),
    {
        matches!(self.kind, BrickKind::Explosive)
    }
}

} // verus!
