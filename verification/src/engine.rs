//! The kinds of movement behaviour a circle can be given.

use rand::rngs::ThreadRng;
use vstd::prelude::*;

use crate::rng::{draw_u8, drawn_from};

verus! {

/// Available movement behaviours.
#[derive(Clone, Copy, Debug, PartialEq, Eq, Structural)]
pub enum EngineKind {
    /// Moves in a straight line, bounces off walls.
    LinearBounce,
    /// Wanders randomly, changing direction over time.
    RandomWalk,
    /// Orbits around a slowly-drifting anchor point.
    Orbital,
}

/// The kind chosen by a roll of a three-sided die: `0`, `1`, and anything
/// else.
pub open spec fn kind_for_roll(roll: u8) -> EngineKind {
    if roll == 0 {
        EngineKind::LinearBounce
    } else if roll == 1 {
        EngineKind::RandomWalk
    } else {
        EngineKind::Orbital
    }
}

impl EngineKind {
    /// Maps a die roll to a kind.
    pub fn from_roll(roll: u8) -> (kind: EngineKind)
        ensures
            kind == kind_for_roll(roll),
    {
        match roll {
            0 => EngineKind::LinearBounce,
            1 => EngineKind::RandomWalk,
            _ => EngineKind::Orbital,
        }
    }

    /// Picks a random kind, each of the three for one face of a die.
    pub fn random(rng: &mut ThreadRng) -> (kind: EngineKind)
        ensures
            exists|roll: u8| roll < 3 && kind == kind_for_roll(roll),
            exists|roll: u8|
                #![trigger kind_for_roll(roll)]
                drawn_from(*old(rng), 0u8, 3u8, roll) && kind == kind_for_roll(roll),
    {
        let roll = draw_u8(rng, 0, 3);
        let kind = Self::from_roll(roll);
        assert(drawn_from(*old(rng), 0u8, 3u8, roll) && kind == kind_for_roll(roll));
        kind
    }
}

/// Every kind is reached by some face of the die.
pub proof fn lemma_every_kind_is_rolled(kind: EngineKind)
    ensures
        exists|roll: u8| roll < 3 && kind_for_roll(roll) == kind,
{
    match kind {
        EngineKind::LinearBounce => assert(kind_for_roll(0) == kind),
        EngineKind::RandomWalk => assert(kind_for_roll(1) == kind),
        EngineKind::Orbital => assert(kind_for_roll(2) == kind),
    }
}

/// Scrambles a number derived from a circle's position into the seed from
/// which a random walk picks its next turn target: the number times
/// 2654435761 (Knuth's multiplicative hash constant), modulo 2^32.
pub fn turn_seed(position_code: u32) -> (seed: u32)
    ensures
        seed == (position_code as nat * 2654435761nat) % 0x1_0000_0000nat,
{
    position_code.wrapping_mul(2654435761)
}

} // verus!
