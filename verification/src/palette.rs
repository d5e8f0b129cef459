//! Circle colours: the soft random base colour a circle is spawned with,
//! and the highlight it is drawn in while it collides.

use rand::rngs::ThreadRng;
use vstd::prelude::*;

use crate::rng::{draw_u8, drawn_from};

verus! {

/// A colour as red, green, blue and alpha channels.
#[derive(Clone, Copy, Debug, PartialEq, Eq, Structural)]
pub struct Rgba {
    pub r: u8,
    pub g: u8,
    pub b: u8,
    pub a: u8,
}

/// The vivid red-pink a colliding circle is drawn in.
pub open spec fn collision_color() -> Rgba {
    Rgba { r: 255, g: 50, b: 80, a: 255 }
}

/// The colour a colliding circle is drawn in.
pub fn collision_rgba() -> (c: Rgba)
    ensures
        c == collision_color(),
{
    Rgba { r: 255, g: 50, b: 80, a: 255 }
}

/// A soft base colour: red in `40..180`, green in `80..220`, blue in
/// `120..255`, alpha 200.
pub open spec fn is_soft_base_color(c: Rgba) -> bool {
    &&& 40 <= c.r < 180
    &&& 80 <= c.g < 220
    &&& 120 <= c.b < 255
    &&& c.a == 200
}

/// Draws a random soft colour for a circle's base state: red, green and
/// blue each by its own draw from the generator over its whole range, in
/// that order.
pub fn random_base_color(rng: &mut ThreadRng) -> (c: Rgba)
    ensures
        is_soft_base_color(c),
        exists|after_red: ThreadRng, after_green: ThreadRng|
            #![trigger drawn_from(after_red, 80u8, 220u8, c.g), drawn_from(after_green, 120u8, 255u8, c.b)]
            drawn_from(*old(rng), 40u8, 180u8, c.r) && drawn_from(after_red, 80u8, 220u8, c.g)
                && drawn_from(after_green, 120u8, 255u8, c.b),
        c.a == 200,
{
    let r = draw_u8(rng, 40, 180);
    let ghost after_red = *rng;
    let g = draw_u8(rng, 80, 220);
    let ghost after_green = *rng;
    let b = draw_u8(rng, 120, 255);
    let c = Rgba { r, g, b, a: 200 };
    assert(drawn_from(after_red, 80u8, 220u8, c.g) && drawn_from(after_green, 120u8, 255u8, c.b));
    c
}

/// The colour a circle is drawn in this frame: the highlight while it
/// collides, its base colour otherwise.
pub fn render_color(colliding: bool, base: Rgba) -> (c: Rgba)
    ensures
        c == (if colliding {
            collision_color()
        } else {
            base
        }),
{
    if colliding {
        collision_rgba()
    } else {
        base
    }
}

} // verus!
