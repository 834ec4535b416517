//! The icon, drawn rather than shipped.
//!
//! At this size a tray icon is read as a silhouette and a colour, not as a
//! picture.

use vstd::prelude::*;
use vstd::std_specs::convert::FromSpecImpl;

use super::ui::State;

verus! {

/// Icons are square; this is the side length.
pub const SIZE: u32 = 32;

/// What the icon is saying.
#[derive(Debug, Clone, Copy, PartialEq, Eq, Structural)]
pub enum Look {
    /// A closed ring: everything is where it should be.
    Settled,
    /// A ring with a gap: something is moving.
    Working,
    /// Dimmed: running, but nothing else is reachable.
    Alone,
    /// A ring with a bite out of it, in a warning colour.
    Problem,
}

/// The look for a state.
pub open spec fn look_of(state: State) -> Look {
    match state {
        State::Starting => Look::Working,
        State::Working => Look::Working,
        State::UpToDate => Look::Settled,
        State::Alone => Look::Alone,
        State::Problem => Look::Problem,
    }
}

impl From<State> for Look {
    fn from(state: State) -> (look: Self) {
        match state {
            State::Starting => Look::Working,
            State::Working => Look::Working,
            State::UpToDate => Look::Settled,
            State::Alone => Look::Alone,
            State::Problem => Look::Problem,
        }
    }
}

impl FromSpecImpl<State> for Look {
    open spec fn obeys_from_spec() -> bool {
        true
    }

    open spec fn from_spec(state: State) -> Self {
        look_of(state)
    }
}

/// Foreground colour, as RGB.
pub open spec fn colour_of(look: Look) -> (u8, u8, u8) {
    match look {
        Look::Settled => (0x2B, 0x5C, 0xE6),
        Look::Working => (0x2B, 0x5C, 0xE6),
        Look::Alone => (0x8A, 0x8A, 0x92),
        Look::Problem => (0xD9, 0x4B, 0x2B),
    }
}

impl Look {
    /// Foreground colour, as RGB.
    ///
    /// Chosen to be legible on both a light and a dark panel, which rules out
    /// anything very pale or very dark: a tray icon does not get told which it
    /// is sitting on.
    pub fn colour(&self) -> (rgb: (u8, u8, u8))
        ensures
            rgb == colour_of(*self),
    {
        match self {
            Look::Settled => (0x2B, 0x5C, 0xE6),
            Look::Working => (0x2B, 0x5C, 0xE6),
            Look::Alone => (0x8A, 0x8A, 0x92),
            Look::Problem => (0xD9, 0x4B, 0x2B),
        }
    }

    /// Whether the ring has a gap.
    ///
    /// A wedge removed from the upper right reads as "in motion" at a glance
    /// without needing animation.
    pub fn has_gap(&self) -> (gap: bool)
        ensures
            gap == (*self is Working || *self is Problem),
    {
        match self {
            Look::Settled => false,
            Look::Alone => false,
            Look::Working => true,
            Look::Problem => true,
        }
    }
}

/// One byte of the picture: where a pixel is covered it has the colour of the
/// look, and how much it is covered; elsewhere it is clear.
pub open spec fn painted(look: Look, cover: Seq<Option<u8>>, i: int) -> u8 {
    match cover[i / 4] {
        None => 0,
        Some(alpha) => if i % 4 == 0 {
            colour_of(look).0
        } else if i % 4 == 1 {
            colour_of(look).1
        } else if i % 4 == 2 {
            colour_of(look).2
        } else {
            alpha
        },
    }
}

/// Paint an icon: RGBA, `SIZE` by `SIZE`, row by row, given how much of each
/// pixel is covered.
pub fn paint(look: Look, cover: &Vec<Option<u8>>) -> (picture: (Vec<u8>, u32, u32))
    requires
        cover@.len() == 1024,
    ensures
        picture.0@.len() == 4096,
        forall|i: int|
            #![trigger picture.0@[i]]
            0 <= i < 4096 ==> picture.0@[i] == painted(look, cover@, i),
        picture.1 == SIZE,
        picture.2 == SIZE,
{
    let (r, g, b): (u8, u8, u8) = look.colour();
    let mut pixels: Vec<u8> = Vec::new();
    let mut i: usize = 0;
    while i < 1024
        invariant
            i <= 1024,
            cover@.len() == 1024,
            (r, g, b) == colour_of(look),
            pixels@.len() == 4 * i,
            forall|k: int|
                #![trigger pixels@[k]]
                0 <= k < 4 * i ==> pixels@[k] == painted(look, cover@, k),
        decreases 1024 - i,
    {
        match cover[i] {
            None => {
                pixels.push(0);
                pixels.push(0);
                pixels.push(0);
                pixels.push(0);
            },
            Some(alpha) => {
                pixels.push(r);
                pixels.push(g);
                pixels.push(b);
                pixels.push(alpha);
            },
        }
        i += 1;
    }
    (pixels, SIZE, SIZE)
}

/// The looks are told apart: by their colour, or by whether the ring has a gap.
pub proof fn law_the_looks_differ(a: Look, b: Look)
    requires
        a != b,
    ensures
        colour_of(a) != colour_of(b) || (a is Working || a is Problem) != (b is Working
            || b is Problem),
{
}

/// A picture shows what is covered and nothing else: a pixel that is not covered is
/// clear, and one that is has the look's colour and as much of it as it is covered.
pub proof fn law_a_picture_shows_what_is_covered(look: Look, cover: Seq<Option<u8>>, p: int)
    requires
        0 <= p < cover.len(),
    ensures
        cover[p] is None ==> painted(look, cover, 4 * p) == 0 && painted(look, cover, 4 * p + 1)
            == 0 && painted(look, cover, 4 * p + 2) == 0 && painted(look, cover, 4 * p + 3) == 0,
        cover[p] matches Some(alpha) ==> (
            painted(look, cover, 4 * p),
            painted(look, cover, 4 * p + 1),
            painted(look, cover, 4 * p + 2),
        ) == colour_of(look) && painted(look, cover, 4 * p + 3) == alpha,
{
    assert((4 * p) / 4 == p && (4 * p + 1) / 4 == p && (4 * p + 2) / 4 == p && (4 * p + 3) / 4
        == p);
    assert((4 * p) % 4 == 0 && (4 * p + 1) % 4 == 1 && (4 * p + 2) % 4 == 2 && (4 * p + 3) % 4
        == 3);
}

/// Only starting up and working look alike; every other state has a look of its own,
/// and a problem looks like one.
pub proof fn law_states_look_different(a: State, b: State)
    requires
        a != b,
    ensures
        look_of(a) == look_of(b) ==> (a is Starting || a is Working) && (b is Starting
            || b is Working),
        (a is Starting || a is Working) && (b is Starting || b is Working) ==> look_of(a)
            == look_of(b),
        a is Problem ==> look_of(a) is Problem,
        a is Alone ==> look_of(a) is Alone,
        a is UpToDate ==> look_of(a) is Settled,
{
}

} // verus!
