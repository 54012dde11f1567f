//! Theme effects as far as the theme picker sees them: which knobs each
//! animated theme exposes (in the order the modal shows them) and whether it
//! animates at all. Drawing and particles are the terminal front end's part.
use vstd::prelude::*;

verus! {

/// How a knob is edited/displayed in the theme modal.
#[derive(Clone, Copy, PartialEq, Eq, Structural, Debug)]
pub enum KnobKind {
    /// Continuous 0..1, shown as a bar.
    Range,
    /// Boolean, stored as 0.0/1.0, shown as `on`/`off`.
    Toggle,
}

/// One user-tunable knob on a configurable theme.
#[derive(Clone, Copy, PartialEq, Eq, Structural, Debug)]
pub enum Knob {
    /// Overall amount / density / frequency of the effect.
    Intensity,
    /// Animation rate.
    Speed,
    /// How many particles/elements are alive at once.
    Density,
    /// How strongly the theme reacts to the beat; 0 is pure ambient.
    BeatSync,
    /// Horizontal drift strength (snow, sakura).
    Wind,
    /// Trail length: how long things linger before fading.
    Persistence,
    /// How much the effect displaces the real UI (glitch family).
    Disruption,
    /// Strobe / flashing-band amount (rave).
    Strobe,
    /// Toggle: particles chase the mouse pointer (sakura).
    FollowMouse,
}

/// The label the theme modal shows for a knob.
pub open spec fn knob_label(k: Knob) -> Seq<char> {
    match k {
        Knob::Intensity => "intensity"@,
        Knob::Speed => "speed"@,
        Knob::Density => "density"@,
        Knob::BeatSync => "beat sync"@,
        Knob::Wind => "wind"@,
        Knob::Persistence => "persistence"@,
        Knob::Disruption => "disruption"@,
        Knob::Strobe => "strobe"@,
        Knob::FollowMouse => "follow mouse"@,
    }
}

impl Knob {
    pub fn label(self) -> (r: &'static str)
        ensures
            r@ == knob_label(self),
    {
        match self {
            Knob::Intensity => "intensity",
            Knob::Speed => "speed",
            Knob::Density => "density",
            Knob::BeatSync => "beat sync",
            Knob::Wind => "wind",
            Knob::Persistence => "persistence",
            Knob::Disruption => "disruption",
            Knob::Strobe => "strobe",
            Knob::FollowMouse => "follow mouse",
        }
    }

    /// Only "follow mouse" is a toggle; every other knob is a range.
    pub fn kind(self) -> (r: KnobKind)
        ensures
            r == (if self == Knob::FollowMouse { KnobKind::Toggle } else { KnobKind::Range }),
    {
        match self {
            Knob::FollowMouse => KnobKind::Toggle,
            _ => KnobKind::Range,
        }
    }
}

/// The knob list of the border-only themes: just the beat coupling.
pub fn beat_knobs() -> (r: Vec<Knob>)
    ensures
        r@ == seq![Knob::BeatSync],
{
    vec![Knob::BeatSync]
}

/// The fully static theme: no animation, no particles, no overlay.
pub struct Static;

impl Static {
    /// The knobs the theme modal offers for this theme, in display order.
    pub fn knobs(&self) -> (r: Vec<Knob>)
        ensures
            r@ == Seq::<Knob>::empty(),
    {
        Vec::new()
    }

    /// Whether the theme animates (tagged in the picker).
    pub fn is_animated(&self) -> (r: bool)
        ensures
            r == false,
    {
        false
    }
}

/// Borders cycle through the whole rainbow, jumping and flaring on the beat.
pub struct Prismatic;

impl Prismatic {
    /// The knobs the theme modal offers for this theme, in display order.
    pub fn knobs(&self) -> (r: Vec<Knob>)
        ensures
            r@ == seq![Knob::BeatSync],
    {
        beat_knobs()
    }

    /// Whether the theme animates (tagged in the picker).
    pub fn is_animated(&self) -> (r: bool)
        ensures
            r == true,
    {
        true
    }
}

/// Borders drift slowly through the trans-flag colors, brightening on the beat.
pub struct TransSlow;

impl TransSlow {
    /// The knobs the theme modal offers for this theme, in display order.
    pub fn knobs(&self) -> (r: Vec<Knob>)
        ensures
            r@ == seq![Knob::BeatSync],
    {
        beat_knobs()
    }

    /// Whether the theme animates (tagged in the picker).
    pub fn is_animated(&self) -> (r: bool)
        ensures
            r == true,
    {
        true
    }
}

/// Borders glow in a pulse that ripples from panel to panel, kicked by the beat.
pub struct Ripple;

impl Ripple {
    /// The knobs the theme modal offers for this theme, in display order.
    pub fn knobs(&self) -> (r: Vec<Knob>)
        ensures
            r@ == seq![Knob::BeatSync],
    {
        beat_knobs()
    }

    /// Whether the theme animates (tagged in the picker).
    pub fn is_animated(&self) -> (r: bool)
        ensures
            r == true,
    {
        true
    }
}

/// Borders oscillate through cyan, magenta and yellow, flaring on the beat.
pub struct Cmyk;

impl Cmyk {
    /// The knobs the theme modal offers for this theme, in display order.
    pub fn knobs(&self) -> (r: Vec<Knob>)
        ensures
            r@ == seq![Knob::BeatSync],
    {
        beat_knobs()
    }

    /// Whether the theme animates (tagged in the picker).
    pub fn is_animated(&self) -> (r: bool)
        ensures
            r == true,
    {
        true
    }
}

/// Shimmering curtains of green and violet light across the top of the screen.
pub struct Aurora;

impl Aurora {
    /// The knobs the theme modal offers for this theme, in display order.
    pub fn knobs(&self) -> (r: Vec<Knob>)
        ensures
            r@ == seq![Knob::Speed, Knob::Intensity, Knob::BeatSync],
    {
        vec![Knob::Speed, Knob::Intensity, Knob::BeatSync]
    }

    /// Whether the theme animates (tagged in the picker).
    pub fn is_animated(&self) -> (r: bool)
        ensures
            r == true,
    {
        true
    }
}

/// Stars spiral inward to a glowing accretion disk; bass beats eject matter.
pub struct Blackhole;

impl Blackhole {
    /// The knobs the theme modal offers for this theme, in display order.
    pub fn knobs(&self) -> (r: Vec<Knob>)
        ensures
            r@ == seq![Knob::Density, Knob::Speed, Knob::BeatSync],
    {
        vec![Knob::Density, Knob::Speed, Knob::BeatSync]
    }

    /// Whether the theme animates (tagged in the picker).
    pub fn is_animated(&self) -> (r: bool)
        ensures
            r == true,
    {
        true
    }
}

/// A crimson night: a pulsing moon, dripping blood, bats, a heartbeat border.
pub struct Bloodmoon;

impl Bloodmoon {
    /// The knobs the theme modal offers for this theme, in display order.
    pub fn knobs(&self) -> (r: Vec<Knob>)
        ensures
            r@ == seq![Knob::Intensity, Knob::Density, Knob::BeatSync],
    {
        vec![Knob::Intensity, Knob::Density, Knob::BeatSync]
    }

    /// Whether the theme animates (tagged in the picker).
    pub fn is_animated(&self) -> (r: bool)
        ensures
            r == true,
    {
        true
    }
}

/// Rising bubbles; a click pops a cluster upward.
pub struct Bubbles;

impl Bubbles {
    /// The knobs the theme modal offers for this theme, in display order.
    pub fn knobs(&self) -> (r: Vec<Knob>)
        ensures
            r@ == Seq::<Knob>::empty(),
    {
        Vec::new()
    }

    /// Whether the theme animates (tagged in the picker).
    pub fn is_animated(&self) -> (r: bool)
        ensures
            r == true,
    {
        true
    }
}

/// A neon circuit board whose data pulses race along the traces.
pub struct Circuit;

impl Circuit {
    /// The knobs the theme modal offers for this theme, in display order.
    pub fn knobs(&self) -> (r: Vec<Knob>)
        ensures
            r@ == seq![Knob::Density, Knob::Speed, Knob::BeatSync],
    {
        vec![Knob::Density, Knob::Speed, Knob::BeatSync]
    }

    /// Whether the theme animates (tagged in the picker).
    pub fn is_animated(&self) -> (r: bool)
        ensures
            r == true,
    {
        true
    }
}

/// A twinkling star field that sends a shooting star on each beat.
pub struct Constellations;

impl Constellations {
    /// The knobs the theme modal offers for this theme, in display order.
    pub fn knobs(&self) -> (r: Vec<Knob>)
        ensures
            r@ == seq![Knob::Density, Knob::BeatSync],
    {
        vec![Knob::Density, Knob::BeatSync]
    }

    /// Whether the theme animates (tagged in the picker).
    pub fn is_animated(&self) -> (r: bool)
        ensures
            r == true,
    {
        true
    }
}

/// Beat-driven horizontal tearing of the screen, clean between hits.
pub struct Datamosh;

impl Datamosh {
    /// The knobs the theme modal offers for this theme, in display order.
    pub fn knobs(&self) -> (r: Vec<Knob>)
        ensures
            r@ == seq![Knob::Intensity, Knob::Disruption],
    {
        vec![Knob::Intensity, Knob::Disruption]
    }

    /// Whether the theme animates (tagged in the picker).
    pub fn is_animated(&self) -> (r: bool)
        ensures
            r == true,
    {
        true
    }
}

/// Sparks on navigation and clicks, a crackling border, lightning in the scope.
pub struct Electric;

impl Electric {
    /// The knobs the theme modal offers for this theme, in display order.
    pub fn knobs(&self) -> (r: Vec<Knob>)
        ensures
            r@ == seq![Knob::Intensity, Knob::BeatSync, Knob::Speed],
    {
        vec![Knob::Intensity, Knob::BeatSync, Knob::Speed]
    }

    /// Whether the theme animates (tagged in the picker).
    pub fn is_animated(&self) -> (r: bool)
        ensures
            r == true,
    {
        true
    }
}

/// A flickering ember bed along the bottom edge with embers rising.
pub struct Fireplace;

impl Fireplace {
    /// The knobs the theme modal offers for this theme, in display order.
    pub fn knobs(&self) -> (r: Vec<Knob>)
        ensures
            r@ == seq![Knob::Intensity, Knob::Speed, Knob::BeatSync],
    {
        vec![Knob::Intensity, Knob::Speed, Knob::BeatSync]
    }

    /// Whether the theme animates (tagged in the picker).
    pub fn is_animated(&self) -> (r: bool)
        ensures
            r == true,
    {
        true
    }
}

/// A small flag in the now-playing panel and fireworks on click.
pub struct Flag;

impl Flag {
    /// The knobs the theme modal offers for this theme, in display order.
    pub fn knobs(&self) -> (r: Vec<Knob>)
        ensures
            r@ == Seq::<Knob>::empty(),
    {
        Vec::new()
    }

    /// Whether the theme animates (tagged in the picker).
    pub fn is_animated(&self) -> (r: bool)
        ensures
            r == true,
    {
        true
    }
}

/// Green flames on navigation, a burning playhead and scope shoot-offs.
pub struct Flame;

impl Flame {
    /// The knobs the theme modal offers for this theme, in display order.
    pub fn knobs(&self) -> (r: Vec<Knob>)
        ensures
            r@ == Seq::<Knob>::empty(),
    {
        Vec::new()
    }

    /// Whether the theme animates (tagged in the picker).
    pub fn is_animated(&self) -> (r: bool)
        ensures
            r == true,
    {
        true
    }
}

/// Beat-reactive CRT glitches; the screen stays clean between beats.
pub struct Glitch;

impl Glitch {
    /// The knobs the theme modal offers for this theme, in display order.
    pub fn knobs(&self) -> (r: Vec<Knob>)
        ensures
            r@ == Seq::<Knob>::empty(),
    {
        Vec::new()
    }

    /// Whether the theme animates (tagged in the picker).
    pub fn is_animated(&self) -> (r: bool)
        ensures
            r == true,
    {
        true
    }
}

/// Columns of falling digital rain; clicks and scrolls spawn extra waves.
pub struct Matrix;

impl Matrix {
    /// The knobs the theme modal offers for this theme, in display order.
    pub fn knobs(&self) -> (r: Vec<Knob>)
        ensures
            r@ == seq![Knob::Density, Knob::Speed, Knob::Persistence, Knob::BeatSync],
    {
        vec![Knob::Density, Knob::Speed, Knob::Persistence, Knob::BeatSync]
    }

    /// Whether the theme animates (tagged in the picker).
    pub fn is_animated(&self) -> (r: bool)
        ensures
            r == true,
    {
        true
    }
}

/// Macroblock smearing of the screen that lingers like a broken video stream.
pub struct Meltdown;

impl Meltdown {
    /// The knobs the theme modal offers for this theme, in display order.
    pub fn knobs(&self) -> (r: Vec<Knob>)
        ensures
            r@ == seq![Knob::Intensity, Knob::Persistence, Knob::Disruption],
    {
        vec![Knob::Intensity, Knob::Persistence, Knob::Disruption]
    }

    /// Whether the theme animates (tagged in the picker).
    pub fn is_animated(&self) -> (r: bool)
        ensures
            r == true,
    {
        true
    }
}

/// A flowing lava-lamp field of colour that blooms on the beat.
pub struct Plasma;

impl Plasma {
    /// The knobs the theme modal offers for this theme, in display order.
    pub fn knobs(&self) -> (r: Vec<Knob>)
        ensures
            r@ == seq![Knob::Speed, Knob::Intensity, Knob::BeatSync],
    {
        vec![Knob::Speed, Knob::Intensity, Knob::BeatSync]
    }

    /// Whether the theme animates (tagged in the picker).
    pub fn is_animated(&self) -> (r: bool)
        ensures
            r == true,
    {
        true
    }
}

/// Confetti, strobe bands and fireworks on the beat.
pub struct Rave;

impl Rave {
    /// The knobs the theme modal offers for this theme, in display order.
    pub fn knobs(&self) -> (r: Vec<Knob>)
        ensures
            r@ == seq![Knob::Intensity, Knob::Strobe, Knob::BeatSync, Knob::Speed],
    {
        vec![Knob::Intensity, Knob::Strobe, Knob::BeatSync, Knob::Speed]
    }

    /// Whether the theme animates (tagged in the picker).
    pub fn is_animated(&self) -> (r: bool)
        ensures
            r == true,
    {
        true
    }
}

/// Drifting cherry-blossom petals that the mouse blows like wind.
pub struct Sakura;

impl Sakura {
    /// The knobs the theme modal offers for this theme, in display order.
    pub fn knobs(&self) -> (r: Vec<Knob>)
        ensures
            r@ == seq![Knob::Density, Knob::Speed, Knob::Wind, Knob::BeatSync, Knob::FollowMouse],
    {
        vec![Knob::Density, Knob::Speed, Knob::Wind, Knob::BeatSync, Knob::FollowMouse]
    }

    /// Whether the theme animates (tagged in the picker).
    pub fn is_animated(&self) -> (r: bool)
        ensures
            r == true,
    {
        true
    }
}

/// Drifting petals, katana slashes on strong beats and a shimmering seal.
pub struct Samurai;

impl Samurai {
    /// The knobs the theme modal offers for this theme, in display order.
    pub fn knobs(&self) -> (r: Vec<Knob>)
        ensures
            r@ == seq![Knob::Intensity, Knob::Density, Knob::Speed, Knob::BeatSync],
    {
        vec![Knob::Intensity, Knob::Density, Knob::Speed, Knob::BeatSync]
    }

    /// Whether the theme animates (tagged in the picker).
    pub fn is_animated(&self) -> (r: bool)
        ensures
            r == true,
    {
        true
    }
}

/// Falling snow over the whole window.
pub struct Snow;

impl Snow {
    /// The knobs the theme modal offers for this theme, in display order.
    pub fn knobs(&self) -> (r: Vec<Knob>)
        ensures
            r@ == seq![Knob::Density, Knob::Speed, Knob::Wind, Knob::BeatSync],
    {
        vec![Knob::Density, Knob::Speed, Knob::Wind, Knob::BeatSync]
    }

    /// Whether the theme animates (tagged in the picker).
    pub fn is_animated(&self) -> (r: bool)
        ensures
            r == true,
    {
        true
    }
}

/// A warp star field from the screen centre; navigation warps, clicks flare.
pub struct Starfield;

impl Starfield {
    /// The knobs the theme modal offers for this theme, in display order.
    pub fn knobs(&self) -> (r: Vec<Knob>)
        ensures
            r@ == seq![Knob::Density, Knob::Speed, Knob::BeatSync],
    {
        vec![Knob::Density, Knob::Speed, Knob::BeatSync]
    }

    /// Whether the theme animates (tagged in the picker).
    pub fn is_animated(&self) -> (r: bool)
        ensures
            r == true,
    {
        true
    }
}

/// A calm ink wash: settling specks, ink splashes on click, ripples on the beat.
pub struct Sumie;

impl Sumie {
    /// The knobs the theme modal offers for this theme, in display order.
    pub fn knobs(&self) -> (r: Vec<Knob>)
        ensures
            r@ == seq![Knob::Intensity, Knob::BeatSync],
    {
        vec![Knob::Intensity, Knob::BeatSync]
    }

    /// Whether the theme animates (tagged in the picker).
    pub fn is_animated(&self) -> (r: bool)
        ensures
            r == true,
    {
        true
    }
}

/// Driving rain, with a lightning flash and bolt on a bass beat.
pub struct Thunderstorm;

impl Thunderstorm {
    /// The knobs the theme modal offers for this theme, in display order.
    pub fn knobs(&self) -> (r: Vec<Knob>)
        ensures
            r@ == seq![Knob::Density, Knob::Intensity, Knob::BeatSync],
    {
        vec![Knob::Density, Knob::Intensity, Knob::BeatSync]
    }

    /// Whether the theme animates (tagged in the picker).
    pub fn is_animated(&self) -> (r: bool)
        ensures
            r == true,
    {
        true
    }
}

/// A scanline sun sinking over a neon grid that surges on the beat.
pub struct Vaporwave;

impl Vaporwave {
    /// The knobs the theme modal offers for this theme, in display order.
    pub fn knobs(&self) -> (r: Vec<Knob>)
        ensures
            r@ == seq![Knob::Speed, Knob::Intensity, Knob::BeatSync],
    {
        vec![Knob::Speed, Knob::Intensity, Knob::BeatSync]
    }

    /// Whether the theme animates (tagged in the picker).
    pub fn is_animated(&self) -> (r: bool)
        ensures
            r == true,
    {
        true
    }
}

} // verus!
