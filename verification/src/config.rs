//! Scope presets and the persisted settings that remember the last preset and
//! theme between launches. Colour themes themselves live with the renderer.
use vstd::prelude::*;
use crate::text::chars_of;
use crate::text::vec_eq;
use crate::player::wrap_index;

verus! {

/// How the live oscilloscope trace is drawn.
#[derive(Clone, Copy, PartialEq, Eq, Structural, Debug)]
pub enum ScopeStyle {
    Line,
    Mirror,
    Dots,
    Bars,
    Spectrum,
}

/// What signal the scope plots.
#[derive(Clone, Copy, PartialEq, Eq, Structural, Debug)]
pub enum ScopeMode {
    /// Time-domain mono trace (L+R folded).
    Mono,
    /// Stereo vectorscope: X = left, Y = right (Lissajous).
    StereoXy,
}

/// A named bundle of scope settings, cycled with one key: render style,
/// signal mode, time window and gain.
#[derive(Clone, Copy)]
pub struct ScopePreset {
    pub name: &'static str,
    pub style: ScopeStyle,
    pub mode: ScopeMode,
    /// Frames of the most recent scope window to display.
    pub window: usize,
    /// Normalize the window so its peak fills the panel.
    pub auto_gain: bool,
}

impl View for ScopePreset {
    type V = (Seq<char>, ScopeStyle, ScopeMode, usize, bool);

    open spec fn view(&self) -> Self::V {
        (self.name@, self.style, self.mode, self.window, self.auto_gain)
    }
}

/// The presets in cycle order; together they cover every style, the stereo
/// vectorscope, several window sizes and both gain settings.
pub open spec fn presets_spec() -> Seq<(Seq<char>, ScopeStyle, ScopeMode, usize, bool)> {
    seq![
        ("line"@, ScopeStyle::Line, ScopeMode::Mono, 1024usize, false),
        ("fast"@, ScopeStyle::Line, ScopeMode::Mono, 384usize, true),
        ("mirror"@, ScopeStyle::Mirror, ScopeMode::Mono, 1024usize, true),
        ("dots"@, ScopeStyle::Dots, ScopeMode::Mono, 768usize, true),
        ("bars"@, ScopeStyle::Bars, ScopeMode::Mono, 1024usize, false),
        ("stereo xy"@, ScopeStyle::Line, ScopeMode::StereoXy, 2048usize, true),
        ("spectrum"@, ScopeStyle::Spectrum, ScopeMode::Mono, 1024usize, false),
    ]
}

/// Number of scope presets.
pub const PRESET_COUNT: usize = 7;

fn preset(name: &'static str, style: ScopeStyle, mode: ScopeMode, window: usize, auto_gain: bool) -> (r: ScopePreset)
    ensures
        r@ == (name@, style, mode, window, auto_gain),
{
    ScopePreset { name, style, mode, window, auto_gain }
}

/// The scope presets, in cycle order (`presets_spec`).
pub fn scope_presets() -> (r: Vec<ScopePreset>)
    ensures
        r@.len() == PRESET_COUNT,
        forall|i: int| 0 <= i < PRESET_COUNT ==> (#[trigger] r@[i])@ == presets_spec()[i],
{
    let mut v: Vec<ScopePreset> = Vec::new();
    v.push(preset("line", ScopeStyle::Line, ScopeMode::Mono, 1024, false));
    v.push(preset("fast", ScopeStyle::Line, ScopeMode::Mono, 384, true));
    v.push(preset("mirror", ScopeStyle::Mirror, ScopeMode::Mono, 1024, true));
    v.push(preset("dots", ScopeStyle::Dots, ScopeMode::Mono, 768, true));
    v.push(preset("bars", ScopeStyle::Bars, ScopeMode::Mono, 1024, false));
    v.push(preset("stereo xy", ScopeStyle::Line, ScopeMode::StereoXy, 2048, true));
    v.push(preset("spectrum", ScopeStyle::Spectrum, ScopeMode::Mono, 1024, false));
    v
}

/// The active preset for a (possibly out-of-range) preset index: indices wrap.
pub fn scope_preset(idx: usize) -> (r: ScopePreset)
    ensures
        r@ == presets_spec()[(idx % PRESET_COUNT) as int],
{
    let v = scope_presets();
    v[idx % PRESET_COUNT]
}

/// `v`/`V`: the preset index `delta` steps away, wrapping around the cycle.
pub fn cycle_scope(idx: usize, delta: i32) -> (r: usize)
    ensures
        r == (idx + delta) % (PRESET_COUNT as int),
        r < PRESET_COUNT,
{
    wrap_index(idx, delta, PRESET_COUNT)
}

/// Persisted user settings.
pub struct Settings {
    /// Name of the last-used scope preset, restored on next launch.
    pub scope_preset: Option<String>,
    /// Name of the last-used color theme.
    pub theme: Option<String>,
}

impl Default for Settings {
    fn default() -> (r: Self)
        ensures
            r.scope_preset is None,
            r.theme is None,
    {
        Settings { scope_preset: None, theme: None }
    }
}

/// The index of the first preset named `name`, if any.
pub open spec fn preset_named(name: Seq<char>) -> Option<int> {
    if exists|i: int| 0 <= i < PRESET_COUNT && presets_spec()[i].0 == name {
        Some(choose|i: int| 0 <= i < PRESET_COUNT && presets_spec()[i].0 == name && forall|j: int| 0 <= j < i ==> presets_spec()[j].0 != name)
    } else {
        None
    }
}

/// The snapshot written on a change: the active preset's name and the theme's.
pub fn settings_for(scope_idx: usize, theme: &str) -> (r: Settings)
    ensures
        r.scope_preset.deep_view() == Some(presets_spec()[(scope_idx % PRESET_COUNT) as int].0),
        r.theme.deep_view() == Some(theme@),
{
    let p = scope_preset(scope_idx);
    Settings { scope_preset: Some(p.name.to_owned()), theme: Some(theme.to_owned()) }
}

/// The preset index restored at launch: the saved preset's position, or the
/// first preset when none was saved or the name is unknown.
pub fn restored_scope_index(s: &Settings) -> (r: usize)
    ensures
        r < PRESET_COUNT,
        match s.scope_preset.deep_view() {
            Some(n) => match preset_named(n) {
                Some(i) => r == i,
                None => r == 0,
            },
            None => r == 0,
        },
{
    match &s.scope_preset {
        Some(name) => {
            let c = chars_of(name.as_str());
            let v = scope_presets();
            let mut i: usize = 0;
            while i < PRESET_COUNT
                invariant
                    i <= PRESET_COUNT,
                    v@.len() == PRESET_COUNT,
                    forall|k: int| 0 <= k < PRESET_COUNT ==> (#[trigger] v@[k])@ == presets_spec()[k],
                    c@ == name@,
                    s.scope_preset.deep_view() == Some(name@),
                    forall|j: int| 0 <= j < i ==> presets_spec()[j].0 != name@,
                decreases PRESET_COUNT - i,
            {
                assert(v@[i as int]@ == presets_spec()[i as int]);
                if vec_eq(&c, &chars_of(v[i].name)) {
                    proof {
                        assert(presets_spec()[i as int].0 == name@);
                        let pr = |k: int| 0 <= k < PRESET_COUNT && presets_spec()[k].0 == name@
                            && forall|j: int| 0 <= j < k ==> presets_spec()[j].0 != name@;
                        assert(pr(i as int));
                        let w = choose|i: int| 0 <= i < PRESET_COUNT && presets_spec()[i].0 == name@ && forall|j: int| 0 <= j < i ==> presets_spec()[j].0 != name@;
                        assert(pr(w));
                        if w < i {
                            assert(presets_spec()[w].0 != name@);
                        } else if w > i {
                            assert(presets_spec()[i as int].0 != name@);
                        }
                        assert(w == i);
                        assert(preset_named(name@) == Some(i as int));
                        assert(s.scope_preset.deep_view() == Some(name@));
                    }
                    return i;
                }
                i += 1;
            }
            0
        },
        None => 0,
    }
}

/// The preset names are pairwise distinct.
proof fn lemma_preset_names_distinct()
    ensures
        forall|i: int, j: int|
            0 <= i < PRESET_COUNT && 0 <= j < PRESET_COUNT && i != j ==> presets_spec()[i].0 != presets_spec()[j].0,
{
    reveal_strlit("line");
    reveal_strlit("fast");
    reveal_strlit("mirror");
    reveal_strlit("dots");
    reveal_strlit("bars");
    reveal_strlit("stereo xy");
    reveal_strlit("spectrum");
    let p = presets_spec();
    assert(p[0].0[0] == 'l' && p[1].0[0] == 'f' && p[2].0[0] == 'm' && p[3].0[0] == 'd');
    assert(p[4].0[0] == 'b' && p[5].0[0] == 's' && p[6].0[0] == 's');
    assert(p[5].0[1] == 't' && p[6].0[1] == 'p');
}

/// The preset saved on exit is the one restored at the next launch.
pub proof fn law_scope_preset_restored(scope_idx: nat)
    ensures
        preset_named(presets_spec()[(scope_idx % PRESET_COUNT as nat) as int].0) == Some((scope_idx % PRESET_COUNT as nat) as int),
{
    lemma_preset_names_distinct();
    let k = (scope_idx % PRESET_COUNT as nat) as int;
    let name = presets_spec()[k].0;
    assert(0 <= k < PRESET_COUNT && presets_spec()[k].0 == name);
    let w = choose|i: int| 0 <= i < PRESET_COUNT && presets_spec()[i].0 == name
        && forall|j: int| 0 <= j < i ==> presets_spec()[j].0 != name;
    assert(forall|j: int| 0 <= j < k ==> presets_spec()[j].0 != name);
}

} // verus!
