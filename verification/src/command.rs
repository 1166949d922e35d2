//! What the command line asks for: which vehicle, which test, and what is
//! recorded for the outputs.

use crate::input::config::Output;
use crate::model::{Accelerometer, Settings};
use crate::number::Real;
use crate::signal::is_first_of;
use crate::text::{same_text, chars_of};
use vstd::prelude::*;

verus! {

/// A vehicle that ships with the program. The raw ones are the analytic
/// starting points of the calibrations.
#[derive(Clone, Copy, Debug, PartialEq, Eq, Structural)]
pub enum Preset {
    Neon,
    NeonRaw,
    NeonPulse,
    Silverado,
    SilveradoRaw,
}

pub open spec fn preset_named(name: Seq<char>) -> Option<Preset> {
    if name == "silverado"@ {
        Some(Preset::Silverado)
    } else if name == "silverado-raw"@ {
        Some(Preset::SilveradoRaw)
    } else if name == "neon"@ {
        Some(Preset::Neon)
    } else if name == "neon-raw"@ {
        Some(Preset::NeonRaw)
    } else if name == "neon-pulse"@ {
        Some(Preset::NeonPulse)
    } else {
        None
    }
}

/// The preset of a name, or the message shown to the user.
pub fn vehicle_by_name(name: &str) -> (r: Result<Preset, String>)
    ensures
        match preset_named(name@) {
            Some(p) => r == Ok::<_, String>(p),
            None => r is Err && r->Err_0@ == "unknown vehicle '"@ + name@
                + "' (neon | neon-raw | neon-pulse | silverado | silverado-raw)"@,
        },
{
    if same_text(name, "silverado") {
        Ok(Preset::Silverado)
    } else if same_text(name, "silverado-raw") {
        Ok(Preset::SilveradoRaw)
    } else if same_text(name, "neon") {
        Ok(Preset::Neon)
    } else if same_text(name, "neon-raw") {
        Ok(Preset::NeonRaw)
    } else if same_text(name, "neon-pulse") {
        Ok(Preset::NeonPulse)
    } else {
        let mut s: String = "unknown vehicle '".to_string();
        s.append(name);
        s.append("' (neon | neon-raw | neon-pulse | silverado | silverado-raw)");
        Err(s)
    }
}

/// A barrier test: the vehicle it starts from, the one whose curve sets the
/// targets, whether both are turned to their side, and whether the speed and
/// crush window are those of a side test.
#[derive(Clone, Copy, Debug, PartialEq, Eq, Structural)]
pub struct BarrierTest {
    pub start: Preset,
    pub target: Preset,
    pub turned: bool,
    pub side: bool,
}

/// Whether a text begins with another.
pub open spec fn begins(s: Seq<char>, p: Seq<char>) -> bool {
    p.len() <= s.len() && s.take(p.len() as int) == p
}

fn starts_with(s: &str, p: &str) -> (b: bool)
    ensures
        b == begins(s@, p@),
{
    let a: Vec<char> = chars_of(s);
    let q: Vec<char> = chars_of(p);
    if a.len() < q.len() {
        return false;
    }
    let mut i: usize = 0;
    while i < q.len()
        invariant
            i <= q@.len() <= a@.len(),
            a@ == s@,
            q@ == p@,
            forall|k: int| 0 <= k < i ==> #[trigger] a@[k] == q@[k],
        decreases q.len() - i,
    {
        if a[i] != q[i] {
            assert(s@.take(p@.len() as int)[i as int] != p@[i as int]);
            return false;
        }
        i += 1;
    }
    assert(s@.take(p@.len() as int) =~= p@);
    true
}

pub open spec fn barrier_named(name: Seq<char>) -> BarrierTest {
    let side = begins(name, "neon-side"@);
    if name == "silverado"@ {
        BarrierTest { start: Preset::Silverado, target: Preset::SilveradoRaw, turned: false, side }
    } else if name == "silverado-raw"@ {
        BarrierTest {
            start: Preset::SilveradoRaw,
            target: Preset::SilveradoRaw,
            turned: false,
            side,
        }
    } else if name == "neon-raw"@ {
        BarrierTest { start: Preset::NeonRaw, target: Preset::NeonRaw, turned: false, side }
    } else if name == "neon-side"@ {
        BarrierTest { start: Preset::Neon, target: Preset::NeonRaw, turned: true, side }
    } else if name == "neon-side-raw"@ {
        BarrierTest { start: Preset::NeonRaw, target: Preset::NeonRaw, turned: true, side }
    } else {
        BarrierTest { start: Preset::Neon, target: Preset::NeonRaw, turned: false, side }
    }
}

/// The barrier test of a name; the Neon's where the name is none.
pub fn barrier_test(name: &str) -> (t: BarrierTest)
    ensures
        t == barrier_named(name@),
{
    let side: bool = starts_with(name, "neon-side");
    if same_text(name, "silverado") {
        BarrierTest { start: Preset::Silverado, target: Preset::SilveradoRaw, turned: false, side }
    } else if same_text(name, "silverado-raw") {
        BarrierTest {
            start: Preset::SilveradoRaw,
            target: Preset::SilveradoRaw,
            turned: false,
            side,
        }
    } else if same_text(name, "neon-raw") {
        BarrierTest { start: Preset::NeonRaw, target: Preset::NeonRaw, turned: false, side }
    } else if same_text(name, "neon-side") {
        BarrierTest { start: Preset::Neon, target: Preset::NeonRaw, turned: true, side }
    } else if same_text(name, "neon-side-raw") {
        BarrierTest { start: Preset::NeonRaw, target: Preset::NeonRaw, turned: true, side }
    } else {
        BarrierTest { start: Preset::Neon, target: Preset::NeonRaw, turned: false, side }
    }
}

/// The vehicle that a measured pulse is compared with; the Neon where the name
/// is none.
pub fn pulse_vehicle(name: &str) -> (p: Preset)
    ensures
        p == match preset_named(name@) {
            Some(p) => p,
            None => Preset::Neon,
        },
{
    match vehicle_by_name(name) {
        Ok(p) => p,
        Err(_) => Preset::Neon,
    }
}

/// Output options.
#[derive(Clone, Debug)]
pub struct Out {
    /// Animated GIF of the deformed mesh.
    pub gif: Option<String>,
    /// VTK time series.
    pub vtk: Option<String>,
    /// Time series as tables.
    pub history: Option<String>,
    /// Sample the history every N steps.
    pub history_steps: usize,
    /// Safety factor on the stable time step.
    pub dt_scale: Option<Real>,
}

/// Steps between two frames, unless set otherwise.
pub const FRAME_STEPS: usize = 15;

/// The settings with what the outputs need turned on.
pub open spec fn configured(out: Out, before: Settings) -> Settings {
    Settings {
        frame_steps: if (out.gif is Some || out.vtk is Some) && before.frame_steps == 0 {
            FRAME_STEPS
        } else {
            before.frame_steps
        },
        history_steps: if out.history is Some {
            if out.history_steps == 0 {
                1
            } else {
                out.history_steps
            }
        } else {
            before.history_steps
        },
        dt_scale: match out.dt_scale {
            Some(f) => f,
            None => before.dt_scale,
        },
        ..before
    }
}

impl Out {
    /// Turns on frame and history capture as needed.
    pub fn configure(&self, settings: &mut Settings)
        ensures
            *final(settings) == configured(*self, *old(settings)),
    {
        if (self.gif.is_some() || self.vtk.is_some()) && settings.frame_steps == 0 {
            settings.frame_steps = FRAME_STEPS;
        }
        if self.history.is_some() {
            settings.history_steps = if self.history_steps == 0 {
                1
            } else {
                self.history_steps
            };
        }
        if let Some(f) = self.dt_scale {
            settings.dt_scale = f;
        }
    }

    /// The options of a run: what the command line leaves open is as the setup
    /// file has it, and the setup's history interval wins.
    pub fn completed(self, output: Output, settings: &Settings) -> (r: Out)
        ensures
            r.gif == if self.gif is Some {
                self.gif
            } else {
                output.gif
            },
            r.vtk == if self.vtk is Some {
                self.vtk
            } else {
                output.vtk
            },
            r.history == if self.history is Some {
                self.history
            } else {
                output.history
            },
            r.history_steps == if settings.history_steps > 0 {
                settings.history_steps
            } else {
                self.history_steps
            },
            r.dt_scale == self.dt_scale,
    {
        let Out { gif, vtk, history, history_steps, dt_scale } = self;
        let Output { gif: file_gif, vtk: file_vtk, history: file_history } = output;
        Out {
            gif: if gif.is_some() {
                gif
            } else {
                file_gif
            },
            vtk: if vtk.is_some() {
                vtk
            } else {
                file_vtk
            },
            history: if history.is_some() {
                history
            } else {
                file_history
            },
            history_steps: if settings.history_steps > 0 {
                settings.history_steps
            } else {
                history_steps
            },
            dt_scale,
        }
    }
}

/// Frames to capture in a barrier test: every twentieth step where a picture
/// is asked for.
pub fn barrier_frames(out: &Out) -> (n: usize)
    ensures
        n == if out.gif is Some || out.vtk is Some {
            20
        } else {
            0usize
        },
{
    if out.gif.is_some() || out.vtk.is_some() {
        20
    } else {
        0
    }
}

/// Turning on what is turned on already changes nothing.
pub proof fn law_configuring_twice(out: Out, before: Settings)
    ensures
        configured(out, configured(out, before)) == configured(out, before),
{
}

/// The first node of the accelerometer of a name.
pub fn rear_node(accelerometers: &Vec<Accelerometer>, name: &str) -> (r: Option<usize>)
    ensures
        match r {
            Some(node) => exists|k: int|
                #[trigger] is_first_of(accelerometers@, name@, k)
                    && accelerometers@[k].nodes@.len() > 0 && accelerometers@[k].nodes@[0] == node,
            None => forall|k: int|
                #[trigger] is_first_of(accelerometers@, name@, k)
                    ==> accelerometers@[k].nodes@.len() == 0,
        },
{
    let mut k: usize = 0;
    while k < accelerometers.len()
        invariant
            k <= accelerometers@.len(),
            forall|i: int| 0 <= i < k ==> (#[trigger] accelerometers@[i]).name@ != name@,
        decreases accelerometers.len() - k,
    {
        if same_text(&accelerometers[k].name, name) {
            assert(is_first_of(accelerometers@, name@, k as int));
            let nodes: &Vec<usize> = &accelerometers[k].nodes;
            if nodes.len() == 0 {
                assert forall|i: int| #[trigger] is_first_of(
                    accelerometers@,
                    name@,
                    i,
                ) implies accelerometers@[i].nodes@.len() == 0 by {
                    if i < k {
                        assert(accelerometers@[i].name@ != name@);
                    } else if k < i {
                        assert(accelerometers@[k as int].name@ != name@);
                    }
                }
                return None;
            }
            return Some(nodes[0]);
        }
        k += 1;
    }
    None
}

proof fn lemma_names_differ()
    ensures
        "silverado"@ != "silverado-raw"@,
        "silverado"@ != "neon"@,
        "silverado"@ != "neon-raw"@,
        "silverado"@ != "neon-pulse"@,
        "silverado-raw"@ != "neon"@,
        "silverado-raw"@ != "neon-raw"@,
        "silverado-raw"@ != "neon-pulse"@,
        "neon"@ != "neon-raw"@,
        "neon"@ != "neon-pulse"@,
        "neon-raw"@ != "neon-pulse"@,
        "neon-side"@ != "silverado"@,
        "neon-side"@ != "silverado-raw"@,
        "neon-side"@ != "neon-raw"@,
        "neon-side-raw"@ != "silverado"@,
        "neon-side-raw"@ != "silverado-raw"@,
        "neon-side-raw"@ != "neon-raw"@,
        "neon-side-raw"@ != "neon-side"@,
{
    reveal_strlit("silverado");
    reveal_strlit("silverado-raw");
    reveal_strlit("neon");
    reveal_strlit("neon-raw");
    reveal_strlit("neon-pulse");
    reveal_strlit("neon-side");
    reveal_strlit("neon-side-raw");
    assert("silverado"@.len() == 9);
    assert("silverado-raw"@.len() == 13);
    assert("neon"@.len() == 4);
    assert("neon-raw"@.len() == 8);
    assert("neon-pulse"@.len() == 10);
    assert("neon-side"@.len() == 9);
    assert("neon-side-raw"@.len() == 13);
    assert("neon-side"@[0] != "silverado"@[0]);
    assert("neon-side-raw"@[0] != "silverado-raw"@[0]);
}

/// Each preset answers to its own name and to no other.
pub proof fn law_presets_have_one_name(name: Seq<char>)
    ensures
        preset_named(name) == Some(Preset::Silverado) <==> name == "silverado"@,
        preset_named(name) == Some(Preset::SilveradoRaw) <==> name == "silverado-raw"@,
        preset_named(name) == Some(Preset::Neon) <==> name == "neon"@,
        preset_named(name) == Some(Preset::NeonRaw) <==> name == "neon-raw"@,
        preset_named(name) == Some(Preset::NeonPulse) <==> name == "neon-pulse"@,
{
    lemma_names_differ();
}

/// A text begins with another where it is that text and something behind it.
pub proof fn law_beginnings(p: Seq<char>, rest: Seq<char>, s: Seq<char>)
    ensures
        begins(p + rest, p),
        begins(s, p) ==> s == p + s.skip(p.len() as int),
{
    assert((p + rest).take(p.len() as int) =~= p);
    if begins(s, p) {
        assert(s =~= s.take(p.len() as int) + s.skip(p.len() as int));
    }
}

/// A barrier test aims at the raw vehicle of the one that it starts from. It is
/// turned to the side for the two names of side tests, and runs as a side test for
/// every name that begins so.
pub proof fn law_barrier_tests(name: Seq<char>, rest: Seq<char>)
    ensures
        ({
            let t = barrier_named(name);
            &&& t.start is Silverado || t.start is SilveradoRaw ==> t.target is SilveradoRaw
            &&& t.start is Neon || t.start is NeonRaw ==> t.target is NeonRaw
            &&& !(t.start is NeonPulse)
            &&& t.start is Silverado <==> name == "silverado"@
            &&& t.start is SilveradoRaw <==> name == "silverado-raw"@
            &&& t.start is NeonRaw <==> name == "neon-raw"@ || name == "neon-side-raw"@
            &&& t.turned <==> name == "neon-side"@ || name == "neon-side-raw"@
            &&& t.turned ==> t.side
            &&& t.side <==> begins(name, "neon-side"@)
        }),
        barrier_named("neon-side"@ + rest).side,
{
    lemma_names_differ();
    law_beginnings("neon-side"@, rest, name);
    reveal_strlit("neon-side");
    reveal_strlit("neon-side-raw");
    assert("neon-side-raw"@.take(9) =~= "neon-side"@);
    assert("neon-side"@.take(9) =~= "neon-side"@);
}

/// A picture turns frames on, every fifteenth step where none are asked for; a
/// history sets how often it is sampled, every step at the least; a safety factor
/// replaces the one that there is. Nothing else changes, and without any of them
/// nothing does.
pub proof fn law_outputs_turn_on_what_they_need(out: Out, before: Settings)
    ensures
        ({
            let s = configured(out, before);
            let picture = out.gif is Some || out.vtk is Some;
            &&& picture && before.frame_steps == 0 ==> s.frame_steps == 15
            &&& !picture || before.frame_steps > 0 ==> s.frame_steps == before.frame_steps
            &&& picture ==> s.frame_steps > 0
            &&& out.history is None ==> s.history_steps == before.history_steps
            &&& out.history is Some && out.history_steps > 0 ==> s.history_steps
                == out.history_steps
            &&& out.history is Some && out.history_steps == 0 ==> s.history_steps == 1
            &&& out.dt_scale is None ==> s.dt_scale == before.dt_scale
            &&& out.dt_scale is Some ==> s.dt_scale == out.dt_scale->0
            &&& s.end_time == before.end_time
            &&& s.time_step == before.time_step
            &&& s.adaptive_check_steps == before.adaptive_check_steps
            &&& s.hourglass == before.hourglass
            &&& s.velocity_damping == before.velocity_damping
            &&& s.simd == before.simd
            &&& s.threads == before.threads
            &&& s.mass_scaling == before.mass_scaling
        }),
{
}

} // verus!
