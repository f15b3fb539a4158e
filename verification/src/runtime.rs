//! Per-device state of the layer: the running preset, the frame ring, the
//! swapchains, and what changes from one present to the next.

use crate::accuracy;
use crate::config;
use crate::control::{self, Control};
use crate::frame::{self, FrameInput, Step};
use crate::ipc::{self, Capture, ColorSpace, Extent, HdrSettings, Output, Param, Rect};
use crate::screen;
use crate::single::{self, Single};
use crate::swapchain::{self, SourceImage, SwapchainState};
use crate::text;
use vstd::prelude::*;

verus! {

/// Number of frames the layer keeps in flight.
pub const RING: usize = 3;

/// A compiled preset waiting to be installed.
pub struct Loaded {
    pub presets: Vec<String>,
    pub params: Vec<Param>,
    /// Color space the final pass writes.
    pub color_space: ColorSpace,
    /// The upload to submit with the first frame.
    pub upload: u64,
}

/// The preset that runs.
pub struct ActiveChain {
    pub color_space: ColorSpace,
    /// Metadata; `initial` is the preset's own value.
    pub params: Vec<Param>,
}

pub struct Runtime {
    /// Slot of the ring that the next frame uses.
    pub next_slot: usize,
    /// Preset upload submitted with each slot; it is released once the frame
    /// of that slot is over.
    pub inits: Vec<Option<u64>>,
    pub chain: Option<ActiveChain>,
    /// Upload of the installed preset, submitted with the next frame.
    pub pending_init: Option<u64>,
    /// A preset is being compiled in the background.
    pub loading: bool,
    /// Set after a frame error: presents pass through until another preset is
    /// installed.
    pub failed: bool,
    pub enabled: bool,
    pub hdr: HdrSettings,
    pub applied_preset_gen: Option<u64>,
    pub applied_params_gen: Option<u64>,
    pub applied_source_gen: u64,
    pub swapchains: Vec<SwapchainState>,
    pub frame_count: usize,
    /// Rates are counted over a window.
    pub frames_in_window: u32,
    pub presents_in_window: u32,
    /// Application frame rate, bound as the `FPS` uniform.
    pub fps: Single,
    /// Presentations per second (subframes included).
    pub present_fps: Single,
}

/// The image fed to the preset lies on the screen.
pub open spec fn state_wf(s: SwapchainState) -> bool {
    s.source is Some ==> {
        &&& screen::placeable(s.extent)
        &&& screen::inside(s.source->0.rect, s.extent)
        &&& screen::inside(s.source->0.display, s.extent)
    }
}

/// No swapchain is listed twice.
pub open spec fn handles_differ(v: Seq<SwapchainState>) -> bool {
    forall|i: int, j: int|
        0 <= i < j < v.len() ==> (#[trigger] v[i]).handle != (#[trigger] v[j]).handle
}

/// Whether a swapchain of that handle is listed.
pub open spec fn tracks(v: Seq<SwapchainState>, handle: u64) -> bool {
    exists|i: int| 0 <= i < v.len() && (#[trigger] v[i]).handle == handle
}

/// What a change of settings asks of the device.
pub struct Changes {
    /// Presets to compile in the background.
    pub load: Option<Vec<String>>,
    /// Parameter values to hand to the preset.
    pub values: Option<Vec<(String, Single)>>,
    /// The source images are to be made anew.
    pub rebuild: bool,
}

/// The values that the parameters of a preset should have.
pub open spec fn wanted_values(params: Seq<Param>, overrides: Map<Seq<char>, Single>) -> Seq<
    (Seq<char>, Single),
> {
    Seq::new(
        params.len(),
        |i: int|
            (
                params[i].name@,
                control::value_of(overrides, params[i].name@, params[i].initial),
            ),
    )
}

/// The names and values of a list.
pub open spec fn listed_values(v: Seq<(String, Single)>) -> Seq<(Seq<char>, Single)> {
    v.map_values(|e: (String, Single)| (e.0@, e.1))
}

/// `params` with the values they should have.
pub open spec fn valued_params(params: Seq<Param>, overrides: Map<Seq<char>, Single>) -> Seq<Param> {
    Seq::new(
        params.len(),
        |i: int|
            control::revalued(
                params[i],
                control::value_of(overrides, params[i].name@, params[i].initial),
            ),
    )
}

fn value_params(params: &Vec<Param>, ctl: &Control) -> (r: Vec<Param>)
    requires
        ctl.wf(),
    ensures
        r@ == valued_params(params@, ctl.overrides@),
{
    let mut out: Vec<Param> = Vec::new();
    let mut i: usize = 0;
    while i < params.len()
        invariant
            i <= params@.len(),
            ctl.wf(),
            out@ == valued_params(params@, ctl.overrides@).take(i as int),
        decreases params@.len() - i,
    {
        let mut p: Param = params[i].copy();
        p.value = ctl.param_value(params[i].name.as_str(), params[i].initial);
        out.push(p);
        i = i + 1;
        assert(out@ =~= valued_params(params@, ctl.overrides@).take(i as int));
    }
    assert(valued_params(params@, ctl.overrides@).take(i as int) =~= valued_params(
        params@,
        ctl.overrides@,
    ));
    out
}

fn want_values(params: &Vec<Param>, ctl: &Control) -> (r: Vec<(String, Single)>)
    requires
        ctl.wf(),
    ensures
        listed_values(r@) == wanted_values(params@, ctl.overrides@),
{
    let mut out: Vec<(String, Single)> = Vec::new();
    let mut i: usize = 0;
    assert(listed_values(out@) =~= wanted_values(params@, ctl.overrides@).take(0));
    while i < params.len()
        invariant
            i <= params@.len(),
            ctl.wf(),
            listed_values(out@) == wanted_values(params@, ctl.overrides@).take(i as int),
        decreases params@.len() - i,
    {
        let ghost before = listed_values(out@);
        let v: Single = ctl.param_value(params[i].name.as_str(), params[i].initial);
        out.push((params[i].name.clone(), v));
        assert(listed_values(out@) =~= before.push((params@[i as int].name@, v)));
        i = i + 1;
        assert(listed_values(out@) =~= wanted_values(params@, ctl.overrides@).take(i as int));
    }
    assert(wanted_values(params@, ctl.overrides@).take(i as int) =~= wanted_values(
        params@,
        ctl.overrides@,
    ));
    out
}

/// The overrides that no parameter of the preset goes by, in the order of their
/// names.
pub open spec fn unmatched(overrides: Seq<(String, Single)>, params: Seq<Param>) -> Seq<Seq<char>>
    decreases overrides.len(),
{
    if overrides.len() == 0 {
        seq![]
    } else {
        let before = unmatched(overrides.drop_last(), params);
        let name = overrides.last().0@;
        if control::known(params, name) {
            before
        } else {
            before.push(name)
        }
    }
}

/// The overrides that no parameter of the preset goes by.
pub fn unknown_overrides(ctl: &Control, params: &Vec<Param>) -> (r: Vec<String>)
    ensures
        text::texts(r@) == unmatched(ctl.overrides.items@, params@),
{
    let ghost all = ctl.overrides.items@;
    let mut out: Vec<String> = Vec::new();
    let mut i: usize = 0;
    assert(all.take(0) =~= Seq::empty());
    assert(text::texts(out@) =~= Seq::empty());
    while i < ctl.overrides.items.len()
        invariant
            i <= ctl.overrides.items@.len(),
            all == ctl.overrides.items@,
            text::texts(out@) == unmatched(all.take(i as int), params@),
        decreases ctl.overrides.items@.len() - i,
    {
        let ghost before = text::texts(out@);
        assert(all.take(i as int + 1).drop_last() =~= all.take(i as int));
        assert(all.take(i as int + 1).last() == all[i as int]);
        if !is_known(params, ctl.overrides.items[i].0.as_str()) {
            out.push(ctl.overrides.items[i].0.clone());
            assert(text::texts(out@) =~= before.push(all[i as int].0@));
        }
        i = i + 1;
    }
    assert(all.take(i as int) =~= all);
    out
}

fn is_known(params: &Vec<Param>, name: &str) -> (r: bool)
    ensures
        r == control::known(params@, name@),
{
    let mut i: usize = 0;
    while i < params.len()
        invariant
            i <= params@.len(),
            forall|j: int| 0 <= j < i ==> (#[trigger] params@[j]).name@ != name@,
        decreases params@.len() - i,
    {
        if text::equal_texts(params[i].name.as_str(), name) {
            return true;
        }
        i = i + 1;
    }
    false
}

/// Uploads held in the slots, in their order.
pub open spec fn held(inits: Seq<Option<u64>>) -> Seq<u64>
    decreases inits.len(),
{
    if inits.len() == 0 {
        seq![]
    } else {
        match inits.last() {
            Some(u) => held(inits.drop_last()).push(u),
            None => held(inits.drop_last()),
        }
    }
}

/// The window is long enough to measure rates over.
pub open spec fn measurable(seconds: Single) -> bool {
    single::of_fraction(1, 2).up_to(seconds)
}

/// The preset and its settings, as far as a control state has them.
pub open spec fn installed(c: Control, loaded: Loaded, n: Control) -> bool {
    &&& n.params@ == valued_params(loaded.params@, c.overrides@)
    &&& n.running_presets@ == loaded.presets@
    &&& n == (Control {
        params: n.params,
        running_presets: n.running_presets,
        preset_color_space: Some(loaded.color_space),
        loading: false,
        error: None,
        ..c
    })
}

/// A preset was asked for that was neither loaded nor tried yet, and none is
/// being compiled.
pub open spec fn fresh_preset(rt: Runtime, c: Control) -> bool {
    !rt.loading && rt.applied_preset_gen != Some(c.preset_gen)
}

/// Compilation of a preset starts.
pub open spec fn starts_load(rt: Runtime, c: Control) -> bool {
    fresh_preset(rt, c) && c.presets@.len() > 0
}

/// The running preset has not got the parameter values that are asked for.
pub open spec fn stale_params(rt: Runtime, c: Control) -> bool {
    rt.chain is Some && rt.applied_params_gen != Some(c.params_gen)
}

/// What a present applies of the control state `c`, and what it leaves of the
/// two states.
pub open spec fn synced(rt: Runtime, c: Control, r: Changes, rt2: Runtime, c2: Control) -> bool {
    &&& r.load is Some <==> starts_load(rt, c)
    &&& starts_load(rt, c) ==> r.load->0@ == c.presets@
    &&& r.values is Some <==> stale_params(rt, c)
    &&& stale_params(rt, c) ==> listed_values(r.values->0@) == wanted_values(
        rt.chain->0.params@,
        c.overrides@,
    )
    &&& r.rebuild == (rt.applied_source_gen != c.source_gen)
    &&& c2 == (Control {
        source_fps: rt.fps,
        present_fps: rt.present_fps,
        loading: c.loading || starts_load(rt, c),
        ..c
    })
    &&& rt2 == (Runtime {
        enabled: c.enabled,
        hdr: c.hdr,
        loading: rt.loading || starts_load(rt, c),
        applied_preset_gen: if fresh_preset(rt, c) {
            Some(c.preset_gen)
        } else {
            rt.applied_preset_gen
        },
        applied_params_gen: if stale_params(rt, c) {
            Some(c.params_gen)
        } else {
            rt.applied_params_gen
        },
        applied_source_gen: c.source_gen,
        ..rt
    })
}

/// One frame to record.
pub struct Frame {
    /// Slot of the ring that it uses.
    pub slot: usize,
    /// What to record.
    pub steps: Vec<Step>,
    /// Position of the swapchain.
    pub swapchain: usize,
}

/// What the preset is told about a frame.
#[derive(Clone, Copy, PartialEq, Eq, Debug, Structural)]
pub struct FrameUniforms {
    /// Milliseconds since the application's last frame.
    pub frametime_delta: u32,
    pub frames_per_second: Single,
    pub color_space: ColorSpace,
    pub brightness_nits: Single,
    pub expand_gamut: u32,
    pub current_subframe: u32,
    pub total_subframes: u32,
    pub frame_count: usize,
}

/// The pending upload goes with a slot.
pub open spec fn upload_taken(pending: Option<u64>, inits: Seq<Option<u64>>, slot: int) -> (
    Option<u64>,
    Seq<Option<u64>>,
) {
    if pending is Some {
        (None, inits.update(slot, pending))
    } else {
        (None, inits)
    }
}

/// The upload of a slot is pending again.
pub open spec fn upload_returned(pending: Option<u64>, inits: Seq<Option<u64>>, slot: int) -> (
    Option<u64>,
    Seq<Option<u64>>,
) {
    if inits[slot] is Some {
        (inits[slot], inits.update(slot, None))
    } else {
        (pending, inits)
    }
}

/// The upload is pending or goes with a slot.
pub open spec fn has_upload(pending: Option<u64>, inits: Seq<Option<u64>>, u: u64) -> bool {
    pending == Some(u) || inits.contains(Some(u))
}

/// What a frame of a swapchain depends on.
pub open spec fn input_of(
    s: SwapchainState,
    src: SourceImage,
    subframe: bool,
    capture: Option<Extent>,
) -> FrameInput {
    FrameInput {
        extent: s.extent,
        picture: src.rect,
        input: src.extent,
        filter: src.filter,
        display: src.display,
        staged: s.staged,
        black: s.black,
        subframe,
        capture,
    }
}

impl Runtime {
    pub open spec fn wf(&self) -> bool {
        &&& self.next_slot < RING
        &&& self.inits@.len() == RING
        &&& handles_differ(self.swapchains@)
        &&& forall|i: int|
            0 <= i < self.swapchains@.len() ==> state_wf(#[trigger] self.swapchains@[i])
    }

    /// Frames are processed.
    pub open spec fn renders(&self) -> bool {
        self.chain is Some && self.enabled && !self.failed
    }

    /// The runtime that a device starts with.
    pub fn new(hdr: HdrSettings, source_gen: u64) -> (r: Runtime)
        ensures
            r.wf(),
            r.next_slot == 0,
            r.inits@ == seq![None::<u64>, None, None],
            r.chain is None,
            r.pending_init is None,
            !r.loading,
            !r.failed,
            r.enabled,
            r.hdr == hdr,
            r.applied_preset_gen is None,
            r.applied_params_gen is None,
            r.applied_source_gen == source_gen,
            r.swapchains@ == Seq::<SwapchainState>::empty(),
            r.frame_count == 0,
            r.frames_in_window == 0,
            r.presents_in_window == 0,
            r.fps == single::of_integer(60),
            r.present_fps == single::of_integer(60),
    {
        let mut inits: Vec<Option<u64>> = Vec::new();
        inits.push(None);
        inits.push(None);
        inits.push(None);
        assert(inits@ =~= seq![None::<u64>, None, None]);
        Runtime {
            next_slot: 0,
            inits,
            chain: None,
            pending_init: None,
            loading: false,
            failed: false,
            enabled: true,
            hdr,
            applied_preset_gen: None,
            applied_params_gen: None,
            applied_source_gen: source_gen,
            swapchains: Vec::new(),
            frame_count: 0,
            frames_in_window: 0,
            presents_in_window: 0,
            fps: Single::of_u32(60),
            present_fps: Single::of_u32(60),
        }
    }

    pub fn is_rendering(&self) -> (r: bool)
        ensures
            r == self.renders(),
    {
        self.chain.is_some() && self.enabled && !self.failed
    }

    /// First preset load, done synchronously at swapchain creation so the very
    /// first frames are already processed: the presets to load now, if any.
    pub fn ensure_chain(&mut self, ctl: &mut Control) -> (r: Option<Vec<String>>)
        ensures
            ({
                let first = old(self).chain is None && !old(self).loading
                    && old(self).applied_preset_gen is None;
                &&& *final(self) == if first {
                    Runtime { applied_preset_gen: Some(old(ctl).preset_gen), ..*old(self) }
                } else {
                    *old(self)
                }
                &&& *final(ctl) == if r is Some {
                    Control { loading: true, ..*old(ctl) }
                } else {
                    *old(ctl)
                }
                &&& r is Some <==> first && old(ctl).presets@.len() > 0
                &&& r is Some ==> r->0@ == old(ctl).presets@
            }),
    {
        if self.chain.is_some() || self.loading || self.applied_preset_gen.is_some() {
            return None;
        }
        self.applied_preset_gen = Some(ctl.preset_gen);
        if ctl.presets.len() == 0 {
            return None;
        }
        ctl.loading = true;
        Some(config::copy_texts(&ctl.presets))
    }

    /// Waiting for all frames in flight releases the uploads of all slots.
    pub fn release_slots(&mut self) -> (r: Vec<u64>)
        requires
            old(self).wf(),
        ensures
            final(self).wf(),
            r@ == held(old(self).inits@),
            final(self).inits@ == seq![None::<u64>, None, None],
            *final(self) == (Runtime { inits: final(self).inits, ..*old(self) }),
    {
        let mut out: Vec<u64> = Vec::new();
        let mut empty: Vec<Option<u64>> = Vec::new();
        let mut i: usize = 0;
        assert(self.inits@.take(0) =~= Seq::empty());
        while i < self.inits.len()
            invariant
                i <= self.inits@.len(),
                out@ == held(self.inits@.take(i as int)),
                empty@.len() == i,
                forall|j: int| 0 <= j < i ==> (#[trigger] empty@[j]) is None,
            decreases self.inits@.len() - i,
        {
            assert(self.inits@.take(i as int + 1).drop_last() =~= self.inits@.take(i as int));
            if let Some(u) = self.inits[i] {
                out.push(u);
            }
            empty.push(None);
            i = i + 1;
        }
        assert(self.inits@.take(i as int) =~= self.inits@);
        assert(empty@ =~= seq![None::<u64>, None, None]);
        self.inits = empty;
        out
    }

    /// Takes over what came of loading a preset. The result lists the uploads
    /// to release, now that no frame is in flight.
    pub fn finish_load(&mut self, ctl: &mut Control, result: Result<Loaded, String>) -> (r: Vec<u64>)
        requires
            old(self).wf(),
            old(ctl).wf(),
        ensures
            final(self).wf(),
            final(ctl).wf(),
            match result {
                Ok(loaded) => {
                    &&& installed(*old(ctl), loaded, *final(ctl))
                    &&& r@ == match old(self).pending_init {
                        Some(u) => held(old(self).inits@).push(u),
                        None => held(old(self).inits@),
                    }
                    &&& final(self).inits@ == seq![None::<u64>, None, None]
                    &&& final(self).chain is Some
                    &&& final(self).chain->0.color_space == loaded.color_space
                    &&& final(self).chain->0.params@ == loaded.params@
                    &&& *final(self) == (Runtime {
                        inits: final(self).inits,
                        chain: final(self).chain,
                        pending_init: Some(loaded.upload),
                        failed: false,
                        applied_params_gen: None,
                        loading: false,
                        ..*old(self)
                    })
                },
                Err(e) => {
                    &&& *final(ctl) == (Control { loading: false, error: Some(e), ..*old(ctl) })
                    &&& *final(self) == (Runtime { loading: false, ..*old(self) })
                    &&& r@ == Seq::<u64>::empty()
                },
            },
    {
        self.loading = false;
        ctl.loading = false;
        match result {
            Ok(loaded) => {
                // The previous preset may still be used by frames in flight.
                let mut out: Vec<u64> = self.release_slots();
                if let Some(u) = self.pending_init {
                    // Never submitted (layer was disabled).
                    out.push(u);
                }
                ctl.params = value_params(&loaded.params, ctl);
                ctl.running_presets = loaded.presets;
                ctl.preset_color_space = Some(loaded.color_space);
                ctl.error = None;
                self.chain = Some(
                    ActiveChain { color_space: loaded.color_space, params: loaded.params },
                );
                self.pending_init = Some(loaded.upload);
                self.failed = false;
                self.applied_params_gen = None;
                out
            },
            Err(e) => {
                ctl.error = Some(e);
                Vec::new()
            },
        }
    }

    /// Measures the rates over a window of that many seconds; says whether a
    /// new window begins.
    pub fn measure(&mut self, seconds: Single) -> (r: bool)
        ensures
            r == measurable(seconds),
            *final(self) == if r {
                Runtime {
                    fps: single::quotient(
                        single::of_integer(old(self).frames_in_window as nat),
                        seconds,
                    ),
                    present_fps: single::quotient(
                        single::of_integer(old(self).presents_in_window as nat),
                        seconds,
                    ),
                    frames_in_window: 0,
                    presents_in_window: 0,
                    ..*old(self)
                }
            } else {
                *old(self)
            },
    {
        if !Single::fraction(1, 2).is_up_to(seconds) {
            return false;
        }
        self.fps = Single::of_u32(self.frames_in_window).over(seconds);
        self.present_fps = Single::of_u32(self.presents_in_window).over(seconds);
        self.frames_in_window = 0;
        self.presents_in_window = 0;
        true
    }

    /// Applies pending changes from the control state, at every present,
    /// before rendering. One preset is loaded at a time: a newer request made
    /// meanwhile starts as soon as the current one is installed.
    pub fn sync(&mut self, ctl: &mut Control) -> (r: Changes)
        requires
            old(self).wf(),
            old(ctl).wf(),
        ensures
            final(self).wf(),
            final(ctl).wf(),
            synced(*old(self), *old(ctl), r, *final(self), *final(ctl)),
    {
        self.enabled = ctl.enabled;
        self.hdr = ctl.hdr;
        ctl.source_fps = self.fps;
        ctl.present_fps = self.present_fps;
        let mut load: Option<Vec<String>> = None;
        let known: bool = match self.applied_preset_gen {
            Some(g) => g == ctl.preset_gen,
            None => false,
        };
        if !self.loading && !known {
            self.applied_preset_gen = Some(ctl.preset_gen);
            if ctl.presets.len() > 0 {
                ctl.loading = true;
                self.loading = true;
                load = Some(config::copy_texts(&ctl.presets));
            }
        }
        let mut values: Option<Vec<(String, Single)>> = None;
        let pushed: bool = match self.applied_params_gen {
            Some(g) => g == ctl.params_gen,
            None => false,
        };
        if !pushed {
            if let Some(active) = &self.chain {
                values = Some(want_values(&active.params, ctl));
            }
            if self.chain.is_some() {
                self.applied_params_gen = Some(ctl.params_gen);
            }
        }
        let rebuild: bool = self.applied_source_gen != ctl.source_gen;
        self.applied_source_gen = ctl.source_gen;
        Changes { load, values, rebuild }
    }

    /// A load that was asked for could not be started.
    pub fn load_refused(&mut self, ctl: &mut Control, why: &str)
        ensures
            *final(self) == (Runtime { loading: false, ..*old(self) }),
            final(ctl).error is Some,
            final(ctl).error->0@ == "cannot spawn loader: "@ + why@,
            *final(ctl) == (Control { loading: false, error: final(ctl).error, ..*old(ctl) }),
    {
        let mut out: Vec<char> = text::chars_of("cannot spawn loader: ");
        text::append_text(&mut out, why);
        self.loading = false;
        ctl.loading = false;
        ctl.error = Some(text::text_of(out.as_slice()));
    }

    // ------------------------------------------------------------- swapchains

    /// Position of a swapchain.
    pub fn find(&self, handle: u64) -> (r: Option<usize>)
        ensures
            match r {
                Some(i) => i < self.swapchains@.len() && self.swapchains@[i as int].handle
                    == handle && forall|j: int|
                    0 <= j < i ==> (#[trigger] self.swapchains@[j]).handle != handle,
                None => !tracks(self.swapchains@, handle),
            },
    {
        let mut i: usize = 0;
        while i < self.swapchains.len()
            invariant
                i <= self.swapchains@.len(),
                forall|j: int| 0 <= j < i ==> (#[trigger] self.swapchains@[j]).handle != handle,
            decreases self.swapchains@.len() - i,
        {
            if self.swapchains[i].handle == handle {
                return Some(i);
            }
            i = i + 1;
        }
        None
    }

    /// Publishes the swapchains being processed.
    pub fn publish_outputs(&self, ctl: &mut Control)
        requires
            old(ctl).wf(),
        ensures
            final(ctl).wf(),
            final(ctl).outputs@.len() == self.swapchains@.len(),
            forall|i: int|
                0 <= i < self.swapchains@.len() ==> swapchain::published(
                    self.swapchains@[i],
                    #[trigger] final(ctl).outputs@[i],
                ),
            *final(ctl) == (Control { outputs: final(ctl).outputs, ..*old(ctl) }),
    {
        let mut out: Vec<Output> = Vec::new();
        let mut i: usize = 0;
        while i < self.swapchains.len()
            invariant
                i <= self.swapchains@.len(),
                out@.len() == i,
                forall|j: int|
                    0 <= j < i ==> swapchain::published(self.swapchains@[j], #[trigger] out@[j]),
            decreases self.swapchains@.len() - i,
        {
            out.push(self.swapchains[i].output());
            i = i + 1;
        }
        ctl.outputs = out;
    }

    /// Takes on a swapchain; one of the same handle is replaced.
    pub fn track_swapchain(&mut self, state: SwapchainState)
        requires
            old(self).wf(),
            state_wf(state),
        ensures
            final(self).wf(),
            !tracks(old(self).swapchains@, state.handle) ==> final(self).swapchains@
                == old(self).swapchains@.push(state),
            forall|i: int|
                0 <= i < old(self).swapchains@.len() && (#[trigger] old(self).swapchains@[i]).handle
                    == state.handle ==> final(self).swapchains@ == old(self).swapchains@.update(
                    i,
                    state,
                ),
            *final(self) == (Runtime { swapchains: final(self).swapchains, ..*old(self) }),
    {
        let ghost before = self.swapchains@;
        match self.find(state.handle) {
            Some(i) => {
                self.swapchains.set(i, state);
                proof {
                    let now = self.swapchains@;
                    assert forall|a: int, b: int| 0 <= a < b < now.len() implies (#[trigger]
                    now[a]).handle != (#[trigger] now[b]).handle by {
                        assert(now[a].handle == before[a].handle);
                        assert(now[b].handle == before[b].handle);
                    }
                    assert forall|a: int|
                        0 <= a < before.len() && (#[trigger] before[a]).handle
                            == state.handle implies now == before.update(a, state) by {
                        if a < i {
                            assert(before[a].handle != before[i as int].handle);
                        } else if a > i {
                            assert(before[i as int].handle != before[a].handle);
                        }
                    }
                }
            },
            None => {
                self.swapchains.push(state);
                proof {
                    let now = self.swapchains@;
                    assert forall|a: int, b: int| 0 <= a < b < now.len() implies (#[trigger]
                    now[a]).handle != (#[trigger] now[b]).handle by {
                        assert(now[a] == before[a]);
                        if b < before.len() {
                            assert(now[b] == before[b]);
                        }
                    }
                }
            },
        }
    }

    /// Lets go of a swapchain; says whether it was known.
    pub fn forget_swapchain(&mut self, handle: u64) -> (r: bool)
        requires
            old(self).wf(),
        ensures
            final(self).wf(),
            r == tracks(old(self).swapchains@, handle),
            !tracks(final(self).swapchains@, handle),
            forall|i: int|
                0 <= i < old(self).swapchains@.len() && (#[trigger] old(self).swapchains@[i]).handle
                    == handle ==> final(self).swapchains@ == old(self).swapchains@.remove(i),
            !r ==> *final(self) == *old(self),
            *final(self) == (Runtime { swapchains: final(self).swapchains, ..*old(self) }),
    {
        let ghost before = self.swapchains@;
        match self.find(handle) {
            Some(i) => {
                self.swapchains.remove(i);
                proof {
                    let now = self.swapchains@;
                    assert(now =~= before.remove(i as int));
                    assert forall|a: int, b: int| 0 <= a < b < now.len() implies (#[trigger]
                    now[a]).handle != (#[trigger] now[b]).handle by {
                        let a0 = if a < i { a } else { a + 1 };
                        let b0 = if b < i { b } else { b + 1 };
                        assert(now[a] == before[a0] && now[b] == before[b0]);
                    }
                    assert forall|a: int| 0 <= a < now.len() implies state_wf(#[trigger] now[a]) by {
                        let a0 = if a < i { a } else { a + 1 };
                        assert(now[a] == before[a0]);
                    }
                    assert forall|a: int|
                        0 <= a < before.len() && (#[trigger] before[a]).handle
                            == handle implies now == before.remove(a) by {
                        if a < i {
                            assert(before[a].handle != before[i as int].handle);
                        } else if a > i {
                            assert(before[i as int].handle != before[a].handle);
                        }
                    }
                    if tracks(now, handle) {
                        let a = choose|a: int|
                            0 <= a < now.len() && (#[trigger] now[a]).handle == handle;
                        let a0 = if a < i { a } else { a + 1 };
                        assert(now[a] == before[a0]);
                        if a0 < i {
                            assert(before[a0].handle != before[i as int].handle);
                        } else {
                            assert(before[i as int].handle != before[a0].handle);
                        }
                    }
                    assert(before[i as int].handle == handle);
                }
                true
            },
            None => false,
        }
    }

    /// Gives the swapchain at `i` another image for the preset, or none.
    pub fn set_source(&mut self, i: usize, source: Option<SourceImage>)
        requires
            old(self).wf(),
            i < old(self).swapchains@.len(),
            state_wf(
                SwapchainState { source, ..old(self).swapchains@[i as int] },
            ),
        ensures
            final(self).wf(),
            final(self).swapchains@ == old(self).swapchains@.update(
                i as int,
                SwapchainState { source, ..old(self).swapchains@[i as int] },
            ),
            *final(self) == (Runtime { swapchains: final(self).swapchains, ..*old(self) }),
    {
        let ghost before = self.swapchains@;
        let s: &SwapchainState = &self.swapchains[i];
        let state: SwapchainState = SwapchainState {
            handle: s.handle,
            images: s.images,
            format: s.format,
            source_format: s.source_format,
            extent: s.extent,
            output_format: s.output_format,
            color_space: s.color_space,
            promoted: s.promoted,
            staged: s.staged,
            black: s.black,
            source,
        };
        self.swapchains.set(i, state);
        proof {
            let now = self.swapchains@;
            assert forall|a: int, b: int| 0 <= a < b < now.len() implies (#[trigger] now[a]).handle
                != (#[trigger] now[b]).handle by {
                assert(now[a].handle == before[a].handle);
                assert(now[b].handle == before[b].handle);
            }
        }
    }

    // ----------------------------------------------------------------- frames

    /// A frame of that swapchain and image can be processed.
    pub open spec fn can_render(&self, handle: u64, image: u32, i: int) -> bool {
        &&& self.renders()
        &&& 0 <= i < self.swapchains@.len()
        &&& self.swapchains@[i].handle == handle
        &&& image < self.swapchains@[i].images
        &&& self.swapchains@[i].source is Some
    }

    /// Begins a frame: `None` leaves the swapchain untouched. `capture` is the
    /// size of the copy for the control panel, if there is a target for it.
    pub fn render(
        &mut self,
        handle: u64,
        image: u32,
        subframe: bool,
        capture: Option<Extent>,
    ) -> (r: Option<Frame>)
        requires
            old(self).wf(),
        ensures
            final(self).wf(),
            match r {
                Some(f) => {
                    let s = old(self).swapchains@[f.swapchain as int];
                    &&& old(self).can_render(handle, image, f.swapchain as int)
                    &&& f.slot == old(self).next_slot
                    &&& f.steps@ == frame::frame_steps(
                        input_of(s, s.source->0, subframe, capture),
                    )
                    &&& *final(self) == (Runtime {
                        next_slot: ((f.slot + 1) % RING as int) as usize,
                        ..*old(self)
                    })
                },
                None => (forall|i: int| !old(self).can_render(handle, image, i)) && *final(self)
                    == *old(self),
            },
    {
        if !self.is_rendering() {
            return None;
        }
        let at: usize = match self.find(handle) {
            Some(i) => i,
            None => {
                proof {
                    assert forall|i: int| !self.can_render(handle, image, i) by {
                        if self.can_render(handle, image, i) {
                            assert(self.swapchains@[i].handle == handle);
                        }
                    }
                }
                return None;
            },
        };
        proof {
            assert forall|i: int| #[trigger] self.can_render(handle, image, i) implies i == at by {
                if i < at {
                    assert(self.swapchains@[i].handle != handle);
                } else if i > at {
                    assert(self.swapchains@[at as int].handle != self.swapchains@[i].handle);
                }
            }
        }
        let s: &SwapchainState = &self.swapchains[at];
        let src: SourceImage = match s.source {
            Some(src) => src,
            None => {
                return None;
            },
        };
        if image as usize >= s.images {
            return None;
        }
        assert(state_wf(self.swapchains@[at as int]));
        let steps: Vec<Step> = frame::plan_frame(
            FrameInput {
                extent: s.extent,
                picture: src.rect,
                input: src.extent,
                filter: src.filter,
                display: src.display,
                staged: s.staged,
                black: s.black,
                subframe,
                capture,
            },
        );
        let slot: usize = self.next_slot;
        self.next_slot = (slot + 1) % RING;
        Some(Frame { slot, steps, swapchain: at })
    }

    /// Begins a black frame: its slot, or `None` if there is no such image.
    pub fn present_black(&mut self, handle: u64, image: u32) -> (r: Option<usize>)
        requires
            old(self).wf(),
            old(self).presents_in_window < u32::MAX,
        ensures
            final(self).wf(),
            match r {
                Some(slot) => {
                    &&& exists|i: int|
                        0 <= i < old(self).swapchains@.len() && (#[trigger] old(
                            self,
                        ).swapchains@[i]).handle == handle && image
                            < old(self).swapchains@[i].images
                    &&& slot == old(self).next_slot
                    &&& *final(self) == (Runtime {
                        next_slot: ((slot + 1) % RING as int) as usize,
                        presents_in_window: (old(self).presents_in_window + 1) as u32,
                        ..*old(self)
                    })
                },
                None => {
                    &&& forall|i: int|
                        0 <= i < old(self).swapchains@.len() ==> !((#[trigger] old(
                            self,
                        ).swapchains@[i]).handle == handle && image
                            < old(self).swapchains@[i].images)
                    &&& *final(self) == (Runtime {
                        presents_in_window: (old(self).presents_in_window + 1) as u32,
                        ..*old(self)
                    })
                },
            },
    {
        self.presents_in_window = self.presents_in_window + 1;
        match self.find(handle) {
            Some(at) => {
                if image as usize >= self.swapchains[at].images {
                    proof {
                        assert forall|i: int| 0 <= i < self.swapchains@.len() implies !((#[trigger]
                        self.swapchains@[i]).handle == handle && image
                            < self.swapchains@[i].images) by {
                            if i < at {
                                assert(self.swapchains@[i].handle != handle);
                            } else if i > at {
                                assert(self.swapchains@[at as int].handle
                                    != self.swapchains@[i].handle);
                            }
                        }
                    }
                    return None;
                }
                assert(self.swapchains@[at as int].handle == handle);
                let slot: usize = self.next_slot;
                self.next_slot = (slot + 1) % RING;
                Some(slot)
            },
            None => None,
        }
    }

    /// Counts a frame that is about to run.
    pub fn count_frame(&mut self, subframe: bool)
        requires
            old(self).wf(),
            old(self).frames_in_window < u32::MAX,
            old(self).presents_in_window < u32::MAX,
        ensures
            final(self).wf(),
            *final(self) == (Runtime {
                frames_in_window: if subframe {
                    old(self).frames_in_window
                } else {
                    (old(self).frames_in_window + 1) as u32
                },
                presents_in_window: (old(self).presents_in_window + 1) as u32,
                ..*old(self)
            }),
    {
        if !subframe {
            self.frames_in_window = self.frames_in_window + 1;
        }
        self.presents_in_window = self.presents_in_window + 1;
    }

    /// What the preset is told about a frame of the swapchain at `i`. The
    /// application's own rhythm counts: subframes do not shorten it. `elapsed`
    /// is the time since its last frame in milliseconds.
    pub fn uniforms(&self, i: usize, elapsed: Option<u64>, subframe: Option<(u32, u32)>) -> (r:
        FrameUniforms)
        requires
            i < self.swapchains@.len(),
        ensures
            r == (FrameUniforms {
                frametime_delta: match elapsed {
                    Some(ms) => (ms as int % 0x1_0000_0000) as u32,
                    None => 0,
                },
                frames_per_second: self.fps,
                color_space: self.swapchains@[i as int].color_space,
                brightness_nits: self.hdr.brightness_nits,
                expand_gamut: self.hdr.expand_gamut,
                current_subframe: match subframe {
                    Some((current, _)) => current,
                    None => 1,
                },
                total_subframes: match subframe {
                    Some((_, total)) => total,
                    None => 1,
                },
                frame_count: self.frame_count,
            }),
    {
        FrameUniforms {
            frametime_delta: match elapsed {
                Some(ms) => (ms % 0x1_0000_0000) as u32,
                None => 0,
            },
            frames_per_second: self.fps,
            color_space: self.swapchains[i].color_space,
            brightness_nits: self.hdr.brightness_nits,
            expand_gamut: self.hdr.expand_gamut,
            current_subframe: match subframe {
                Some((current, _)) => current,
                None => 1,
            },
            total_subframes: match subframe {
                Some((_, total)) => total,
                None => 1,
            },
            frame_count: self.frame_count,
        }
    }

    /// The preset could not run a frame: presents pass through from now on.
    pub fn fail(&mut self)
        requires
            old(self).wf(),
        ensures
            final(self).wf(),
            *final(self) == (Runtime { failed: true, ..*old(self) }),
    {
        self.failed = true;
    }

    /// The last frame of a slot is over: its upload, if it has one, is let go.
    pub fn release_slot(&mut self, slot: usize) -> (r: Option<u64>)
        requires
            old(self).wf(),
            slot < RING,
        ensures
            final(self).wf(),
            r == old(self).inits@[slot as int],
            final(self).inits@ == old(self).inits@.update(slot as int, None),
            *final(self) == (Runtime { inits: final(self).inits, ..*old(self) }),
    {
        let u: Option<u64> = self.inits[slot];
        self.inits.set(slot, None);
        u
    }

    /// The upload to submit before a frame, if one is pending; it stays with
    /// the slot until the frame is over.
    pub fn take_upload(&mut self, slot: usize) -> (r: Option<u64>)
        requires
            old(self).wf(),
            slot < RING,
        ensures
            final(self).wf(),
            r == old(self).pending_init,
            (final(self).pending_init, final(self).inits@) == upload_taken(
                old(self).pending_init,
                old(self).inits@,
                slot as int,
            ),
            *final(self) == (Runtime {
                pending_init: None,
                inits: final(self).inits,
                ..*old(self)
            }),
    {
        match self.pending_init {
            Some(u) => {
                self.pending_init = None;
                self.inits.set(slot, Some(u));
                Some(u)
            },
            None => None,
        }
    }

    /// The frame was submitted.
    pub fn submitted(&mut self)
        requires
            old(self).wf(),
            old(self).frame_count < usize::MAX,
        ensures
            final(self).wf(),
            *final(self) == (Runtime {
                frame_count: (old(self).frame_count + 1) as usize,
                ..*old(self)
            }),
    {
        self.frame_count = self.frame_count + 1;
    }

    /// The frame was not submitted: the upload is kept for the next attempt.
    pub fn not_submitted(&mut self, slot: usize)
        requires
            old(self).wf(),
            slot < RING,
        ensures
            final(self).wf(),
            (final(self).pending_init, final(self).inits@) == upload_returned(
                old(self).pending_init,
                old(self).inits@,
                slot as int,
            ),
            *final(self) == (Runtime {
                pending_init: final(self).pending_init,
                inits: final(self).inits,
                ..*old(self)
            }),
    {
        match self.inits[slot] {
            Some(u) => {
                self.pending_init = Some(u);
                self.inits.set(slot, None);
            },
            None => {
                assert(self.inits@.update(slot as int, None) =~= self.inits@);
            },
        }
    }

    /// Whether the same application frame is presented again, `total - 1`
    /// more times.
    pub fn presents_again(&self, handle: u64, total: u32) -> (r: bool)
        ensures
            r == (total > 1 && self.renders() && tracks(self.swapchains@, handle)),
    {
        total > 1 && self.is_rendering() && self.find(handle).is_some()
    }
}

// ------------------------------------------------------------------ frame runs

/// How far a frame has come.
#[derive(Clone, Copy, PartialEq, Eq, Debug, Structural)]
pub enum FramePhase {
    /// Its slot may still be in use.
    Waiting,
    /// The last frame of the slot is over, so that the upload which went with
    /// it, if any, is released; the commands are being recorded.
    Recording { released: Option<u64> },
    /// Its commands are being submitted, after an upload if there is one.
    Submitting { upload: Option<u64> },
    /// What was grabbed is being read back.
    Reading,
    /// It is submitted: the present waits on it.
    Done,
    /// Vulkan refused.
    Failed,
}

/// A frame on its way.
#[derive(Clone, Copy, PartialEq, Eq, Debug, Structural)]
pub struct FrameRun {
    pub slot: usize,
    /// A picture is grabbed on the way.
    pub captures: bool,
    pub phase: FramePhase,
}

/// The phase after one that went well, or not.
pub open spec fn next_phase(
    run: FrameRun,
    pending: Option<u64>,
    inits: Seq<Option<u64>>,
    ok: bool,
) -> FramePhase {
    match run.phase {
        FramePhase::Waiting => if ok {
            FramePhase::Recording { released: inits[run.slot as int] }
        } else {
            FramePhase::Failed
        },
        FramePhase::Recording { released } => if ok {
            FramePhase::Submitting { upload: pending }
        } else {
            FramePhase::Failed
        },
        FramePhase::Submitting { upload } => if !ok {
            FramePhase::Failed
        } else if run.captures {
            FramePhase::Reading
        } else {
            FramePhase::Done
        },
        FramePhase::Reading => FramePhase::Done,
        FramePhase::Done => FramePhase::Done,
        FramePhase::Failed => FramePhase::Failed,
    }
}

/// The pending upload and those of the slots after a phase. The slot lets go of
/// its upload once its last frame is known to be over, and not before.
pub open spec fn uploads_after(
    run: FrameRun,
    pending: Option<u64>,
    inits: Seq<Option<u64>>,
    ok: bool,
) -> (Option<u64>, Seq<Option<u64>>) {
    match run.phase {
        FramePhase::Waiting => if ok {
            (pending, inits.update(run.slot as int, None))
        } else {
            (pending, inits)
        },
        FramePhase::Recording { released } => if ok {
            upload_taken(pending, inits, run.slot as int)
        } else {
            (pending, inits)
        },
        FramePhase::Submitting { upload } => if ok {
            (pending, inits)
        } else {
            upload_returned(pending, inits, run.slot as int)
        },
        _ => (pending, inits),
    }
}

/// Frames counted after a phase: one more once it is submitted.
pub open spec fn count_after(run: FrameRun, count: usize, ok: bool) -> int {
    if run.phase is Submitting && ok {
        count + 1
    } else {
        count as int
    }
}

impl FrameRun {
    /// A frame that begins in `slot`.
    pub fn new(slot: usize, captures: bool) -> (r: FrameRun)
        requires
            slot < RING,
        ensures
            r == (FrameRun { slot, captures, phase: FramePhase::Waiting }),
    {
        FrameRun { slot, captures, phase: FramePhase::Waiting }
    }

    /// Goes on after a phase that went well, or not.
    pub fn advance(&mut self, rt: &mut Runtime, ok: bool)
        requires
            old(rt).wf(),
            old(self).slot < RING,
            old(rt).frame_count < usize::MAX,
        ensures
            final(rt).wf(),
            *final(self) == (FrameRun {
                phase: next_phase(*old(self), old(rt).pending_init, old(rt).inits@, ok),
                ..*old(self)
            }),
            (final(rt).pending_init, final(rt).inits@) == uploads_after(
                *old(self),
                old(rt).pending_init,
                old(rt).inits@,
                ok,
            ),
            final(rt).frame_count == count_after(*old(self), old(rt).frame_count, ok),
            *final(rt) == (Runtime {
                pending_init: final(rt).pending_init,
                inits: final(rt).inits,
                frame_count: final(rt).frame_count,
                ..*old(rt)
            }),
    {
        match self.phase {
            FramePhase::Waiting => {
                self.phase = if ok {
                    FramePhase::Recording { released: rt.release_slot(self.slot) }
                } else {
                    FramePhase::Failed
                };
            },
            FramePhase::Recording { released: _ } => {
                self.phase = if ok {
                    FramePhase::Submitting { upload: rt.take_upload(self.slot) }
                } else {
                    FramePhase::Failed
                };
            },
            FramePhase::Submitting { upload: _ } => {
                if ok {
                    rt.submitted();
                    self.phase = if self.captures {
                        FramePhase::Reading
                    } else {
                        FramePhase::Done
                    };
                } else {
                    rt.not_submitted(self.slot);
                    self.phase = FramePhase::Failed;
                }
            },
            FramePhase::Reading => {
                self.phase = FramePhase::Done;
            },
            FramePhase::Done => {},
            FramePhase::Failed => {},
        }
    }
}

/// Phases that are left at most.
pub open spec fn phases_left(p: FramePhase) -> int {
    match p {
        FramePhase::Waiting => 4,
        FramePhase::Recording { released } => 3,
        FramePhase::Submitting { upload } => 2,
        FramePhase::Reading => 1,
        FramePhase::Done => 0,
        FramePhase::Failed => 0,
    }
}

/// A frame comes to an end; it is counted exactly when it is submitted, and
/// then it is not given up any more.
pub proof fn lemma_frame_ends(
    run: FrameRun,
    pending: Option<u64>,
    inits: Seq<Option<u64>>,
    count: usize,
    ok: bool,
)
    ensures
        ({
            let next = next_phase(run, pending, inits, ok);
            &&& phases_left(run.phase) > 0 ==> phases_left(next) < phases_left(run.phase)
            &&& count_after(run, count, ok) != count ==> next is Reading || next is Done
            &&& run.phase is Reading ==> next is Done
        }),
{
}

/// A frame whose slot could not be waited for leaves every upload where it was:
/// the slot still holds its own. One that is refused when it is submitted
/// leaves them as they were once the slot was free.
pub proof fn lemma_refused_frame_keeps_uploads(
    run: FrameRun,
    pending: Option<u64>,
    inits: Seq<Option<u64>>,
)
    requires
        run.phase is Waiting,
        run.slot < inits.len(),
    ensures
        uploads_after(run, pending, inits, false) == (pending, inits),
        ({
            let free = uploads_after(run, pending, inits, true);
            let recorded = FrameRun { phase: next_phase(run, pending, inits, true), ..run };
            let t = uploads_after(recorded, free.0, free.1, true);
            let sent = FrameRun { phase: next_phase(recorded, free.0, free.1, true), ..run };
            &&& recorded.phase == (FramePhase::Recording { released: inits[run.slot as int] })
            &&& uploads_after(sent, t.0, t.1, false) == free
        }),
{
    let free = uploads_after(run, pending, inits, true);
    lemma_upload_survives(free.0, free.1, run.slot as int, 0);
}

// --------------------------------------------------------------------- captures

/// What becomes of a pending capture once its frame is over: it is published
/// under the next number, or given up.
pub fn capture_done(ctl: &mut Control, written: Option<(String, Extent, Extent, Rect)>)
    requires
        old(ctl).wf(),
        old(ctl).capture is Some ==> old(ctl).capture->0.id < u64::MAX,
    ensures
        final(ctl).wf(),
        match written {
            Some((path, size, base, area)) => *final(ctl) == (Control {
                capture_request: None,
                capture: Some(
                    Capture {
                        path,
                        size,
                        base,
                        area,
                        id: match old(ctl).capture {
                            Some(c) => (c.id + 1) as u64,
                            None => 1,
                        },
                    },
                ),
                ..*old(ctl)
            }),
            None => *final(ctl) == (Control { capture_request: None, ..*old(ctl) }),
        },
{
    let id: u64 = match &ctl.capture {
        Some(c) => c.id + 1,
        None => 1,
    };
    if let Some((path, size, base, area)) = written {
        ctl.capture = Some(Capture { path, size, base, area, id });
    }
    ctl.capture_request = None;
}

// --------------------------------------------------------------------- presents

/// What came of processing one image of a present.
#[derive(Clone, Copy, PartialEq, Eq, Debug, Structural)]
pub enum Rendered {
    /// The present must wait on this semaphore.
    Done(u64),
    /// The swapchain is untouched.
    Untouched,
    /// Vulkan refused, with this code.
    Failed(i32),
}

/// What a present does next.
#[derive(Clone, Copy, PartialEq, Eq, Debug, Structural)]
pub enum PresentStep {
    /// Process the next image.
    Next,
    /// Forward the present as the application made it.
    Forward,
    /// Hand this code back.
    Fail(i32),
}

/// The semaphores that a present waits on after one more image.
pub open spec fn waits_with(waits: Seq<u64>, rendered: Rendered) -> Seq<u64> {
    match rendered {
        Rendered::Done(sem) => waits.push(sem),
        _ => waits,
    }
}

/// A present of one or more swapchains.
pub struct Present {
    /// Semaphores that the real present waits on.
    pub waits: Vec<u64>,
    /// Swapchains that were processed.
    pub processed: Vec<u64>,
}

impl Present {
    pub fn new() -> (r: Present)
        ensures
            r.waits@ == Seq::<u64>::empty(),
            r.processed@ == Seq::<u64>::empty(),
    {
        Present { waits: Vec::new(), processed: Vec::new() }
    }

    /// The application's semaphores are consumed by the first submission: the
    /// next one waits on them as long as nothing was submitted.
    pub fn waits_on_application(&self) -> (r: bool)
        ensures
            r == (self.waits@.len() == 0),
    {
        self.waits.len() == 0
    }

    /// Takes in what came of one image.
    pub fn take(&mut self, swapchain: u64, rendered: Rendered) -> (r: PresentStep)
        ensures
            final(self).waits@ == waits_with(old(self).waits@, rendered),
            match rendered {
                Rendered::Done(_) => {
                    &&& r == PresentStep::Next
                    &&& final(self).processed@ == old(self).processed@.push(swapchain)
                },
                Rendered::Untouched => r == PresentStep::Next && *final(self) == *old(self),
                Rendered::Failed(code) => {
                    &&& r == if old(self).waits@.len() == 0 {
                        PresentStep::Forward
                    } else {
                        PresentStep::Fail(code)
                    }
                    &&& *final(self) == *old(self)
                },
            },
    {
        match rendered {
            Rendered::Done(sem) => {
                self.waits.push(sem);
                self.processed.push(swapchain);
                PresentStep::Next
            },
            Rendered::Untouched => PresentStep::Next,
            Rendered::Failed(code) => {
                if self.waits.len() == 0 {
                    PresentStep::Forward
                } else {
                    PresentStep::Fail(code)
                }
            },
        }
    }

    /// Whether the present goes out with the layer's semaphores in place of
    /// the application's; else it is forwarded as it was made.
    pub fn is_changed(&self) -> (r: bool)
        ensures
            r == (self.waits@.len() > 0),
    {
        self.waits.len() > 0
    }
}

/// A result that counts as success for a present.
pub const SUBOPTIMAL: i32 = 1_000_001_003;

/// Whether the extra presentations of a frame are made.
pub fn subframes_due(subframes: u32, result: i32) -> (r: bool)
    ensures
        r == (subframes > 1 && (result == 0 || result == SUBOPTIMAL)),
{
    subframes > 1 && (result == 0 || result == SUBOPTIMAL)
}

/// Whether a call that acquires or presents an image went through.
pub fn went_through(result: i32) -> (r: bool)
    ensures
        r == (result == 0 || result == SUBOPTIMAL),
{
    result == 0 || result == SUBOPTIMAL
}

// -------------------------------------------------------------------- subframes

/// Extra presentations of one application frame.
#[derive(Clone, Copy, PartialEq, Eq, Debug, Structural)]
pub struct Subframes {
    /// The presentation that is under way; the application's own was the
    /// first.
    pub current: u32,
    pub total: u32,
    /// Black frames instead of the preset.
    pub black: bool,
    /// What was asked for last.
    pub phase: Phase,
}

#[derive(Clone, Copy, PartialEq, Eq, Debug, Structural)]
pub enum Phase {
    Waiting,
    Acquiring,
    Drawing,
    Presenting,
    Over,
}

/// What to do for an extra presentation.
#[derive(Clone, Copy, PartialEq, Eq, Debug, Structural)]
pub enum SubframeAction {
    /// Wait until the last frame of the slot is over.
    Wait,
    /// Acquire an image, within 50 ms: the application's loop is never held
    /// hostage.
    Acquire,
    /// Run the preset, as that presentation of that many.
    Draw { current: u32, total: u32 },
    /// Draw a black frame.
    DrawBlack,
    /// Present the image.
    Present,
    /// Nothing more for this frame.
    Stop,
}

/// What came of the last action.
#[derive(Clone, Copy, PartialEq, Eq, Debug, Structural)]
pub enum SubframeEvent {
    /// It went as it should.
    Done,
    /// It did not: no image was free in time, the window was resized.
    Failed,
}

/// What is asked for in a phase.
pub open spec fn action_of(s: Subframes) -> SubframeAction {
    match s.phase {
        Phase::Waiting => SubframeAction::Wait,
        Phase::Acquiring => SubframeAction::Acquire,
        Phase::Drawing => if s.black {
            SubframeAction::DrawBlack
        } else {
            SubframeAction::Draw { current: s.current, total: s.total }
        },
        Phase::Presenting => SubframeAction::Present,
        Phase::Over => SubframeAction::Stop,
    }
}

/// Anything unexpected ends the extra presentations of the frame.
pub open spec fn next_of(s: Subframes, event: SubframeEvent) -> Subframes {
    if event == SubframeEvent::Failed {
        Subframes { phase: Phase::Over, ..s }
    } else {
        match s.phase {
            Phase::Waiting => Subframes { phase: Phase::Acquiring, ..s },
            Phase::Acquiring => Subframes { phase: Phase::Drawing, ..s },
            Phase::Drawing => Subframes { phase: Phase::Presenting, ..s },
            Phase::Presenting => if s.current < s.total {
                Subframes { current: (s.current + 1) as u32, phase: Phase::Waiting, ..s }
            } else {
                Subframes { phase: Phase::Over, ..s }
            },
            Phase::Over => s,
        }
    }
}

/// Steps that are left at most.
pub open spec fn steps_left(s: Subframes) -> int {
    match s.phase {
        Phase::Waiting => 4 * (s.total - s.current) + 4,
        Phase::Acquiring => 4 * (s.total - s.current) + 3,
        Phase::Drawing => 4 * (s.total - s.current) + 2,
        Phase::Presenting => 4 * (s.total - s.current) + 1,
        Phase::Over => 0,
    }
}

impl Subframes {
    pub open spec fn wf(self) -> bool {
        2 <= self.current <= self.total
    }

    /// The second presentation of a frame that is presented `total` times.
    pub fn new(total: u32, black: bool) -> (r: Subframes)
        requires
            total > 1,
        ensures
            r.wf(),
            r == (Subframes { current: 2, total, black, phase: Phase::Waiting }),
    {
        Subframes { current: 2, total, black, phase: Phase::Waiting }
    }

    /// What to do now.
    pub fn action(&self) -> (r: SubframeAction)
        ensures
            r == action_of(*self),
    {
        match self.phase {
            Phase::Waiting => SubframeAction::Wait,
            Phase::Acquiring => SubframeAction::Acquire,
            Phase::Drawing => {
                if self.black {
                    SubframeAction::DrawBlack
                } else {
                    SubframeAction::Draw { current: self.current, total: self.total }
                }
            },
            Phase::Presenting => SubframeAction::Present,
            Phase::Over => SubframeAction::Stop,
        }
    }

    /// Goes on after what came of the last action.
    pub fn advance(&mut self, event: SubframeEvent)
        requires
            old(self).wf(),
        ensures
            final(self).wf(),
            *final(self) == next_of(*old(self), event),
    {
        if event == SubframeEvent::Failed {
            self.phase = Phase::Over;
            return ;
        }
        match self.phase {
            Phase::Waiting => {
                self.phase = Phase::Acquiring;
            },
            Phase::Acquiring => {
                self.phase = Phase::Drawing;
            },
            Phase::Drawing => {
                self.phase = Phase::Presenting;
            },
            Phase::Presenting => {
                if self.current < self.total {
                    self.current = self.current + 1;
                    self.phase = Phase::Waiting;
                } else {
                    self.phase = Phase::Over;
                }
            },
            Phase::Over => {},
        }
    }
}

/// The extra presentations of a frame come to an end, whatever happens.
pub proof fn lemma_subframes_end(s: Subframes, event: SubframeEvent)
    requires
        s.wf(),
    ensures
        s.phase != Phase::Over ==> 0 <= steps_left(next_of(s, event)) < steps_left(s),
        next_of(s, event).total == s.total,
        next_of(s, event).black == s.black,
{
}

/// The states after `n` steps that all went well.
pub open spec fn after_n(s: Subframes, n: nat) -> Subframes
    decreases n,
{
    if n == 0 {
        s
    } else {
        next_of(after_n(s, (n - 1) as nat), SubframeEvent::Done)
    }
}

/// When all goes well, every presentation from the second to the last one is
/// made, in order, each in four steps.
pub proof fn lemma_every_subframe(total: u32, black: bool, k: nat)
    requires
        total > 1,
        k <= total - 2,
    ensures
        ({
            let first = Subframes { current: 2, total, black, phase: Phase::Waiting };
            let s = after_n(first, 4 * k);
            s == (Subframes { current: (2 + k) as u32, ..first }) && action_of(
                after_n(first, 4 * k + 3),
            ) == SubframeAction::Present
        }),
    decreases k,
{
    let first = Subframes { current: 2, total, black, phase: Phase::Waiting };
    if k > 0 {
        lemma_every_subframe(total, black, (k - 1) as nat);
        let m = (4 * (k - 1)) as nat;
        let s = after_n(first, m);
        assert(after_n(first, m + 1) == next_of(s, SubframeEvent::Done));
        assert(after_n(first, m + 2) == next_of(after_n(first, m + 1), SubframeEvent::Done));
        assert(after_n(first, m + 3) == next_of(after_n(first, m + 2), SubframeEvent::Done));
        assert(after_n(first, m + 4) == next_of(after_n(first, m + 3), SubframeEvent::Done));
        assert(m + 4 == 4 * k);
    }
    let n = 4 * k;
    let t = after_n(first, n);
    assert(after_n(first, n + 1) == next_of(t, SubframeEvent::Done));
    assert(after_n(first, n + 2) == next_of(after_n(first, n + 1), SubframeEvent::Done));
    assert(after_n(first, n + 3) == next_of(after_n(first, n + 2), SubframeEvent::Done));
}

// ------------------------------------------------------------------------- laws

/// The slot that a frame uses `n` frames after one that used `slot`.
pub open spec fn slot_after(slot: int, n: int) -> int {
    (slot + n) % (RING as int)
}

/// A slot is used again only after all the others were.
pub proof fn lemma_slots_take_turns(slot: int, m: int, n: int)
    requires
        0 <= slot < RING,
        0 <= m < n,
        slot_after(slot, m) == slot_after(slot, n),
    ensures
        n - m >= RING,
{
}

/// Each change is applied exactly once: what one present applied, the next one
/// does not apply again, whether or not a preset is being compiled.
pub proof fn lemma_applied_once(
    rt: Runtime,
    c: Control,
    r: Changes,
    rt2: Runtime,
    c2: Control,
    r2: Changes,
    rt3: Runtime,
    c3: Control,
)
    requires
        synced(rt, c, r, rt2, c2),
        synced(rt2, c2, r2, rt3, c3),
    ensures
        r2.load is None,
        r2.values is None,
        !r2.rebuild,
{
}

/// A request that was accepted is applied by the next present: the parameters
/// are pushed, the source images are made anew if the source changed, and a
/// preset is compiled unless another one is being compiled.
pub proof fn lemma_request_is_applied(
    rt: Runtime,
    c: Control,
    r: Changes,
    rt2: Runtime,
    c2: Control,
    request: ipc::Request,
    files: Seq<bool>,
    n: Control,
    r2: Changes,
    rt3: Runtime,
    c3: Control,
)
    requires
        synced(rt, c, r, rt2, c2),
        c2.counting(),
        control::accepted(c2, request, files, n),
        synced(rt2, n, r2, rt3, c3),
    ensures
        request is SetParam || request is ResetParams ==> (r2.values is Some <==> rt2.chain
            is Some),
        n.source != c2.source ==> r2.rebuild,
        request is LoadPreset && !rt2.loading && n.presets@.len() > 0 ==> r2.load is Some
            && r2.load->0@ == n.presets@,
{
    control::lemma_generations(c2, request, files, n);
}

/// An upload that could not be submitted is pending again, as before the
/// attempt, and no upload gets lost on the way.
pub proof fn lemma_upload_survives(pending: Option<u64>, inits: Seq<Option<u64>>, slot: int, u: u64)
    requires
        0 <= slot < inits.len(),
        inits[slot] is None,
    ensures
        ({
            let t = upload_taken(pending, inits, slot);
            &&& upload_returned(t.0, t.1, slot) == (pending, inits)
            &&& has_upload(pending, inits, u) ==> has_upload(t.0, t.1, u)
        }),
{
    let t = upload_taken(pending, inits, slot);
    assert(inits.update(slot, pending).update(slot, None) =~= inits);
    if has_upload(pending, inits, u) {
        if pending == Some(u) {
            assert(t.1[slot] == Some(u));
        } else {
            let i = choose|i: int| 0 <= i < inits.len() && inits[i] == Some(u);
            assert(t.1[i] == Some(u));
        }
    }
}

/// The semaphores that a present waits on after that history.
pub open spec fn waits_after(history: Seq<Rendered>) -> Seq<u64>
    decreases history.len(),
{
    if history.len() == 0 {
        seq![]
    } else {
        waits_with(waits_after(history.drop_last()), history.last())
    }
}

proof fn lemma_waits_grow(history: Seq<Rendered>, j: int, k: int)
    requires
        0 <= j < k <= history.len(),
        history[j] is Done,
    ensures
        waits_after(history.take(k)).len() > 0,
    decreases k,
{
    assert(history.take(k).drop_last() =~= history.take(k - 1));
    assert(history.take(k).last() == history[k - 1]);
    if j < k - 1 {
        lemma_waits_grow(history, j, k - 1);
    }
}

/// The application's semaphores are consumed once: of two submissions of one
/// present, only the first waits on them.
pub proof fn lemma_one_waits_on_application(history: Seq<Rendered>, j: int, k: int)
    requires
        0 <= j < k < history.len(),
        history[j] is Done,
        history[k] is Done,
    ensures
        waits_after(history.take(k)).len() > 0,
{
    lemma_waits_grow(history, j, k);
}

/// A present takes over whether the shader is on and the HDR settings, publishes
/// the rates, and hands over the presets and the values that are asked for.
/// What was asked for stays asked for.
pub proof fn lemma_sync_follows(rt: Runtime, c: Control, r: Changes, rt2: Runtime, c2: Control)
    requires
        synced(rt, c, r, rt2, c2),
    ensures
        rt2.enabled == c.enabled,
        rt2.hdr == c.hdr,
        c2.source_fps == rt.fps,
        c2.present_fps == rt.present_fps,
        rt2.renders() <==> c.enabled && rt.chain is Some && !rt.failed,
        r.load is Some ==> r.load->0@ == c.presets@ && rt2.loading && c2.loading && !rt.loading,
        r.load is None ==> rt2.loading == rt.loading && c2.loading == c.loading,
        r.load is None ==> rt.loading || c.presets@.len() == 0 || rt.applied_preset_gen == Some(
            c.preset_gen,
        ),
        r.values is Some ==> rt.chain is Some && r.values->0@.len() == rt.chain->0.params@.len(),
        forall|i: int|
            r.values is Some && 0 <= i < r.values->0@.len() ==> ({
                let p = rt.chain->0.params@[i];
                &&& (#[trigger] r.values->0@[i]).0@ == p.name@
                &&& c.overrides@.contains_key(p.name@) ==> r.values->0@[i].1
                    == c.overrides@[p.name@]
                &&& !c.overrides@.contains_key(p.name@) ==> r.values->0@[i].1 == p.initial
            }),
        c2.presets == c.presets && c2.overrides == c.overrides && c2.source == c.source && c2.hdr
            == c.hdr && c2.params == c.params && c2.running_presets == c.running_presets,
        rt2.chain == rt.chain && rt2.swapchains == rt.swapchains && rt2.inits == rt.inits
            && rt2.next_slot == rt.next_slot,
{
    if r.values is Some {
        let v = r.values->0@;
        let w = wanted_values(rt.chain->0.params@, c.overrides@);
        assert(listed_values(v) == w);
        assert(listed_values(v).len() == v.len());
        assert forall|i: int| 0 <= i < v.len() implies ({
            let p = rt.chain->0.params@[i];
            &&& (#[trigger] v[i]).0@ == p.name@
            &&& c.overrides@.contains_key(p.name@) ==> v[i].1 == c.overrides@[p.name@]
            &&& !c.overrides@.contains_key(p.name@) ==> v[i].1 == p.initial
        }) by {
            assert(listed_values(v)[i] == (v[i].0@, v[i].1));
            assert(w[i].0 == rt.chain->0.params@[i].name@);
        }
    }
}

/// A preset that was loaded runs: its files are the ones that are reported, its
/// parameters have the values of the user where there are any and its own
/// otherwise, and neither an error nor a load is left.
pub proof fn lemma_installed(c: Control, loaded: Loaded, n: Control)
    requires
        installed(c, loaded, n),
    ensures
        n.running_presets@ == loaded.presets@,
        n.preset_color_space == Some(loaded.color_space),
        !n.loading,
        n.error is None,
        n.params@.len() == loaded.params@.len(),
        forall|i: int|
            0 <= i < n.params@.len() ==> ({
                let p = loaded.params@[i];
                let q = #[trigger] n.params@[i];
                &&& q == (Param { value: q.value, ..p })
                &&& c.overrides@.contains_key(p.name@) ==> q.value == c.overrides@[p.name@]
                &&& !c.overrides@.contains_key(p.name@) ==> q.value == p.initial
            }),
        c.enabled == n.enabled && c.source == n.source && c.hdr == n.hdr && c.presets == n.presets
            && c.overrides == n.overrides && c.subframes == n.subframes,
{
    assert forall|i: int| 0 <= i < n.params@.len() implies ({
        let p = loaded.params@[i];
        let q = #[trigger] n.params@[i];
        &&& q == (Param { value: q.value, ..p })
        &&& c.overrides@.contains_key(p.name@) ==> q.value == c.overrides@[p.name@]
        &&& !c.overrides@.contains_key(p.name@) ==> q.value == p.initial
    }) by {
        assert(n.params@[i] == valued_params(loaded.params@, c.overrides@)[i]);
    }
}

/// An override is reported as unknown exactly when no parameter has its name.
pub proof fn lemma_unmatched(overrides: Seq<(String, Single)>, params: Seq<Param>, name: Seq<char>)
    ensures
        unmatched(overrides, params).contains(name) <==> (exists|i: int|
            0 <= i < overrides.len() && (#[trigger] overrides[i]).0@ == name) && (forall|j: int|
            0 <= j < params.len() ==> (#[trigger] params[j]).name@ != name),
    decreases overrides.len(),
{
    let v = unmatched(overrides, params);
    if overrides.len() > 0 {
        let front = overrides.drop_last();
        let before = unmatched(front, params);
        let last = overrides.last().0@;
        lemma_unmatched(front, params, name);
        assert((exists|i: int| 0 <= i < overrides.len() && (#[trigger] overrides[i]).0@ == name)
            <==> (exists|i: int| 0 <= i < front.len() && (#[trigger] front[i]).0@ == name) || last
            == name) by {
            if exists|i: int| 0 <= i < overrides.len() && (#[trigger] overrides[i]).0@ == name {
                let i = choose|i: int|
                    0 <= i < overrides.len() && (#[trigger] overrides[i]).0@ == name;
                if i < front.len() {
                    assert(front[i].0@ == name);
                }
            }
            if exists|i: int| 0 <= i < front.len() && (#[trigger] front[i]).0@ == name {
                let i = choose|i: int| 0 <= i < front.len() && (#[trigger] front[i]).0@ == name;
                assert(overrides[i].0@ == name);
            }
            assert(overrides[overrides.len() - 1].0@ == last);
        }
        if !control::known(params, last) {
            let w = before.push(last);
            if before.contains(name) {
                let i = choose|i: int| 0 <= i < before.len() && before[i] == name;
                assert(w[i] == name);
            }
            if w.contains(name) {
                let i = choose|i: int| 0 <= i < w.len() && w[i] == name;
                if i < before.len() {
                    assert(before[i] == name);
                }
            }
            assert(w[before.len() as int] == last);
        }
    }
}

/// The uploads that are let go are those of the slots, each of them.
pub proof fn lemma_held(inits: Seq<Option<u64>>, u: u64)
    ensures
        held(inits).contains(u) <==> inits.contains(Some(u)),
    decreases inits.len(),
{
    let v = held(inits);
    if inits.len() > 0 {
        let front = inits.drop_last();
        let before = held(front);
        lemma_held(front, u);
        if inits.contains(Some(u)) {
            let i = choose|i: int| 0 <= i < inits.len() && inits[i] == Some(u);
            if i < front.len() {
                assert(front[i] == Some(u));
                let j = choose|j: int| 0 <= j < before.len() && before[j] == u;
                assert(v[j] == u);
            } else {
                assert(v[before.len() as int] == u);
            }
        }
        if v.contains(u) {
            let j = choose|j: int| 0 <= j < v.len() && v[j] == u;
            if j < before.len() {
                assert(before[j] == u);
                let i = choose|i: int| 0 <= i < front.len() && front[i] == Some(u);
                assert(inits[i] == Some(u));
            } else {
                assert(inits[inits.len() - 1] == Some(u));
            }
        }
    }
}

/// Rates are measured over half a second or more.
pub proof fn lemma_measurable(seconds: Single)
    ensures
        measurable(seconds) <==> !seconds.nan() && 2 * seconds.units() >= single::one_in_units(),
{
    let u = vstd::arithmetic::power2::pow2(149);
    let h = vstd::arithmetic::power2::pow2(148);
    accuracy::lemma_units();
    let b = screen::lemma_representable(1, 148);
    single::lemma_nearest_exact(2, b);
    assert(single::nearest(u, 2) == b);
    assert(single::of_fraction(1, 2) == single::signed(false, b));
}

/// A frame of a swapchain reads the picture of its source image, at its size and
/// with its filter, and draws into its display area.
pub proof fn lemma_frame_of(
    s: SwapchainState,
    src: SourceImage,
    subframe: bool,
    capture: Option<Extent>,
)
    ensures
        ({
            let i = input_of(s, src, subframe, capture);
            &&& i.picture == src.rect
            &&& i.input == src.extent
            &&& i.filter == src.filter
            &&& i.display == src.display
            &&& i.extent == s.extent
            &&& i.staged == s.staged
            &&& i.black == s.black
            &&& i.subframe == subframe
            &&& i.capture == capture
        }),
{
}

/// Frames are processed exactly while a preset runs that has not failed and the
/// shader is on, and then in every image of a swapchain that is followed and has
/// a source image.
pub proof fn lemma_processed(rt: Runtime, handle: u64, image: u32, i: int)
    requires
        0 <= i < rt.swapchains@.len(),
    ensures
        rt.can_render(handle, image, i) <==> rt.chain is Some && rt.enabled && !rt.failed
            && rt.swapchains@[i].handle == handle && image < rt.swapchains@[i].images
            && rt.swapchains@[i].source is Some,
{
}

/// The phase that a frame is in after one that went well.
pub open spec fn after_good(run: FrameRun, pending: Option<u64>, inits: Seq<Option<u64>>) -> FrameRun {
    FrameRun { phase: next_phase(run, pending, inits, true), ..run }
}

/// A frame whose phases all go well waits for its slot, lets go of the upload
/// that the slot held, is recorded, takes the pending upload along, is submitted
/// and counted once, and is read back if something is grabbed. The upload that
/// it takes stays with its slot.
pub proof fn lemma_good_frame(
    slot: usize,
    captures: bool,
    pending: Option<u64>,
    inits: Seq<Option<u64>>,
    count: usize,
)
    requires
        slot < inits.len(),
        count < usize::MAX,
    ensures
        ({
            let a = FrameRun { slot, captures, phase: FramePhase::Waiting };
            let (p1, i1) = uploads_after(a, pending, inits, true);
            let b = after_good(a, pending, inits);
            let (p2, i2) = uploads_after(b, p1, i1, true);
            let c = after_good(b, p1, i1);
            let (p3, i3) = uploads_after(c, p2, i2, true);
            let d = after_good(c, p2, i2);
            let e = after_good(d, p3, i3);
            &&& b.phase == (FramePhase::Recording { released: inits[slot as int] })
            &&& p1 == pending && i1 == inits.update(slot as int, None)
            &&& c.phase == (FramePhase::Submitting { upload: pending })
            &&& p2 is None && i2 == inits.update(slot as int, pending)
            &&& p3 == p2 && i3 == i2
            &&& d.phase == if captures {
                FramePhase::Reading
            } else {
                FramePhase::Done
            }
            &&& e.phase == FramePhase::Done
            &&& count_after(a, count, true) == count
            &&& count_after(b, count, true) == count
            &&& count_after(c, count, true) == count + 1
            &&& count_after(d, count, true) == count
        }),
{
    let i1 = inits.update(slot as int, None);
    assert(inits.update(slot as int, None).update(slot as int, pending) =~= inits.update(
        slot as int,
        pending,
    ));
    if pending is None {
        assert(i1 =~= inits.update(slot as int, pending));
    }
}

/// A phase that does not go well ends the frame, and it is not counted; only
/// what was grabbed can be lost without the frame.
pub proof fn lemma_bad_phase(
    run: FrameRun,
    pending: Option<u64>,
    inits: Seq<Option<u64>>,
    count: usize,
)
    ensures
        run.phase is Waiting || run.phase is Recording || run.phase is Submitting ==> next_phase(
            run,
            pending,
            inits,
            false,
        ) == FramePhase::Failed,
        run.phase is Reading ==> next_phase(run, pending, inits, false) == FramePhase::Done,
        count_after(run, count, false) == count,
{
}

/// When all goes well, each extra presentation waits for its slot, acquires an
/// image, draws into it and presents it; what is drawn is the preset, told which
/// presentation of how many it is, or black. After the last one there is
/// nothing more to do.
pub proof fn lemma_subframe_steps(total: u32, black: bool, k: nat)
    requires
        total > 1,
        k <= total - 2,
    ensures
        ({
            let first = Subframes { current: 2, total, black, phase: Phase::Waiting };
            &&& action_of(after_n(first, 4 * k)) == SubframeAction::Wait
            &&& action_of(after_n(first, 4 * k + 1)) == SubframeAction::Acquire
            &&& action_of(after_n(first, 4 * k + 2)) == if black {
                SubframeAction::DrawBlack
            } else {
                SubframeAction::Draw { current: (k + 2) as u32, total }
            }
            &&& action_of(after_n(first, 4 * k + 3)) == SubframeAction::Present
            &&& k == total - 2 ==> action_of(after_n(first, 4 * k + 4)) == SubframeAction::Stop
        }),
{
    let first = Subframes { current: 2, total, black, phase: Phase::Waiting };
    lemma_every_subframe(total, black, k);
    let n = 4 * k;
    assert(after_n(first, n + 1) == next_of(after_n(first, n), SubframeEvent::Done));
    assert(after_n(first, n + 2) == next_of(after_n(first, n + 1), SubframeEvent::Done));
    assert(after_n(first, n + 3) == next_of(after_n(first, n + 2), SubframeEvent::Done));
    assert(after_n(first, n + 4) == next_of(after_n(first, n + 3), SubframeEvent::Done));
}

/// Anything that fails skips what is left of the extra presentations.
pub proof fn lemma_failure_skips_the_rest(s: Subframes, event: SubframeEvent)
    ensures
        action_of(next_of(s, SubframeEvent::Failed)) == SubframeAction::Stop,
        action_of(s) == SubframeAction::Stop ==> action_of(next_of(s, event))
            == SubframeAction::Stop,
{
}

/// The present waits on every submission that was made for it, in order, and on
/// nothing else.
pub proof fn lemma_waits_on_all(history: Seq<Rendered>, semaphore: u64)
    ensures
        waits_after(history).contains(semaphore) <==> history.contains(Rendered::Done(semaphore)),
        waits_after(history).len() <= history.len(),
    decreases history.len(),
{
    let v = waits_after(history);
    if history.len() > 0 {
        let front = history.drop_last();
        let before = waits_after(front);
        lemma_waits_on_all(front, semaphore);
        if history.contains(Rendered::Done(semaphore)) {
            let i = choose|i: int|
                0 <= i < history.len() && history[i] == Rendered::Done(semaphore);
            if i < front.len() {
                assert(front[i] == Rendered::Done(semaphore));
                let j = choose|j: int| 0 <= j < before.len() && before[j] == semaphore;
                assert(v[j] == semaphore);
            } else {
                assert(v[before.len() as int] == semaphore);
            }
        }
        if v.contains(semaphore) {
            let j = choose|j: int| 0 <= j < v.len() && v[j] == semaphore;
            if j < before.len() {
                assert(before[j] == semaphore);
                let i = choose|i: int|
                    0 <= i < front.len() && front[i] == Rendered::Done(semaphore);
                assert(history[i] == Rendered::Done(semaphore));
            } else {
                assert(history[history.len() - 1] == Rendered::Done(semaphore));
            }
        }
    }
}

/// A swapchain is followed if one of the list has its handle.
pub proof fn lemma_tracks(v: Seq<SwapchainState>, s: SwapchainState, handle: u64)
    ensures
        tracks(v.push(s), s.handle),
        tracks(v, handle) ==> tracks(v.push(s), handle),
        handle != s.handle && !tracks(v, handle) ==> !tracks(v.push(s), handle),
        !tracks(Seq::empty(), handle),
{
    let w = v.push(s);
    assert(w[v.len() as int] == s);
    if tracks(v, handle) {
        let i = choose|i: int| 0 <= i < v.len() && (#[trigger] v[i]).handle == handle;
        assert(w[i].handle == handle);
    }
    if tracks(w, handle) {
        let i = choose|i: int| 0 <= i < w.len() && (#[trigger] w[i]).handle == handle;
        if i < v.len() {
            assert(v[i].handle == handle);
        }
    }
}

} // verus!
