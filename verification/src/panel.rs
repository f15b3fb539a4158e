//! What the control panel decides and shows.

use crate::accuracy;
use crate::config::{self, Places};
use crate::ipc::{
    self, Capture, ColorSpace, Counts, Extent, Factors, Filter, Offset, Output, Param, Rect,
    Response, SourceSettings, SourceSize, State,
};
use crate::path;
use crate::save;
use crate::screen;
use crate::single::{self, Single};
use crate::source::{self, SourceRect};
use crate::text;
use vstd::arithmetic::power2::*;
use vstd::prelude::*;

verus! {

// -------------------------------------------------------------- source settings

/// Editable copy of the source settings (not overwritten by polling while the
/// user edits it).
#[derive(Debug, PartialEq)]
pub struct SourceEdit {
    pub mode: SourceSize,
    /// Kept while another mode is selected, so switching back restores them.
    pub width: u32,
    pub height: u32,
    pub divisor: Single,
    pub duplicate: Counts,
    pub filter: Filter,
    pub rect: String,
    pub display: String,
    pub display_scale: Factors,
    pub source_scale: Factors,
}

/// `e` shows the settings `s`.
pub open spec fn edits(s: SourceSettings, e: SourceEdit) -> bool {
    &&& e.mode == s.res
    &&& e.duplicate == s.duplicate
    &&& e.filter == s.filter
    &&& e.rect@ == s.rect@
    &&& e.display@ == s.display@
    &&& e.display_scale == s.display_scale
    &&& e.source_scale == s.source_scale
}

/// `e` shows the settings `s` and has nothing else to come back to yet: the
/// values of the modes that are not selected are 320 by 240 and 2.
pub open spec fn begins_with(s: SourceSettings, e: SourceEdit) -> bool {
    &&& edits(s, e)
    &&& !(s.res is Fixed) ==> e.width == 320 && e.height == 240
    &&& !(s.res is Divide) ==> e.divisor == single::of_integer(2)
}

/// `r` are the settings that `e` shows, blanks around regions left out.
pub open spec fn sends(e: SourceEdit, r: SourceSettings) -> bool {
    &&& r.res == e.mode
    &&& r.duplicate == e.duplicate
    &&& r.filter == e.filter
    &&& r.rect@ == text::trimmed(e.rect@)
    &&& r.display@ == text::trimmed(e.display@)
    &&& r.display_scale == e.display_scale
    &&& r.source_scale == e.source_scale
}

/// The picture as it is.
pub open spec fn native_selected(e: SourceEdit) -> SourceEdit {
    SourceEdit { mode: SourceSize::Native, ..e }
}

/// The divided picture, by the divisor shown last.
pub open spec fn divide_selected(e: SourceEdit) -> SourceEdit {
    SourceEdit { mode: SourceSize::Divide { by: e.divisor }, ..e }
}

/// A fixed size, the one shown last.
pub open spec fn fixed_selected(e: SourceEdit) -> SourceEdit {
    SourceEdit {
        mode: SourceSize::Fixed { size: Extent { width: e.width, height: e.height } },
        ..e
    }
}

impl SourceEdit {
    /// The values shown belong to the mode that is selected.
    pub open spec fn wf(&self) -> bool {
        match self.mode {
            SourceSize::Native => true,
            SourceSize::Divide { by } => by == self.divisor,
            SourceSize::Fixed { size } => size.width == self.width && size.height == self.height,
        }
    }

    pub fn from_settings(s: &SourceSettings) -> (r: SourceEdit)
        ensures
            r.wf(),
            begins_with(*s, r),
    {
        let mut edit: SourceEdit = SourceEdit {
            mode: s.res,
            width: 320,
            height: 240,
            divisor: Single::of_u32(2),
            duplicate: s.duplicate,
            filter: s.filter,
            rect: s.rect.clone(),
            display: s.display.clone(),
            display_scale: s.display_scale,
            source_scale: s.source_scale,
        };
        match s.res {
            SourceSize::Fixed { size } => {
                edit.width = size.width;
                edit.height = size.height;
            },
            SourceSize::Divide { by } => {
                edit.divisor = by;
            },
            SourceSize::Native => {},
        }
        edit
    }

    pub fn to_settings(&self) -> (r: SourceSettings)
        ensures
            sends(*self, r),
    {
        SourceSettings {
            res: self.mode,
            duplicate: self.duplicate,
            filter: self.filter,
            rect: text::text_of(text::trim(text::chars_of(self.rect.as_str()).as_slice())),
            display: text::text_of(text::trim(text::chars_of(self.display.as_str()).as_slice())),
            display_scale: self.display_scale,
            source_scale: self.source_scale,
        }
    }

    /// Selects the picture as it is.
    pub fn select_native(&mut self)
        ensures
            final(self).wf(),
            *final(self) == native_selected(*old(self)),
    {
        self.mode = SourceSize::Native;
    }

    /// Selects the divided picture, by the divisor shown last.
    pub fn select_divide(&mut self)
        ensures
            final(self).wf(),
            *final(self) == divide_selected(*old(self)),
    {
        self.mode = SourceSize::Divide { by: self.divisor };
    }

    /// Selects a fixed size, the one shown last.
    pub fn select_fixed(&mut self)
        ensures
            final(self).wf(),
            *final(self) == fixed_selected(*old(self)),
    {
        self.mode =
        SourceSize::Fixed { size: Extent { width: self.width, height: self.height } };
    }

    /// Divides by another number.
    pub fn set_divisor(&mut self, by: Single)
        ensures
            final(self).wf(),
            *final(self) == (SourceEdit {
                divisor: by,
                mode: SourceSize::Divide { by },
                ..*old(self)
            }),
    {
        self.divisor = by;
        self.mode = SourceSize::Divide { by };
    }

    /// Fixes another size.
    pub fn set_size(&mut self, width: u32, height: u32)
        ensures
            final(self).wf(),
            *final(self) == (SourceEdit {
                width,
                height,
                mode: SourceSize::Fixed { size: Extent { width, height } },
                ..*old(self)
            }),
    {
        self.width = width;
        self.height = height;
        self.mode = SourceSize::Fixed { size: Extent { width, height } };
    }

    /// Scales the display area along the first axis; locked, the other axis
    /// keeps the ratio that the two currently have.
    pub fn scale_width(&mut self, x: Single, locked: bool)
        ensures
            *final(self) == (SourceEdit {
                display_scale: scaled_along(old(self).display_scale, x, locked),
                ..*old(self)
            }),
    {
        let y: Single = if locked {
            follow(self.display_scale.y, self.display_scale.x, x)
        } else {
            self.display_scale.y
        };
        self.display_scale = Factors { x, y };
    }

    /// Scales the display area along the second axis.
    pub fn scale_height(&mut self, y: Single, locked: bool)
        ensures
            ({
                let f = old(self).display_scale;
                let g = scaled_along(Factors { x: f.y, y: f.x }, y, locked);
                *final(self) == (SourceEdit {
                    display_scale: Factors { x: g.y, y: g.x },
                    ..*old(self)
                })
            }),
    {
        let x: Single = if locked {
            follow(self.display_scale.x, self.display_scale.y, y)
        } else {
            self.display_scale.x
        };
        self.display_scale = Factors { x, y };
    }
}

/// What `other` becomes when `was` becomes `now` and the ratio stays, within
/// what the display area can have.
pub open spec fn followed(other: Single, was: Single, now: Single) -> Single {
    single::confined(
        single::quotient(single::product(other, now), was),
        single::of_fraction(1, 10),
        single::of_integer(4),
    )
}

fn follow(other: Single, was: Single, now: Single) -> (r: Single)
    ensures
        r == followed(other, was, now),
{
    other.times(now).over(was).confine(Single::fraction(1, 10), Single::of_u32(4))
}

/// The factors when the first becomes `x`.
pub open spec fn scaled_along(f: Factors, x: Single, locked: bool) -> Factors {
    Factors {
        x,
        y: if locked {
            followed(f.y, f.x, x)
        } else {
            f.y
        },
    }
}

/// Settings that are edited but not changed are sent as they came, up to white
/// space around the regions.
pub proof fn lemma_unedited(s: SourceSettings, e: SourceEdit, r: SourceSettings)
    requires
        edits(s, e),
        sends(e, r),
        text::trimmed(s.rect@) == s.rect@,
        text::trimmed(s.display@) == s.display@,
    ensures
        ipc::same_settings(r, s),
{
}

/// An editor shows what is in effect, field by field, and starts the modes that
/// are not in effect with 320 by 240 and a half; what it sends is what it shows.
pub proof fn lemma_shown_and_sent(s: SourceSettings, e: SourceEdit, r: SourceSettings)
    requires
        begins_with(s, e),
        sends(e, r),
    ensures
        r.res == s.res,
        r.duplicate == s.duplicate,
        r.filter == s.filter,
        r.rect@ == text::trimmed(s.rect@),
        r.display@ == text::trimmed(s.display@),
        r.display_scale == s.display_scale,
        r.source_scale == s.source_scale,
        !(s.res is Fixed) ==> fixed_selected(e).mode == (SourceSize::Fixed {
            size: Extent { width: 320, height: 240 },
        }),
        !(s.res is Divide) ==> divide_selected(e).mode == (SourceSize::Divide {
            by: single::of_integer(2),
        }),
{
}

/// Selecting a mode changes the mode alone.
pub proof fn lemma_only_mode_selected(e: SourceEdit)
    ensures
        native_selected(e).mode == SourceSize::Native,
        divide_selected(e).mode == (SourceSize::Divide { by: e.divisor }),
        fixed_selected(e).mode == (SourceSize::Fixed {
            size: Extent { width: e.width, height: e.height },
        }),
        (SourceEdit { mode: e.mode, ..native_selected(e) }) == e,
        (SourceEdit { mode: e.mode, ..divide_selected(e) }) == e,
        (SourceEdit { mode: e.mode, ..fixed_selected(e) }) == e,
{
}

/// The first factor becomes what it is set to. Unlocked, the other one stays;
/// locked, it moves along so that their ratio stays, up to one part in four
/// millions, unless that takes it out of its range, at whose end it stops then.
#[verifier::spinoff_prover]
pub proof fn lemma_lock_keeps_ratio(f: Factors, x: Single)
    requires
        source::scale_allowed(f.x),
        source::scale_allowed(f.y),
        source::scale_allowed(x),
    ensures
        scaled_along(f, x, false) == (Factors { x, y: f.y }),
        ({
            let g = scaled_along(f, x, true);
            let exact = f.y.units() * x.units();
            let made = g.y.units() * f.x.units();
            &&& g.x == x
            &&& source::scale_allowed(g.y)
            &&& {
                ||| 0x40_0000 * accuracy::distance(made, exact) <= made
                ||| g.y == single::of_integer(4) && 0x3f_ffff * made <= 0x40_0000 * exact
                ||| g.y == single::of_fraction(1, 10) && 0x40_0000 * exact <= 0x40_0001 * made
            }
        }),
{
    let u = pow2(149) as int;
    let v = pow2(125) as int;
    let (a, b, c) = (f.y.size() as int, x.size() as int, f.x.size() as int);
    accuracy::lemma_units();
    lemma_allowed(f.x);
    lemma_allowed(f.y);
    lemma_allowed(x);
    let p = single::product(f.y, x);
    assert(0x100_0000 * u <= a * b && a * b <= (0x100_0000 * pow2(200)) * u) by (nonlinear_arith)
        requires
            0x10_0000 * v <= a <= 4 * u,
            0x10_0000 * v <= b <= 4 * u,
            u == 0x100_0000 * v,
            v >= 0x1_0000_0000_0000_0000,
            pow2(200) == 0x8_0000_0000_0000 * u,
    {
        assert(a * b >= (0x10_0000 * v) * b);
        assert((0x10_0000 * v) * b >= (0x10_0000 * v) * (0x10_0000 * v));
        assert((0x10_0000 * v) * (0x10_0000 * v) == 0x100_0000_0000 * (v * v));
        assert(v * v >= 0x1_0000_0000_0000_0000 * v);
        assert(a * b <= (4 * u) * b);
        assert((4 * u) * b <= (4 * u) * (4 * u));
        assert((0x100_0000 * pow2(200)) * u == (0x100_0000 * 0x8_0000_0000_0000) * (u * u));
    }
    accuracy::lemma_multiplied(f.y, x);
    let m = p.size() as int;
    assert(0x100 * v <= m && m <= 32 * u) by (nonlinear_arith)
        requires
            0xff_ffff * (m * u) <= 0x100_0000 * (a * b) <= 0x100_0001 * (m * u),
            0x10_0000 * v <= a <= 4 * u,
            0x10_0000 * v <= b <= 4 * u,
            u == 0x100_0000 * v,
            v > 0,
            m >= 0,
    {
        assert(a * b >= (0x10_0000 * v) * b);
        assert((0x10_0000 * v) * b >= (0x10_0000 * v) * (0x10_0000 * v));
        assert((0x10_0000 * v) * (0x10_0000 * v) == 0x1_0000 * (v * u));
        assert(0x100_0001 * (m * u) >= 0x100_0000 * (0x1_0000 * (v * u)));
        assert((0x100_0001 * m) * u >= (0x100_0000 * (0x1_0000 * v)) * u);
        assert(a * b <= (4 * u) * b);
        assert((4 * u) * b <= (4 * u) * (4 * u));
        assert((0xff_ffff * m) * u <= (0x100_0000 * (16 * u)) * u);
    }
    assert(0x100_0000 * c <= m * u && m * u <= (0x100_0000 * pow2(200)) * c) by (nonlinear_arith)
        requires
            0x100 * v <= m <= 32 * u,
            0x10_0000 * v <= c <= 4 * u,
            u == 0x100_0000 * v,
            v >= 0x1_0000_0000_0000_0000,
            pow2(200) == 0x8_0000_0000_0000 * u,
    {
        assert(m * u >= (0x100 * v) * u);
        assert((0x100 * v) * u >= 0x1_0000_0000_0000_0000 * u);
        assert(m * u <= (32 * u) * u);
        assert((0x100_0000 * pow2(200)) * c >= (0x100_0000 * pow2(200)) * (0x10_0000 * v));
        assert((0x100_0000 * pow2(200)) * (0x10_0000 * v) == (0x8_0000_0000_0000 * 0x10_0000) * (u
            * u));
    }
    accuracy::lemma_relative((m * u) as nat, c as nat);
    let q = single::quotient(p, f.x);
    let k = q.size() as int;
    assert(q == single::signed(false, single::nearest((m * u) as nat, c as nat)));
    assert(accuracy::within_part(k * c, m * u));
    // k c is about m u, which is about a b.
    lemma_two_steps(k * c, m * u, a * b);
    lemma_allowed_limits();
    lemma_confined_ratio(q, c, a * b);
}

/// A number that lies within two parts in `2^24` of another.
proof fn lemma_two_steps(x: int, y: int, z: int)
    requires
        x >= 0,
        y >= 0,
        z >= 0,
        accuracy::within_part(x, y),
        accuracy::within_part(y, z),
    ensures
        0x40_0000 * accuracy::distance(x, z) <= x,
{
}

/// The limits of a scale, in units.
proof fn lemma_allowed_limits()
    ensures
        ({
            let lo = single::of_fraction(1, 10);
            let hi = single::of_integer(4);
            &&& lo.finite() && !lo.negative()
            &&& hi.finite() && !hi.negative()
            &&& lo.size() < hi.size()
            &&& lo.size() >= 0x10_0000 * pow2(125)
            &&& hi.size() == 4 * pow2(149)
        }),
{
    screen::lemma_small_integer(4);
    let tenth = single::of_fraction(1, 10);
    accuracy::lemma_units();
    accuracy::lemma_near(pow2(149), 10, 125);
    assert(tenth == single::signed(false, single::nearest(pow2(149), 10)));
}

proof fn lemma_allowed(x: Single)
    requires
        source::scale_allowed(x),
    ensures
        x.finite(),
        !x.negative(),
        0x10_0000 * pow2(125) <= x.size() <= 4 * pow2(149),
{
    lemma_allowed_limits();
    accuracy::lemma_units();
}

/// A quotient is kept in its range.
#[verifier::spinoff_prover]
proof fn lemma_confined_ratio(q: Single, c: int, exact: int)
    requires
        q.finite(),
        !q.negative(),
        c > 0,
        exact >= 0,
        0x40_0000 * accuracy::distance(q.size() * c, exact) <= q.size() * c,
    ensures
        ({
            let r = single::confined(q, single::of_fraction(1, 10), single::of_integer(4));
            let made = r.units() * c;
            &&& source::scale_allowed(r)
            &&& {
                ||| 0x40_0000 * accuracy::distance(made, exact) <= made
                ||| r == single::of_integer(4) && 0x3f_ffff * made <= 0x40_0000 * exact
                ||| r == single::of_fraction(1, 10) && 0x40_0000 * exact <= 0x40_0001 * made
            }
        }),
{
    let lo = single::of_fraction(1, 10);
    let hi = single::of_integer(4);
    lemma_allowed_limits();
    let k = q.size() as int;
    if q.before(lo) {
        let n = lo.size() as int;
        assert(k * c <= n * c) by (nonlinear_arith)
            requires
                k <= n,
                c > 0,
        ;
    } else if hi.before(q) {
        let n = hi.size() as int;
        assert(n * c <= k * c) by (nonlinear_arith)
            requires
                n <= k,
                c > 0,
        ;
        assert(0 <= n * c) by (nonlinear_arith)
            requires
                n >= 0,
                c > 0,
        ;
    }
}

/// Selecting another mode and coming back restores the values.
pub proof fn lemma_mode_restored(e: SourceEdit)
    requires
        e.wf(),
    ensures
        e.mode is Divide ==> divide_selected(native_selected(e)) == e,
        e.mode is Divide ==> divide_selected(fixed_selected(e)) == e,
        e.mode is Fixed ==> fixed_selected(native_selected(e)) == e,
        e.mode is Fixed ==> fixed_selected(divide_selected(e)) == e,
{
}

// --------------------------------------------------------------------- session

/// A process that can be controlled.
#[derive(Debug, PartialEq)]
pub struct Target {
    pub pid: u32,
    pub path: String,
    pub label: String,
    /// The process is actually processing a swapchain.
    pub active: bool,
}

/// How a process is shown.
pub fn target_label(name: &str, pid: u32) -> (r: String)
    ensures
        r@ == name@ + " ("@ + text::decimal(pid as nat) + ")"@,
{
    let mut out: Vec<char> = text::chars_of(name);
    text::append_text(&mut out, " (");
    text::append(&mut out, text::write_number(pid as u64).as_slice());
    text::append_text(&mut out, ")");
    text::text_of(out.as_slice())
}

/// What is known about the process that is controlled.
pub struct Session {
    pub selected: Option<u32>,
    pub connected: bool,
    pub state: Option<State>,
    pub source: Option<SourceEdit>,
    pub save_path: String,
    /// Processes that answered with something that cannot be used.
    pub incompatible: Vec<u32>,
    /// A message, and whether it is an error.
    pub message: Option<(String, bool)>,
}

/// The processes to try, in order: those with something to control that speak
/// the protocol.
pub open spec fn tried(targets: Seq<Target>, incompatible: Seq<u32>) -> Seq<u32>
    decreases targets.len(),
{
    if targets.len() == 0 {
        seq![]
    } else {
        let before = tried(targets.drop_last(), incompatible);
        let t = targets.last();
        if t.active && !incompatible.contains(t.pid) {
            before.push(t.pid)
        } else {
            before
        }
    }
}

/// Every process with something to control that speaks the protocol is tried,
/// and no other one; those that come first are tried first.
pub proof fn lemma_tried(targets: Seq<Target>, incompatible: Seq<u32>, pid: u32)
    ensures
        tried(targets, incompatible).contains(pid) <==> !incompatible.contains(pid) && exists|
            i: int,
        |
            0 <= i < targets.len() && (#[trigger] targets[i]).active && targets[i].pid == pid,
    decreases targets.len(),
{
    let v = tried(targets, incompatible);
    if targets.len() > 0 {
        let front = targets.drop_last();
        let before = tried(front, incompatible);
        lemma_tried(front, incompatible, pid);
        if v.contains(pid) {
            let j = choose|j: int| 0 <= j < v.len() && v[j] == pid;
            if j < before.len() {
                assert(before[j] == pid);
                let i = choose|i: int|
                    0 <= i < front.len() && (#[trigger] front[i]).active && front[i].pid == pid;
                assert(targets[i].active);
            } else {
                assert(targets[targets.len() - 1].active);
            }
        }
        if !incompatible.contains(pid) && exists|i: int|
            0 <= i < targets.len() && (#[trigger] targets[i]).active && targets[i].pid == pid {
            let i = choose|i: int|
                0 <= i < targets.len() && (#[trigger] targets[i]).active && targets[i].pid == pid;
            if i < front.len() {
                assert(front[i].active);
                let j = choose|j: int| 0 <= j < before.len() && before[j] == pid;
                assert(v[j] == pid);
            } else {
                assert(v[before.len() as int] == pid);
            }
        }
    }
}

/// More processes are tried behind the ones before.
pub proof fn lemma_tried_in_order(a: Seq<Target>, b: Seq<Target>, incompatible: Seq<u32>)
    ensures
        tried(a + b, incompatible) == tried(a, incompatible) + tried(b, incompatible),
    decreases b.len(),
{
    if b.len() == 0 {
        assert(a + b =~= a);
        assert(tried(a, incompatible) + tried(b, incompatible) =~= tried(a, incompatible));
    } else {
        lemma_tried_in_order(a, b.drop_last(), incompatible);
        assert((a + b).drop_last() =~= a + b.drop_last());
        assert((a + b).last() == b.last());
        assert(tried(a + b, incompatible) =~= tried(a, incompatible) + tried(b, incompatible));
    }
}

/// The idle processes of two lists are those of each; a process is idle if it
/// has nothing to control.
pub proof fn lemma_idle(a: Seq<Target>, b: Seq<Target>, t: Target)
    ensures
        idle(a + b) == idle(a) + idle(b),
        idle(seq![t]) == if t.active {
            0nat
        } else {
            1
        },
    decreases b.len(),
{
    assert(seq![t].drop_last() =~= Seq::<Target>::empty());
    assert(idle(Seq::<Target>::empty()) == 0);
    if b.len() == 0 {
        assert(a + b =~= a);
    } else {
        lemma_idle(a, b.drop_last(), t);
        assert((a + b).drop_last() =~= a + b.drop_last());
        assert((a + b).last() == b.last());
    }
}

fn has_pid(v: &Vec<u32>, pid: u32) -> (r: bool)
    ensures
        r == v@.contains(pid),
{
    let mut i: usize = 0;
    while i < v.len()
        invariant
            i <= v@.len(),
            forall|j: int| 0 <= j < i ==> v@[j] != pid,
        decreases v@.len() - i,
    {
        if v[i] == pid {
            return true;
        }
        i = i + 1;
    }
    false
}

/// Whether a target is the process `pid`.
pub open spec fn listed_target(targets: Seq<Target>, pid: u32) -> bool {
    exists|i: int| 0 <= i < targets.len() && (#[trigger] targets[i]).pid == pid
}

/// Position of the first target of that process.
pub fn find_target(targets: &Vec<Target>, pid: u32) -> (r: Option<usize>)
    ensures
        match r {
            Some(i) => i < targets@.len() && targets@[i as int].pid == pid && forall|j: int|
                0 <= j < i ==> (#[trigger] targets@[j]).pid != pid,
            None => !listed_target(targets@, pid),
        },
{
    let mut i: usize = 0;
    while i < targets.len()
        invariant
            i <= targets@.len(),
            forall|j: int| 0 <= j < i ==> (#[trigger] targets@[j]).pid != pid,
        decreases targets@.len() - i,
    {
        if targets[i].pid == pid {
            return Some(i);
        }
        i = i + 1;
    }
    None
}

/// Number of targets that have nothing to control.
pub open spec fn idle(targets: Seq<Target>) -> nat
    decreases targets.len(),
{
    if targets.len() == 0 {
        0
    } else {
        idle(targets.drop_last()) + if targets.last().active {
            0nat
        } else {
            1
        }
    }
}

/// Number of targets that have nothing to control.
pub fn count_idle(targets: &Vec<Target>) -> (r: usize)
    ensures
        r == idle(targets@),
{
    let mut n: usize = 0;
    let mut i: usize = 0;
    assert(targets@.take(0) =~= Seq::empty());
    while i < targets.len()
        invariant
            i <= targets@.len(),
            n <= i,
            n == idle(targets@.take(i as int)),
        decreases targets@.len() - i,
    {
        assert(targets@.take(i as int + 1).drop_last() =~= targets@.take(i as int));
        if !targets[i].active {
            n = n + 1;
        }
        i = i + 1;
    }
    assert(targets@.take(i as int) =~= targets@);
    n
}

/// The same texts in the same order.
pub open spec fn same_texts(a: Seq<String>, b: Seq<String>) -> bool {
    text::texts(a) == text::texts(b)
}

fn are_same_texts(a: &Vec<String>, b: &Vec<String>) -> (r: bool)
    ensures
        r == same_texts(a@, b@),
{
    if a.len() != b.len() {
        assert(text::texts(a@).len() != text::texts(b@).len());
        return false;
    }
    let mut i: usize = 0;
    while i < a.len()
        invariant
            i <= a@.len(),
            a@.len() == b@.len(),
            forall|j: int| 0 <= j < i ==> (#[trigger] a@[j])@ == b@[j]@,
        decreases a@.len() - i,
    {
        if !text::equal_texts(a[i].as_str(), b[i].as_str()) {
            assert(text::texts(a@)[i as int] != text::texts(b@)[i as int]);
            return false;
        }
        i = i + 1;
    }
    assert(text::texts(a@) =~= text::texts(b@));
    true
}

/// The suggested path follows the presets that run, unless nothing changed.
pub open spec fn renews_path(s: Session, state: State) -> bool {
    s.save_path@.len() == 0 || s.state is None || !same_texts(
        s.state->0.presets@,
        state.presets@,
    )
}

/// Path suggested for a preset derived from the first one that runs.
pub open spec fn suggested(p: Places, presets: Seq<String>) -> Seq<char> {
    path::within(
        path::renamed(save::user_config(p), "presets"@),
        save::custom_name(
            if presets.len() > 0 {
                Some(presets[0]@)
            } else {
                None
            },
        ),
    )
}

impl Session {
    pub fn new() -> (r: Session)
        ensures
            r.selected is None,
            !r.connected,
            r.state is None,
            r.source is None,
            r.save_path@ == Seq::<char>::empty(),
            r.incompatible@ == Seq::<u32>::empty(),
            r.message is None,
    {
        let path: String = String::new();
        assert(path@ == Seq::<char>::empty());
        Session {
            selected: None,
            connected: false,
            state: None,
            source: None,
            save_path: path,
            incompatible: Vec::new(),
            message: None,
        }
    }

    /// Forgets the process that was controlled.
    pub fn disconnect(&mut self)
        ensures
            *final(self) == (Session {
                selected: None,
                connected: false,
                state: None,
                source: None,
                ..*old(self)
            }),
    {
        self.selected = None;
        self.connected = false;
        self.state = None;
        self.source = None;
    }

    /// A process was connected to.
    pub fn connect(&mut self, pid: u32)
        ensures
            *final(self) == (Session {
                selected: Some(pid),
                connected: true,
                state: None,
                source: None,
                ..*old(self)
            }),
    {
        self.disconnect();
        self.selected = Some(pid);
        self.connected = true;
    }

    /// Shows a message.
    pub fn show(&mut self, message: String, is_error: bool)
        ensures
            *final(self) == (Session { message: Some((message, is_error)), ..*old(self) }),
    {
        self.message = Some((message, is_error));
    }

    /// The targets were looked for: the process is forgotten if it is gone.
    /// The result lists the processes to try in its place.
    pub fn rescan(&mut self, targets: &Vec<Target>) -> (r: Vec<u32>)
        ensures
            ({
                let gone = old(self).selected is Some && !listed_target(
                    targets@,
                    old(self).selected->0,
                );
                &&& *final(self) == if gone {
                    Session {
                        selected: None,
                        connected: false,
                        state: None,
                        source: None,
                        ..*old(self)
                    }
                } else {
                    *old(self)
                }
                &&& r@ == if gone || old(self).selected is None {
                    tried(targets@, old(self).incompatible@)
                } else {
                    Seq::empty()
                }
            }),
    {
        if let Some(pid) = self.selected {
            if find_target(targets, pid).is_some() {
                return Vec::new();
            }
            self.disconnect();
        }
        let mut out: Vec<u32> = Vec::new();
        let mut i: usize = 0;
        assert(targets@.take(0) =~= Seq::empty());
        while i < targets.len()
            invariant
                i <= targets@.len(),
                out@ == tried(targets@.take(i as int), self.incompatible@),
            decreases targets@.len() - i,
        {
            assert(targets@.take(i as int + 1).drop_last() =~= targets@.take(i as int));
            if targets[i].active && !has_pid(&self.incompatible, targets[i].pid) {
                out.push(targets[i].pid);
            }
            i = i + 1;
        }
        assert(targets@.take(i as int) =~= targets@);
        out
    }

    /// Takes in an answer. What the user edits is not overwritten.
    pub fn answered(&mut self, response: Response, places: &Places)
        ensures
            match response {
                Response::State(state) => {
                    &&& final(self).state == Some(state)
                    &&& final(self).save_path@ == if renews_path(*old(self), state) {
                        suggested(*places, state.presets@)
                    } else {
                        old(self).save_path@
                    }
                    &&& old(self).source is Some ==> final(self).source == old(self).source
                    &&& old(self).source is None ==> final(self).source is Some
                        && final(self).source->0.wf() && begins_with(
                        state.source,
                        final(self).source->0,
                    )
                    &&& *final(self) == (Session {
                        state: final(self).state,
                        save_path: final(self).save_path,
                        source: final(self).source,
                        ..*old(self)
                    })
                },
                Response::Error { message } => *final(self) == (Session {
                    message: Some((message, true)),
                    ..*old(self)
                }),
            },
    {
        match response {
            Response::State(state) => {
                if self.source.is_none() {
                    self.source = Some(SourceEdit::from_settings(&state.source));
                }
                let known: bool = match &self.state {
                    Some(s) => are_same_texts(&s.presets, &state.presets),
                    None => false,
                };
                let typed: Vec<char> = text::chars_of(self.save_path.as_str());
                if typed.len() == 0 || !known {
                    self.save_path =
                    save::default_preset_path(
                        places,
                        if state.presets.len() > 0 {
                            Some(state.presets[0].as_str())
                        } else {
                            None
                        },
                    );
                }
                self.state = Some(state);
            },
            Response::Error { message } => {
                self.message = Some((message, true));
            },
        }
    }

    /// A request got no answer that can be used: `invalid` says that something
    /// came that is none, as from a layer of another version. The process is
    /// forgotten, and not tried again in that case.
    pub fn request_failed(&mut self, invalid: bool, why: &str)
        ensures
            match final(self).message {
                Some((message, is_error)) => is_error && message@ == if invalid {
                    why@
                } else {
                    "connection lost: "@ + why@
                },
                None => false,
            },
            final(self).incompatible@ == if invalid && old(self).selected is Some {
                old(self).incompatible@.push(old(self).selected->0)
            } else {
                old(self).incompatible@
            },
            *final(self) == (Session {
                selected: None,
                connected: false,
                state: None,
                source: None,
                message: final(self).message,
                incompatible: final(self).incompatible,
                ..*old(self)
            }),
    {
        let mut out: Vec<char> = Vec::new();
        if invalid {
            if let Some(pid) = self.selected {
                self.incompatible.push(pid);
            }
        } else {
            text::append_text(&mut out, "connection lost: ");
        }
        text::append_text(&mut out, why);
        proof {
            assert(Seq::<char>::empty() + why@ =~= why@);
            assert(Seq::<char>::empty() + "connection lost: "@ =~= "connection lost: "@);
        }
        self.show(text::text_of(out.as_slice()), true);
        self.disconnect();
    }
}

// ------------------------------------------------------------------ parameters

/// The parameter is found by the text in the filter, in whatever case.
pub open spec fn param_found(p: Param, filter: Seq<char>) -> bool {
    filter.len() == 0 || text::holds(save::lowercase(p.name@), filter) || text::holds(
        save::lowercase(p.description@),
        filter,
    )
}

/// A parameter of ASCII text is found by the text in the filter, in whatever
/// case.
pub open spec fn ascii_found(p: Param, filter: Seq<char>) -> bool {
    filter.len() == 0 || text::holds(text::lowered(p.name@), filter) || text::holds(
        text::lowered(p.description@),
        filter,
    )
}

/// How a parameter is shown.
#[derive(Clone, Copy, PartialEq, Eq, Debug, Structural)]
pub enum Shown {
    Hidden,
    /// A title above other parameters.
    Title,
    /// A slider, with a way back to the preset's value or without.
    Slider { modified: bool },
}

/// How a parameter that the filter finds, or does not, is shown.
pub open spec fn shown_param(p: Param, found: bool) -> Shown {
    if !found {
        Shown::Hidden
    } else if p.header() {
        if text::trimmed(p.description@).len() > 0 {
            Shown::Title
        } else {
            Shown::Hidden
        }
    } else {
        Shown::Slider { modified: p.modified() }
    }
}

/// A parameter that the filter does not find is not shown. Of the others, one
/// that can be moved is a slider, which can be reset if it was changed; one that
/// cannot is a title if it says something.
pub proof fn lemma_shown(p: Param, found: bool)
    ensures
        !found ==> shown_param(p, found) == Shown::Hidden,
        found && !p.header() ==> shown_param(p, found) == (Shown::Slider {
            modified: p.modified(),
        }),
        found && p.header() && text::trimmed(p.description@).len() > 0 ==> shown_param(p, found)
            == Shown::Title,
        found && p.header() && text::trimmed(p.description@).len() == 0 ==> shown_param(p, found)
            == Shown::Hidden,
{
}

/// An empty filter finds everything; whether another one finds a parameter does
/// not depend on the case of its name and description, and needs one of them
/// only.
pub proof fn lemma_filter(p: Param, q: Param, filter: Seq<char>)
    ensures
        filter.len() == 0 ==> ascii_found(p, filter) && param_found(p, filter),
        text::alike(p.name@, q.name@) && text::alike(p.description@, q.description@)
            ==> ascii_found(p, filter) == ascii_found(q, filter),
        text::holds(text::lowered(p.name@), filter) ==> ascii_found(p, filter),
        text::holds(text::lowered(p.description@), filter) ==> ascii_found(p, filter),
        text::holds(save::lowercase(p.name@), filter) ==> param_found(p, filter),
        text::holds(save::lowercase(p.description@), filter) ==> param_found(p, filter),
        filter.len() > 0 && param_found(p, filter) ==> text::holds(save::lowercase(p.name@), filter)
            || text::holds(save::lowercase(p.description@), filter),
        filter.len() > 0 && ascii_found(p, filter) ==> text::holds(text::lowered(p.name@), filter)
            || text::holds(text::lowered(p.description@), filter),
{
}

/// Whether the filter is empty or stands in one of the two texts.
pub fn is_found(name: &[char], description: &[char], filter: &[char]) -> (r: bool)
    ensures
        r == (filter@.len() == 0 || text::holds(name@, filter@) || text::holds(
            description@,
            filter@,
        )),
{
    filter.len() == 0 || text::contains(name, filter) || text::contains(description, filter)
}

/// How a parameter that the filter finds, or does not, is shown.
pub fn show_found(p: &Param, found: bool) -> (r: Shown)
    ensures
        r == shown_param(*p, found),
{
    if !found {
        return Shown::Hidden;
    }
    if p.is_header() {
        let d: Vec<char> = text::chars_of(p.description.as_str());
        if text::trim(d.as_slice()).len() > 0 {
            return Shown::Title;
        }
        return Shown::Hidden;
    }
    Shown::Slider { modified: p.is_modified() }
}

/// How a parameter is shown; `filter` is in lower case.
pub fn show_param(p: &Param, filter: &[char]) -> (r: Shown)
    ensures
        r == shown_param(*p, param_found(*p, filter@)),
        text::ascii(p.name@) && text::ascii(p.description@) ==> r == shown_param(
            *p,
            ascii_found(*p, filter@),
        ),
{
    let name: Vec<char> = text::chars_of(save::to_lowercase(p.name.as_str()).as_str());
    let description: Vec<char> = text::chars_of(
        save::to_lowercase(p.description.as_str()).as_str(),
    );
    show_found(p, is_found(name.as_slice(), description.as_slice(), filter))
}

/// Whether moving a slider changed the parameter, rather than only snapped its
/// value to a step.
pub fn is_edit(p: &Param, before: Single, now: Single) -> (r: bool)
    ensures
        r == p.tolerance().before(single::absolute(single::difference(now, before))),
{
    p.epsilon().is_before(now.minus(before).abs())
}

/// Smallest step of a slider.
pub fn slider_step(p: &Param) -> (r: Single)
    ensures
        r == single::larger(p.step, single::of_fraction(1, 10000)),
{
    p.step.max(Single::fraction(1, 10000))
}

/// The text of a filter, in lower case.
pub fn filter_text(s: &str) -> (r: Vec<char>)
    ensures
        r@ == save::lowercase(s@),
        text::ascii(s@) ==> r@ == text::lowered(s@),
{
    text::chars_of(save::to_lowercase(s).as_str())
}

/// The words of a search, in lower case.
pub fn search_words(s: &str) -> (r: Vec<Vec<char>>)
    ensures
        text::contents(r@) == text::words(save::lowercase(s@)),
        text::ascii(s@) ==> text::contents(r@) == text::words(text::lowered(s@)),
{
    let low: Vec<char> = text::chars_of(save::to_lowercase(s).as_str());
    text::split_words(low.as_slice())
}

// ----------------------------------------------------------------------- chains

/// `path` stands at `i`, and nowhere before.
pub open spec fn first_at(paths: Seq<String>, path: Seq<char>, i: int) -> bool {
    0 <= i < paths.len() && paths[i]@ == path && forall|j: int|
        0 <= j < i ==> (#[trigger] paths[j])@ != path
}

/// Presets picked to run one after the other.
#[derive(Debug, PartialEq)]
pub struct Chain {
    pub paths: Vec<String>,
}

impl Chain {
    /// Whether a preset is picked.
    pub fn position(&self, path: &str) -> (r: Option<usize>)
        ensures
            match r {
                Some(i) => i < self.paths@.len() && self.paths@[i as int]@ == path@ && forall|j: int|
                    0 <= j < i ==> (#[trigger] self.paths@[j])@ != path@,
                None => !text::texts(self.paths@).contains(path@),
            },
    {
        let mut i: usize = 0;
        while i < self.paths.len()
            invariant
                i <= self.paths@.len(),
                forall|j: int| 0 <= j < i ==> (#[trigger] self.paths@[j])@ != path@,
            decreases self.paths@.len() - i,
        {
            if text::equal_texts(self.paths[i].as_str(), path) {
                return Some(i);
            }
            i = i + 1;
        }
        assert forall|j: int| 0 <= j < text::texts(self.paths@).len() implies text::texts(
            self.paths@,
        )[j] != path@ by {
            assert(self.paths@[j]@ != path@);
        }
        None
    }

    /// Picks a preset, as the last one, or drops it, at its first place, if
    /// it was picked.
    pub fn toggle(&mut self, path: &str)
        ensures
            text::texts(old(self).paths@).contains(path@) ==> exists|i: int|
                first_at(old(self).paths@, path@, i) && #[trigger] old(self).paths@.remove(i)
                    == final(self).paths@,
            !text::texts(old(self).paths@).contains(path@) ==> text::texts(final(self).paths@)
                == text::texts(old(self).paths@).push(path@),
    {
        let ghost before = self.paths@;
        match self.position(path) {
            Some(i) => {
                self.paths.remove(i);
                assert(before.remove(i as int) =~= self.paths@);
                assert(text::texts(before)[i as int] == path@);
                assert(first_at(before, path@, i as int));
            },
            None => {
                self.paths.push(text::text_of(text::chars_of(path).as_slice()));
                assert(text::texts(self.paths@) =~= text::texts(before).push(path@));
            },
        }
    }

    /// Moves the preset at `i` one place up.
    pub fn raise(&mut self, i: usize)
        requires
            0 < i < old(self).paths@.len(),
        ensures
            final(self).paths@ == old(self).paths@.update(
                i as int,
                old(self).paths@[i - 1],
            ).update(i - 1, old(self).paths@[i as int]),
    {
        let ghost before = self.paths@;
        let p: String = self.paths.remove(i);
        self.paths.insert(i - 1, p);
        assert(self.paths@ =~= before.update(i as int, before[i - 1]).update(
            i - 1,
            before[i as int],
        ));
    }

    /// The chain as it is asked for: the paths with commas between them.
    /// Paths that can be told apart in a list are read back from it.
    pub fn to_path(&self) -> (r: String)
        ensures
            r@ == text::joined(text::texts(self.paths@), ","@),
            self.paths@.len() > 0 && config::separable(text::texts(self.paths@))
                ==> config::items_of(r@) == text::texts(self.paths@),
    {
        proof {
            if self.paths@.len() > 0 && config::separable(text::texts(self.paths@)) {
                config::lemma_items_joined(text::texts(self.paths@), ","@);
            }
        }
        join_paths(&self.paths)
    }
}

/// The paths with commas between them.
pub fn join_paths(paths: &Vec<String>) -> (r: String)
    ensures
        r@ == text::joined(text::texts(paths@), ","@),
{
    let mut names: Vec<Vec<char>> = Vec::new();
    let mut i: usize = 0;
    while i < paths.len()
        invariant
            i <= paths@.len(),
            text::contents(names@) == text::texts(paths@).take(i as int),
        decreases paths@.len() - i,
    {
        let ghost seen = text::contents(names@);
        names.push(text::chars_of(paths[i].as_str()));
        assert(text::contents(names@) =~= seen.push(paths@[i as int]@));
        assert(seen.push(paths@[i as int]@) =~= text::texts(paths@).take(i as int + 1));
        i = i + 1;
    }
    assert(text::texts(paths@).take(i as int) =~= text::texts(paths@));
    text::text_of(text::join(&names, ",").as_slice())
}

// ----------------------------------------------------------------------- labels

/// `3840×2160`
pub open spec fn extent_label(e: Extent) -> Seq<char> {
    text::decimal(e.width as nat) + "×"@ + text::decimal(e.height as nat)
}

fn write_extent(e: Extent) -> (r: Vec<char>)
    ensures
        r@ == extent_label(e),
{
    let mut out: Vec<char> = text::write_number(e.width as u64);
    text::append_text(&mut out, "×");
    text::append(&mut out, text::write_number(e.height as u64).as_slice());
    out
}

/// The whole chain of sizes: base (swapchain), picture area, input given to
/// the preset, and output.
pub open spec fn sizes_text(o: Output) -> Seq<char> {
    "base "@ + extent_label(o.size) + ", "@ + (if o.picture == o.size {
        Seq::<char>::empty()
    } else {
        "picture "@ + extent_label(o.picture) + ", "@
    }) + "input "@ + extent_label(o.input) + ", output "@ + extent_label(o.size)
}

/// The whole chain of sizes.
pub fn sizes_line(o: &Output) -> (r: String)
    ensures
        r@ == sizes_text(*o),
{
    let mut out: Vec<char> = text::chars_of("base ");
    text::append(&mut out, write_extent(o.size).as_slice());
    text::append_text(&mut out, ", ");
    let mut middle: Vec<char> = Vec::new();
    if o.picture != o.size {
        middle = text::chars_of("picture ");
        text::append(&mut middle, write_extent(o.picture).as_slice());
        text::append_text(&mut middle, ", ");
    }
    text::append(&mut out, middle.as_slice());
    text::append_text(&mut out, "input ");
    text::append(&mut out, write_extent(o.input).as_slice());
    text::append_text(&mut out, ", output ");
    text::append(&mut out, write_extent(o.size).as_slice());
    text::text_of(out.as_slice())
}

/// An output with its color space.
pub fn output_label(o: &Output) -> (r: String)
    ensures
        r@ == extent_label(o.size) + " "@ + ipc::space_label(o.color_space),
{
    let mut out: Vec<char> = write_extent(o.size);
    text::append_text(&mut out, " ");
    text::append_text(&mut out, o.color_space.label());
    text::text_of(out.as_slice())
}

/// An output with its color space and format.
pub fn hdr_label(o: &Output) -> (r: String)
    ensures
        r@ == "output "@ + ipc::space_label(o.color_space) + " ("@ + o.format@ + (if o.promoted {
            ", promoted by vkSlang"@
        } else {
            Seq::empty()
        }) + ")"@,
{
    let mut out: Vec<char> = text::chars_of("output ");
    text::append_text(&mut out, o.color_space.label());
    text::append_text(&mut out, " (");
    text::append_text(&mut out, o.format.as_str());
    let mut tail: Vec<char> = Vec::new();
    if o.promoted {
        tail = text::chars_of(", promoted by vkSlang");
    }
    text::append(&mut out, tail.as_slice());
    text::append_text(&mut out, ")");
    text::text_of(out.as_slice())
}

/// The HDR settings matter: the preset or the output is HDR.
pub fn hdr_matters(preset: Option<ColorSpace>, output: Option<ColorSpace>) -> (r: bool)
    ensures
        r == ((preset is Some && ipc::hdr_space(preset->0)) || (output is Some && ipc::hdr_space(
            output->0,
        ))),
{
    let p: bool = match preset {
        Some(c) => c.is_hdr(),
        None => false,
    };
    let o: bool = match output {
        Some(c) => c.is_hdr(),
        None => false,
    };
    p || o
}

// ------------------------------------------------------------------- pixel grid

/// What a grid over a capture says about the game's pixels.
#[derive(Clone, Copy, PartialEq, Eq, Debug, Structural)]
pub struct Measure {
    /// Size of a pixel of the game, in output pixels.
    pub cell: Factors,
    /// Resolution that the game draws at.
    pub native: Extent,
    /// Width of a pixel divided by its height: 1 is square.
    pub aspect: Single,
    /// The pixels are square, so one factor describes them.
    pub square: bool,
}

/// Size of a pixel of the game in output pixels, along one axis: `cell` is its
/// size in the capture.
pub open spec fn cell_in_output(cell: Single, base: u32, size: u32) -> Single {
    single::product(
        cell,
        single::quotient(single::of_integer(base as nat), single::of_integer(size as nat)),
    )
}

/// What a grid of that pitch says about the game's pixels.
pub open spec fn measured(c: Capture, cell: Factors) -> Measure {
    let x = cell_in_output(cell.x, c.base.width, c.size.width);
    let y = cell_in_output(cell.y, c.base.height, c.size.height);
    let aspect = single::quotient(x, y);
    Measure {
        cell: Factors { x, y },
        native: Extent {
            width: screen::pixels(
                single::quotient(single::of_integer(c.area.extent.width as nat), x),
            ),
            height: screen::pixels(
                single::quotient(single::of_integer(c.area.extent.height as nat), y),
            ),
        },
        aspect,
        square: single::absolute(single::difference(aspect, single::of_integer(1))).up_to(
            single::of_fraction(1, 100),
        ),
    }
}

/// Along one axis, `n` pixels of the game of size `cell` span a capture of
/// `size` pixels, and `k` of them the area of `area` pixels out of `base`.
pub open spec fn spans(cell: Single, base: u32, size: u32, area: u32, n: u32, k: u32) -> bool {
    &&& cell.finite() && !cell.negative()
    &&& 1 <= base <= 0x100_0000
    &&& 1 <= size <= 0x100_0000
    &&& 1 <= area <= base
    &&& 1 <= n <= 0x1_0000
    &&& 1 <= k
    &&& n * cell.size() == size * single::one_in_units()
    &&& area * n == k * base
}

/// The measured resolution is the number of the game's pixels in the picture,
/// however far the capture was scaled down.
pub proof fn lemma_measured_resolution(c: Capture, cell: Factors, n: u32, k: u32)
    ensures
        spans(cell.x, c.base.width, c.size.width, c.area.extent.width, n, k) ==> measured(
            c,
            cell,
        ).native.width == k,
        spans(cell.y, c.base.height, c.size.height, c.area.extent.height, n, k) ==> measured(
            c,
            cell,
        ).native.height == k,
{
    if spans(cell.x, c.base.width, c.size.width, c.area.extent.width, n, k) {
        accuracy::lemma_pixels_counted(
            cell.x,
            c.base.width,
            c.size.width,
            c.area.extent.width,
            n,
            k,
        );
    }
    if spans(cell.y, c.base.height, c.size.height, c.area.extent.height, n, k) {
        accuracy::lemma_pixels_counted(
            cell.y,
            c.base.height,
            c.size.height,
            c.area.extent.height,
            n,
            k,
        );
    }
}

/// The measured pixels, used as a divisor, give the measured width.
pub proof fn lemma_divisor_gives_width(c: Capture, cell: Factors)
    ensures
        source::input_size(
            SourceSize::Divide { by: measured(c, cell).cell.x },
            c.area.extent,
        ).width == measured(c, cell).native.width,
{
}

fn cell_of(cell: Single, base: u32, size: u32) -> (r: Single)
    ensures
        r == cell_in_output(cell, base, size),
{
    cell.times(Single::of_u32(base).over(Single::of_u32(size)))
}

/// What a grid of that pitch, in captured pixels, says about the game's
/// pixels.
pub fn measure_grid(c: &Capture, cell: Factors) -> (r: Measure)
    ensures
        r == measured(*c, cell),
{
    let x: Single = cell_of(cell.x, c.base.width, c.size.width);
    let y: Single = cell_of(cell.y, c.base.height, c.size.height);
    let aspect: Single = x.over(y);
    Measure {
        cell: Factors { x, y },
        native: Extent {
            width: screen::to_pixels(Single::of_u32(c.area.extent.width).over(x)),
            height: screen::to_pixels(Single::of_u32(c.area.extent.height).over(y)),
        },
        aspect,
        square: aspect.minus(Single::of_u32(1)).abs().is_up_to(Single::fraction(1, 100)),
    }
}

impl Measure {
    /// The source size that the measured pixels stand for, as a resolution.
    pub fn as_fixed(&self) -> (r: SourceSize)
        ensures
            r == (SourceSize::Fixed { size: self.native }),
    {
        SourceSize::Fixed { size: self.native }
    }

    /// The same as a divisor; a single factor cannot describe rectangular
    /// pixels.
    pub fn as_divisor(&self) -> (r: Option<SourceSize>)
        ensures
            r == if self.square {
                Some(SourceSize::Divide { by: self.cell.x })
            } else {
                None
            },
    {
        if self.square {
            Some(SourceSize::Divide { by: self.cell.x })
        } else {
            None
        }
    }
}

/// Nanoseconds to wait before a picture is asked for again: two seconds.
pub const CAPTURE_RETRY: u128 = 2_000_000_000;

/// Whether to ask for a picture because there is nothing to show yet.
/// `waited` is the time since it was last asked for, in nanoseconds.
pub fn capture_due(shown: bool, waited: Option<u128>) -> (r: bool)
    ensures
        r == (!shown && (waited is None || waited->0 > CAPTURE_RETRY)),
{
    !shown && match waited {
        Some(t) => t > CAPTURE_RETRY,
        None => true,
    }
}

/// Whether the capture shown is older than the one published.
pub fn is_new_capture(shown: Option<u64>, published: u64) -> (r: bool)
    ensures
        r == (shown != Some(published)),
{
    match shown {
        Some(id) => id != published,
        None => true,
    }
}

// -------------------------------------------------------------- framed pictures

/// A signed number as it is written.
pub open spec fn signed_text(n: i32) -> Seq<char> {
    if n < 0 {
        "-"@ + text::decimal((-n) as nat)
    } else {
        text::decimal(n as nat)
    }
}

/// A region as it is written in settings: `X,Y,WxH`.
pub open spec fn area_text(r: Rect) -> Seq<char> {
    signed_text(r.offset.x) + ","@ + signed_text(r.offset.y) + ","@ + text::decimal(
        r.extent.width as nat,
    ) + "x"@ + text::decimal(r.extent.height as nat)
}

fn write_signed(n: i32) -> (r: Vec<char>)
    ensures
        r@ == signed_text(n),
{
    if n < 0 {
        let mut out: Vec<char> = text::chars_of("-");
        text::append(&mut out, text::write_number((-(n as i64)) as u64).as_slice());
        out
    } else {
        text::write_number(n as u64)
    }
}

/// A region as it is written in settings.
pub fn area_spec(r: Rect) -> (s: String)
    ensures
        s@ == area_text(r),
{
    let mut out: Vec<char> = write_signed(r.offset.x);
    text::append_text(&mut out, ",");
    text::append(&mut out, write_signed(r.offset.y).as_slice());
    text::append_text(&mut out, ",");
    text::append(&mut out, text::write_number(r.extent.width as u64).as_slice());
    text::append_text(&mut out, "x");
    text::append(&mut out, text::write_number(r.extent.height as u64).as_slice());
    text::text_of(out.as_slice())
}

proof fn lemma_signed_reads_back(n: i32)
    ensures
        text::signed_value(signed_text(n)) == Some(n),
        signed_text(n).len() > 0,
        forall|i: int|
            0 <= i < signed_text(n).len() ==> text::digit(#[trigger] signed_text(n)[i])
                || signed_text(n)[i] == '-',
{
    reveal_strlit("-");
    let s = signed_text(n);
    if n < 0 {
        let d = text::decimal((-n) as nat);
        text::lemma_decimal((-n) as nat);
        assert(s.drop_first() =~= d);
        assert(s[0] == '-');
        assert(forall|i: int| 0 < i < s.len() ==> s[i] == d[i - 1]);
    } else {
        text::lemma_decimal(n as nat);
        assert(text::digit(s[0]));
    }
}

/// The three parts of a written region.
proof fn lemma_area_parts(r: Rect)
    requires
        screen::holds_pixels(r),
    ensures
        ({
            let e = text::decimal(r.extent.width as nat) + "x"@ + text::decimal(
                r.extent.height as nat,
            );
            &&& text::pieces(area_text(r), ',') == seq![
                signed_text(r.offset.x),
                signed_text(r.offset.y),
                e,
            ]
            &&& area_text(r)[0] == signed_text(r.offset.x)[0]
            &&& area_text(r).last() == e.last()
            &&& area_text(r).len() > 4
        }),
{
    let x = signed_text(r.offset.x);
    let y = signed_text(r.offset.y);
    let e = text::decimal(r.extent.width as nat) + "x"@ + text::decimal(r.extent.height as nat);
    let t = area_text(r);
    reveal_strlit(",");
    lemma_signed_reads_back(r.offset.x);
    lemma_signed_reads_back(r.offset.y);
    source::lemma_extent_reads_back(r.extent);
    let a = y + seq![','] + e;
    assert(t =~= x + seq![','] + a);
    lemma_first_piece(x, a);
    lemma_first_piece(y, e);
    assert forall|i: int| 0 <= i < e.len() implies e[i] != ',' by {
        assert(text::digit(e[i]) || e[i] == 'x');
    }
    text::lemma_run(e, ',', ',', e.len());
    assert(text::pieces(e, ',') =~= seq![e]);
    assert(text::pieces(t, ',') =~= seq![x, y, e]);
}

proof fn lemma_signed_trimmed(n: i32)
    ensures
        text::trimmed(signed_text(n)) == signed_text(n),
        signed_text(n).len() > 0,
        !text::space(signed_text(n)[0]),
        signed_text(n)[0] != 'f',
{
    let s = signed_text(n);
    lemma_signed_reads_back(n);
    assert(text::digit(s[0]) || s[0] == '-');
    assert(text::digit(s[s.len() - 1]) || s[s.len() - 1] == '-');
    text::lemma_trimmed_same(s);
}

/// A framed region reads back as the same region.
pub proof fn lemma_area_reads_back(r: Rect)
    requires
        screen::holds_pixels(r),
    ensures
        source::rect_value(area_text(r)) == Some(SourceRect::Explicit(r)),
{
    let t = area_text(r);
    lemma_area_parts(r);
    lemma_signed_reads_back(r.offset.x);
    lemma_signed_reads_back(r.offset.y);
    lemma_signed_trimmed(r.offset.x);
    lemma_signed_trimmed(r.offset.y);
    source::lemma_extent_reads_back(r.extent);
    text::lemma_trimmed_same(t);
    reveal_strlit("full");
    assert(!text::alike(t, "full"@)) by {
        assert(text::lowered(t)[0] == text::lowered_char(t[0]));
        assert(text::lowered("full"@)[0] == 'f');
        assert(text::digit(t[0]) || t[0] == '-');
    }
}

proof fn lemma_first_piece(a: Seq<char>, b: Seq<char>)
    requires
        forall|i: int|
            0 <= i < a.len() ==> text::digit(#[trigger] a[i]) || a[i] == '-',
    ensures
        text::pieces(a + seq![','] + b, ',') == seq![a] + text::pieces(b, ','),
{
    let s = a + seq![','] + b;
    assert forall|i: int| 0 <= i < a.len() implies s[i] != ',' by {
        assert(s[i] == a[i]);
    }
    assert(s[a.len() as int] == ',');
    text::lemma_run(s, ',', ',', a.len());
    assert(s.take(a.len() as int) =~= a);
    assert(s.skip(a.len() as int + 1) =~= b);
}

/// Position `at` of `size` captured pixels, in `base` output pixels.
pub open spec fn in_output(at: u32, base: u32, size: u32) -> int {
    at as int * base as int / size as int
}

/// The region of the output that a frame over the capture stands for: `from`
/// and `to` are corners of it, in captured pixels.
pub open spec fn framed(c: Capture, from: Extent, to: Extent) -> Rect {
    let x = in_output(from.width, c.base.width, c.size.width);
    let y = in_output(from.height, c.base.height, c.size.height);
    Rect {
        offset: Offset { x: x as i32, y: y as i32 },
        extent: Extent {
            width: (in_output(to.width, c.base.width, c.size.width) - x) as u32,
            height: (in_output(to.height, c.base.height, c.size.height) - y) as u32,
        },
    }
}

/// The frame lies in the capture, and the capture is no larger than what it
/// was taken from.
pub open spec fn frames(c: Capture, from: Extent, to: Extent) -> bool {
    &&& from.width < to.width <= c.size.width
    &&& from.height < to.height <= c.size.height
    &&& c.size.width <= c.base.width <= 0x7fff_ffff
    &&& c.size.height <= c.base.height <= 0x7fff_ffff
}

proof fn lemma_in_output(a: u32, b: u32, base: u32, size: u32)
    requires
        a < b <= size,
        size <= base,
    ensures
        0 <= in_output(a, base, size) < in_output(b, base, size) <= base,
{
    let (a, b, m, n) = (a as int, b as int, base as int, size as int);
    assert(0 <= a * m) by (nonlinear_arith)
        requires
            a >= 0,
            m >= 0,
    ;
    vstd::arithmetic::div_mod::lemma_div_pos_is_pos(a * m, n);
    assert(a * m + n <= b * m) by (nonlinear_arith)
        requires
            a + 1 <= b,
            n <= m,
            m >= 0,
    ;
    vstd::arithmetic::div_mod::lemma_div_is_ordered(a * m + n, b * m, n);
    vstd::arithmetic::div_mod::lemma_div_plus_one(a * m, n);
    assert(b * m <= n * m) by (nonlinear_arith)
        requires
            b <= n,
            m >= 0,
    ;
    vstd::arithmetic::div_mod::lemma_div_is_ordered(b * m, n * m, n);
    vstd::arithmetic::div_mod::lemma_div_multiples_vanish(m, n);
    assert(n * m == m * n) by (nonlinear_arith);
}

/// The region of the output that a frame over the capture stands for.
pub fn frame_picture(c: &Capture, from: Extent, to: Extent) -> (r: Rect)
    requires
        frames(*c, from, to),
    ensures
        r == framed(*c, from, to),
        screen::inside(r, c.base),
        screen::holds_pixels(r),
{
    proof {
        lemma_in_output(from.width, to.width, c.base.width, c.size.width);
        lemma_in_output(from.height, to.height, c.base.height, c.size.height);
    }
    let x: u64 = place_in_output(from.width, c.base.width, c.size.width);
    let y: u64 = place_in_output(from.height, c.base.height, c.size.height);
    let right: u64 = place_in_output(to.width, c.base.width, c.size.width);
    let bottom: u64 = place_in_output(to.height, c.base.height, c.size.height);
    Rect {
        offset: Offset { x: x as i32, y: y as i32 },
        extent: Extent { width: (right - x) as u32, height: (bottom - y) as u32 },
    }
}

fn place_in_output(at: u32, base: u32, size: u32) -> (r: u64)
    requires
        size > 0,
    ensures
        r == in_output(at, base, size),
{
    assert(0 <= at * base <= 0xffff_ffff * 0xffff_ffff) by (nonlinear_arith)
        requires
            0 <= at <= 0xffff_ffff,
            0 <= base <= 0xffff_ffff,
    ;
    (at as u64 * base as u64) / size as u64
}

/// A frame over a capture covers the same share of the output: each edge lies
/// at the output pixel that the captured one shows, and a frame over all of the
/// capture is all of the output.
pub proof fn lemma_framed_in_proportion(c: Capture, from: Extent, to: Extent)
    requires
        frames(c, from, to),
    ensures
        ({
            let r = framed(c, from, to);
            let right = r.offset.x + r.extent.width;
            let bottom = r.offset.y + r.extent.height;
            let (w, h) = (c.size.width as int, c.size.height as int);
            &&& screen::part_of(c.base.width as int, from.width as int, w, r.offset.x as int)
            &&& screen::part_of(c.base.height as int, from.height as int, h, r.offset.y as int)
            &&& screen::part_of(c.base.width as int, to.width as int, w, right)
            &&& screen::part_of(c.base.height as int, to.height as int, h, bottom)
        }),
        from == (Extent { width: 0, height: 0 }) && to == c.size ==> framed(c, from, to) == (Rect {
            offset: Offset { x: 0, y: 0 },
            extent: c.base,
        }),
{
    lemma_in_output(from.width, to.width, c.base.width, c.size.width);
    lemma_in_output(from.height, to.height, c.base.height, c.size.height);
    lemma_place(from.width, c.base.width, c.size.width);
    lemma_place(from.height, c.base.height, c.size.height);
    lemma_place(to.width, c.base.width, c.size.width);
    lemma_place(to.height, c.base.height, c.size.height);
}

proof fn lemma_place(at: u32, base: u32, size: u32)
    requires
        0 < size,
    ensures
        screen::part_of(base as int, at as int, size as int, in_output(at, base, size)),
        at == 0 ==> in_output(at, base, size) == 0,
        at == size ==> in_output(at, base, size) == base,
{
    let x = at * base;
    let n = size as int;
    let q = x / n;
    assert(x == base * at) by (nonlinear_arith)
        requires
            x == at * base,
    ;
    vstd::arithmetic::div_mod::lemma_fundamental_div_mod(x, n);
    vstd::arithmetic::div_mod::lemma_mod_bound(x, n);
    assert(q * n == n * q && (q + 1) * n == q * n + n) by (nonlinear_arith);
    if at == 0 {
        assert(x == 0);
    }
    if at == size {
        vstd::arithmetic::div_mod::lemma_div_multiples_vanish(base as int, n);
    }
}

/// The quotient of two numbers of moderate size, one part in `2^24` off at most.
#[verifier::spinoff_prover]
proof fn lemma_moderate_quotient(a: Single, b: Single)
    requires
        a.finite() && !a.negative(),
        b.finite() && !b.negative(),
        pow2(149) <= 0x800 * a.size() <= 0x40_0000 * pow2(149),
        pow2(149) <= 0x800 * b.size() <= 0x40_0000 * pow2(149),
    ensures
        ({
            let q = single::quotient(a, b);
            &&& q.finite() && !q.negative()
            &&& accuracy::within_part((q.size() * b.size()) as int, (a.size() * pow2(149)) as int)
            &&& q.size() <= 0x100_0000 * pow2(149)
        }),
{
    let u = pow2(149) as int;
    let v = pow2(125) as int;
    let (x, y) = (a.size() as int, b.size() as int);
    accuracy::lemma_units();
    let num = x * u;
    assert(0x100_0000 * y <= num && num <= (0x100_0000 * pow2(200)) * y) by (nonlinear_arith)
        requires
            num == x * u,
            u <= 0x800 * x,
            u <= 0x800 * y,
            x <= 0x800 * u,
            y <= 0x800 * u,
            u == 0x100_0000 * v,
            v >= 0x1_0000_0000_0000_0000,
            pow2(200) == 0x8_0000_0000_0000 * u,
    {
        assert(0x800 * (x * u) >= u * u);
        assert(u * u >= 0x1_0000_0000_0000_0000 * u);
        assert(x * u <= (0x800 * u) * u);
        assert(0x800 * ((0x100_0000 * pow2(200)) * y) >= (0x100_0000 * pow2(200)) * u);
        assert((0x100_0000 * pow2(200)) * u == (0x100_0000 * 0x8_0000_0000_0000) * (u * u));
    }
    accuracy::lemma_relative(num as nat, y as nat);
    let q = single::quotient(a, b);
    let k = q.size() as int;
    assert(q == single::signed(false, single::nearest(num as nat, y as nat)));
    assert(k <= 0x100_0000 * u) by (nonlinear_arith)
        requires
            0xff_ffff * (k * y) <= 0x100_0000 * (x * u),
            x <= 0x800 * u,
            u <= 0x800 * y,
            u > 0,
            k >= 0,
    {
        if k > 0x100_0000 * u {
            assert(k * y >= (0x100_0000 * u) * y);
            assert(0x800 * ((0x100_0000 * u) * y) >= (0x100_0000 * u) * u);
            assert(x * u <= (0x800 * u) * u);
            assert(u * u > 0);
        }
    }
}

/// Pixels of the game count as square if their width and height in the output
/// differ by half a percent or less, and do not if they differ by two percent or
/// more.
#[verifier::spinoff_prover]
pub proof fn lemma_square(c: Capture, cell: Factors)
    requires
        ({
            let m = measured(c, cell);
            let u = single::one_in_units();
            &&& m.cell.x.finite() && !m.cell.x.negative()
            &&& m.cell.y.finite() && !m.cell.y.negative()
            &&& u <= 0x800 * m.cell.x.size() <= 0x40_0000 * u
            &&& u <= 0x800 * m.cell.y.size() <= 0x40_0000 * u
        }),
    ensures
        ({
            let m = measured(c, cell);
            let (x, y) = (m.cell.x.units(), m.cell.y.units());
            &&& 200 * accuracy::distance(x, y) <= y ==> m.square
            &&& 50 * accuracy::distance(x, y) >= y ==> !m.square
        }),
{
    let m = measured(c, cell);
    let u = pow2(149) as int;
    let (x, y) = (m.cell.x.size() as int, m.cell.y.size() as int);
    accuracy::lemma_units();
    lemma_moderate_quotient(m.cell.x, m.cell.y);
    lemma_aspect_off(x, y, m.aspect.size() as int, u);
    lemma_near_one(m.aspect);
}

/// Whether a ratio counts as 1, as it is compared.
#[verifier::spinoff_prover]
proof fn lemma_near_one(aspect: Single)
    requires
        aspect.finite(),
        !aspect.negative(),
        aspect.size() <= 0x100_0000 * pow2(149),
    ensures
        ({
            let square = single::absolute(
                single::difference(aspect, single::of_integer(1)),
            ).up_to(single::of_fraction(1, 100));
            let off = accuracy::distance(aspect.size() as int, pow2(149) as int);
            &&& 190 * off <= pow2(149) ==> square
            &&& 55 * off >= pow2(149) ==> !square
        }),
{
    accuracy::lemma_units();
    accuracy::lemma_off_one(aspect);
    lemma_hundredth();
}

/// How far a ratio lies from 1, by how far two numbers are apart.
#[verifier::spinoff_prover]
proof fn lemma_aspect_off(x: int, y: int, k: int, u: int)
    requires
        x > 0,
        y > 0,
        u > 0,
        k >= 0,
        accuracy::within_part(k * y, x * u),
    ensures
        200 * accuracy::distance(x, y) <= y ==> 190 * accuracy::distance(k, u) <= u,
        50 * accuracy::distance(x, y) >= y ==> 55 * accuracy::distance(k, u) >= u,
{
    assert(k * y - u * y == (k - u) * y) by (nonlinear_arith);
    if 200 * accuracy::distance(x, y) <= y {
        assert(190 * (k - u) <= u && 190 * (u - k) <= u) by (nonlinear_arith)
            requires
                0xff_ffff * (k * y) <= 0x100_0000 * (x * u) <= 0x100_0001 * (k * y),
                200 * x <= 201 * y,
                200 * x >= 199 * y,
                y > 0,
                u > 0,
                k >= 0,
        {
            assert((200 * x) * u <= (201 * y) * u);
            assert((200 * x) * u >= (199 * y) * u);
            if 190 * k > 191 * u {
                assert((190 * k) * y > (191 * u) * y);
            }
            if 190 * k < 189 * u {
                assert((190 * k) * y < (189 * u) * y);
            }
        }
    }
    if 50 * accuracy::distance(x, y) >= y {
        assert(55 * (k - u) >= u || 55 * (u - k) >= u) by (nonlinear_arith)
            requires
                0xff_ffff * (k * y) <= 0x100_0000 * (x * u) <= 0x100_0001 * (k * y),
                50 * x >= 51 * y || 50 * x <= 49 * y,
                y > 0,
                u > 0,
                k >= 0,
        {
            if 50 * x >= 51 * y {
                assert((50 * x) * u >= (51 * y) * u);
                if 55 * k < 56 * u {
                    assert((55 * k) * y < (56 * u) * y);
                }
            } else {
                assert((50 * x) * u <= (49 * y) * u);
                if 55 * k > 54 * u {
                    assert((55 * k) * y > (54 * u) * y);
                }
            }
        }
    }
}

proof fn lemma_hundredth()
    ensures
        ({
            let h = single::of_fraction(1, 100);
            &&& h.finite() && !h.negative()
            &&& accuracy::distance((100 * h.size()) as int, pow2(149) as int) <= 100 * pow2(125)
        }),
{
    accuracy::lemma_units();
    accuracy::lemma_near(pow2(149), 100, 125);
    assert(single::of_fraction(1, 100) == single::signed(false, single::nearest(pow2(149), 100)));
}

/// The path that is suggested stays as the user left it while the same presets
/// run; it is made anew when other presets run or when it was emptied.
pub proof fn lemma_suggestion(s: Session, state: State)
    ensures
        s.save_path@.len() > 0 && s.state is Some && text::texts(s.state->0.presets@)
            == text::texts(state.presets@) ==> !renews_path(s, state),
        s.save_path@.len() == 0 ==> renews_path(s, state),
        s.state is Some && text::texts(s.state->0.presets@) != text::texts(state.presets@)
            ==> renews_path(s, state),
        s.state is None ==> renews_path(s, state),
{
}

/// It is the path of a preset called after the first one that runs, in the
/// directory of presets beside the configuration file.
pub proof fn lemma_suggested(p: Places, presets: Seq<String>, dir: Seq<char>, stem: Seq<char>)
    requires
        presets.len() > 0,
        presets[0]@ == path::within(dir, stem + ".slangp"@),
        stem.len() > 0,
        forall|i: int| 0 <= i < stem.len() ==> stem[i] != '/',
    ensures
        suggested(p, presets) == path::within(
            path::renamed(save::user_config(p), "presets"@),
            stem + "-custom.slangp"@,
        ),
{
    save::lemma_custom_name(dir, stem);
}

/// A process is among the targets if one of them has its number.
pub proof fn lemma_listed_target(targets: Seq<Target>, t: Target, pid: u32)
    ensures
        listed_target(targets.push(t), pid) <==> listed_target(targets, pid) || t.pid == pid,
        !listed_target(Seq::empty(), pid),
{
    let w = targets.push(t);
    assert(w[targets.len() as int] == t);
    if listed_target(targets, pid) {
        let i = choose|i: int| 0 <= i < targets.len() && (#[trigger] targets[i]).pid == pid;
        assert(w[i].pid == pid);
    }
    if listed_target(w, pid) {
        let i = choose|i: int| 0 <= i < w.len() && (#[trigger] w[i]).pid == pid;
        if i < targets.len() {
            assert(targets[i].pid == pid);
        }
    }
}

/// The line of sizes names the base, the picture if it is not all of the base,
/// the input and the output, each as width and height.
pub proof fn lemma_sizes_text(o: Output)
    ensures
        ({
            let of = |e: Extent| text::decimal(e.width as nat) + "×"@ + text::decimal(
                e.height as nat,
            );
            &&& o.picture == o.size ==> sizes_text(o) == "base "@ + of(o.size) + ", input "@ + of(
                o.input,
            ) + ", output "@ + of(o.size)
            &&& o.picture != o.size ==> sizes_text(o) == "base "@ + of(o.size) + ", picture "@ + of(
                o.picture,
            ) + ", input "@ + of(o.input) + ", output "@ + of(o.size)
        }),
{
    let of = |e: Extent| text::decimal(e.width as nat) + "×"@ + text::decimal(e.height as nat);
    reveal_strlit(", ");
    reveal_strlit("input ");
    reveal_strlit(", input ");
    reveal_strlit("picture ");
    reveal_strlit(", picture ");
    assert(", input "@ =~= ", "@ + "input "@);
    assert(", picture "@ =~= ", "@ + "picture "@);
    if o.picture == o.size {
        assert(sizes_text(o) =~= "base "@ + of(o.size) + ", input "@ + of(o.input) + ", output "@
            + of(o.size));
    } else {
        assert(sizes_text(o) =~= "base "@ + of(o.size) + ", picture "@ + of(o.picture)
            + ", input "@ + of(o.input) + ", output "@ + of(o.size));
    }
}

} // verus!
