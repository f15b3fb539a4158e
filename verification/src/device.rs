//! Which extensions the layer asks for, and which queue it works on.

use crate::config::HdrOutput;
use crate::text;
use crate::vulkan::{self, QUEUE_GRAPHICS};
use vstd::prelude::*;

verus! {

// -------------------------------------------------------------------- instances

/// `VK_EXT_swapchain_colorspace` is asked for on top of what the application
/// wants: without it the surface never reports the HDR10/scRGB formats that a
/// promotion to HDR needs.
pub open spec fn adds_colorspace(hdr_output: HdrOutput, enabled: Seq<String>) -> bool {
    hdr_output != HdrOutput::Off && !vulkan::lists_text(enabled, "VK_EXT_swapchain_colorspace"@)
}

/// Whether to ask for `VK_EXT_swapchain_colorspace`.
pub fn add_colorspace(hdr_output: HdrOutput, enabled: &Vec<String>) -> (r: bool)
    ensures
        r == adds_colorspace(hdr_output, enabled@),
{
    hdr_output != HdrOutput::Off && !vulkan::has_ext(enabled, "VK_EXT_swapchain_colorspace")
}

/// What to do once the next layer has been asked to create an instance.
#[derive(Clone, Copy, PartialEq, Eq, Debug, Structural)]
pub enum InstanceStep {
    /// Ask again, for what the application wanted and nothing else.
    AskAgain,
    /// Hand the failure back.
    Fail,
    /// Go on with the instance.
    Keep,
}

/// Availability of the extension is not queried: the call is retried without
/// it on failure.
pub fn after_create_instance(success: bool, added: bool) -> (r: InstanceStep)
    ensures
        r == if success {
            InstanceStep::Keep
        } else if added {
            InstanceStep::AskAgain
        } else {
            InstanceStep::Fail
        },
{
    if success {
        InstanceStep::Keep
    } else if added {
        InstanceStep::AskAgain
    } else {
        InstanceStep::Fail
    }
}

// ---------------------------------------------------------------------- devices

/// What the application asks of a device, and what the device has.
pub struct DeviceRequest {
    /// Queue families that the application asks for queues of.
    pub queue_families: Vec<u32>,
    /// Flags of every family of the device.
    pub family_flags: Vec<u32>,
    /// Extensions that the application enables.
    pub enabled: Vec<String>,
    /// Extensions that the device has.
    pub available: Vec<String>,
}

/// How the device is created and used.
pub struct DevicePlan {
    /// Extensions to enable besides the application's.
    pub added: Vec<String>,
    /// Swapchains can be viewed in more than one format.
    pub mutable_format: bool,
    /// Queue family that the layer works on.
    pub graphics_family: Option<u32>,
    /// There is something to run, and it is meant for this process.
    pub wanted: bool,
    /// The layer does something on this device.
    pub active: bool,
}

/// A family that the device has and that can draw.
pub open spec fn draws(flags: Seq<u32>, family: u32) -> bool {
    family < flags.len() && vulkan::flagged(flags[family as int], QUEUE_GRAPHICS)
}

/// The first family asked for that can draw.
pub open spec fn first_drawing(families: Seq<u32>, flags: Seq<u32>) -> Option<u32>
    decreases families.len(),
{
    if families.len() == 0 {
        None
    } else if draws(flags, families[0]) {
        Some(families[0])
    } else {
        first_drawing(families.drop_first(), flags)
    }
}

/// The layer renders on a graphics-capable queue the application asked for.
pub fn graphics_family(families: &Vec<u32>, flags: &Vec<u32>) -> (r: Option<u32>)
    ensures
        r == first_drawing(families@, flags@),
{
    let mut i: usize = 0;
    assert(families@.skip(0) =~= families@);
    while i < families.len()
        invariant
            i <= families@.len(),
            first_drawing(families@, flags@) == first_drawing(families@.skip(i as int), flags@),
        decreases families@.len() - i,
    {
        assert(families@.skip(i as int).drop_first() =~= families@.skip(i as int + 1));
        let f: u32 = families[i];
        if (f as usize) < flags.len() && vulkan::has_flags(flags[f as usize], QUEUE_GRAPHICS) {
            return Some(f);
        }
        i = i + 1;
    }
    None
}

/// The extensions that let a swapchain be viewed in more than one format.
pub open spec fn needed() -> Seq<Seq<char>> {
    seq![
        "VK_KHR_swapchain_mutable_format"@,
        "VK_KHR_image_format_list"@,
        "VK_KHR_maintenance2"@,
    ]
}

/// All of them are there.
pub open spec fn all_available(available: Seq<String>) -> bool {
    vulkan::lists_text(available, needed()[0]) && vulkan::lists_text(available, needed()[1])
        && vulkan::lists_text(available, needed()[2])
}

/// The names that are not in `enabled` yet, in their order.
pub open spec fn absent(names: Seq<Seq<char>>, enabled: Seq<String>) -> Seq<Seq<char>>
    decreases names.len(),
{
    if names.len() == 0 {
        seq![]
    } else if vulkan::lists_text(enabled, names.last()) {
        absent(names.drop_last(), enabled)
    } else {
        absent(names.drop_last(), enabled).push(names.last())
    }
}

fn add_absent(out: &mut Vec<String>, name: &str, enabled: &Vec<String>)
    ensures
        text::texts(final(out)@) == if vulkan::lists_text(enabled@, name@) {
            text::texts(old(out)@)
        } else {
            text::texts(old(out)@).push(name@)
        },
{
    let ghost before = text::texts(out@);
    if !vulkan::has_ext(enabled, name) {
        out.push(text::text_of(text::chars_of(name).as_slice()));
        assert(text::texts(out@) =~= before.push(name@));
    }
}

/// Decides how a device is created. `presets` says whether there is anything
/// to run, `in_process` whether the layer is meant for this process.
///
/// A mutable swapchain format lets the layer render through a UNORM view of an
/// sRGB swapchain, so gamma is not applied twice.
pub fn plan_device(request: &DeviceRequest, presets: bool, in_process: bool) -> (r: DevicePlan)
    ensures
        r.mutable_format == (presets && in_process && all_available(request.available@)),
        text::texts(r.added@) == if r.mutable_format {
            absent(needed(), request.enabled@)
        } else {
            Seq::empty()
        },
        r.graphics_family == first_drawing(request.queue_families@, request.family_flags@),
        r.wanted == (presets && in_process),
        r.active == (presets && in_process && r.graphics_family is Some),
{
    let wanted: bool = presets && in_process;
    let family: Option<u32> = graphics_family(&request.queue_families, &request.family_flags);
    let mut added: Vec<String> = Vec::new();
    assert(text::texts(added@) =~= Seq::empty());
    let mut mutable_format: bool = false;
    if wanted && vulkan::has_ext(&request.available, "VK_KHR_swapchain_mutable_format")
        && vulkan::has_ext(&request.available, "VK_KHR_image_format_list") && vulkan::has_ext(
        &request.available,
        "VK_KHR_maintenance2",
    ) {
        add_absent(&mut added, "VK_KHR_swapchain_mutable_format", &request.enabled);
        add_absent(&mut added, "VK_KHR_image_format_list", &request.enabled);
        add_absent(&mut added, "VK_KHR_maintenance2", &request.enabled);
        mutable_format = true;
        proof {
            let n = needed();
            reveal_with_fuel(absent, 4);
            assert(n.drop_last() =~= seq![n[0], n[1]]);
            assert(n.drop_last().drop_last() =~= seq![n[0]]);
            assert(n.drop_last().drop_last().drop_last() =~= Seq::<Seq<char>>::empty());
            assert(text::texts(added@) =~= absent(n, request.enabled@));
        }
    }
    DevicePlan {
        added,
        mutable_format,
        graphics_family: family,
        wanted,
        active: wanted && family.is_some(),
    }
}

/// An extension is never asked for twice.
pub proof fn lemma_added_once(names: Seq<Seq<char>>, enabled: Seq<String>, i: int)
    requires
        0 <= i < absent(names, enabled).len(),
    ensures
        !vulkan::lists_text(enabled, absent(names, enabled)[i]),
        names.contains(absent(names, enabled)[i]),
    decreases names.len(),
{
    if names.len() > 0 {
        let front = names.drop_last();
        let a = absent(front, enabled);
        if i < a.len() {
            lemma_added_once(front, enabled, i);
            let j = choose|j: int| 0 <= j < front.len() && front[j] == a[i];
            assert(names[j] == a[i]);
        } else {
            assert(names[names.len() - 1] == names.last());
        }
    }
}

// ----------------------------------------------------------------------- queues

/// Families of the queues that the application was given, later ones first.
pub struct QueueFamilies {
    entries: Vec<(u64, u32)>,
}

/// What a list of entries leaves behind.
pub open spec fn families_of(entries: Seq<(u64, u32)>) -> Map<u64, u32>
    decreases entries.len(),
{
    if entries.len() == 0 {
        Map::empty()
    } else {
        families_of(entries.drop_last()).insert(entries.last().0, entries.last().1)
    }
}

impl QueueFamilies {
    pub closed spec fn view(&self) -> Map<u64, u32> {
        families_of(self.entries@)
    }

    pub fn new() -> (r: QueueFamilies)
        ensures
            r@ == Map::<u64, u32>::empty(),
    {
        QueueFamilies { entries: Vec::new() }
    }

    /// Notes the family of a queue.
    pub fn insert(&mut self, queue: u64, family: u32)
        ensures
            final(self)@ == old(self)@.insert(queue, family),
    {
        let ghost before = self.entries@;
        self.entries.push((queue, family));
        assert(before.push((queue, family)).drop_last() =~= before);
    }

    /// Family of a queue.
    pub fn get(&self, queue: u64) -> (r: Option<u32>)
        ensures
            match r {
                Some(f) => self@.contains_key(queue) && self@[queue] == f,
                None => !self@.contains_key(queue),
            },
    {
        let mut n: usize = self.entries.len();
        assert(self.entries@.take(n as int) =~= self.entries@);
        while n > 0
            invariant
                n <= self.entries@.len(),
                self@.contains_key(queue) == families_of(
                    self.entries@.take(n as int),
                ).contains_key(queue),
                self@.contains_key(queue) ==> self@[queue] == families_of(
                    self.entries@.take(n as int),
                )[queue],
            decreases n,
        {
            assert(self.entries@.take(n as int).drop_last() =~= self.entries@.take(n as int - 1));
            if self.entries[n - 1].0 == queue {
                return Some(self.entries[n - 1].1);
            }
            n = n - 1;
        }
        None
    }

    /// Queue to submit on when presenting on `queue`: the presenting queue
    /// when it belongs to the layer's family, since the application already
    /// synchronizes it, else the layer's own.
    pub fn submit_queue(&self, queue: u64, own_queue: u64, own_family: u32) -> (r: u64)
        ensures
            r == if self@.contains_key(queue) && self@[queue] == own_family {
                queue
            } else {
                own_queue
            },
    {
        match self.get(queue) {
            Some(f) => {
                if f == own_family {
                    queue
                } else {
                    own_queue
                }
            },
            None => own_queue,
        }
    }
}

/// The queue that the layer works on is one that the application asked for and
/// that can draw, the first such one; there is none only if no such queue was
/// asked for.
pub proof fn lemma_first_drawing(families: Seq<u32>, flags: Seq<u32>)
    ensures
        match first_drawing(families, flags) {
            Some(f) => exists|i: int|
                0 <= i < families.len() && #[trigger] families[i] == f && f < flags.len()
                    && vulkan::flagged(flags[f as int], QUEUE_GRAPHICS) && forall|j: int|
                    0 <= j < i ==> !((#[trigger] families[j]) < flags.len() && vulkan::flagged(
                        flags[families[j] as int],
                        QUEUE_GRAPHICS,
                    )),
            None => forall|j: int|
                0 <= j < families.len() ==> !((#[trigger] families[j]) < flags.len()
                    && vulkan::flagged(flags[families[j] as int], QUEUE_GRAPHICS)),
        },
    decreases families.len(),
{
    if families.len() > 0 {
        let rest = families.drop_first();
        if draws(flags, families[0]) {
            assert(families[0] == first_drawing(families, flags)->0);
        } else {
            lemma_first_drawing(rest, flags);
            match first_drawing(rest, flags) {
                Some(f) => {
                    let i = choose|i: int|
                        0 <= i < rest.len() && #[trigger] rest[i] == f && f < flags.len()
                            && vulkan::flagged(flags[f as int], QUEUE_GRAPHICS) && forall|j: int|
                            0 <= j < i ==> !((#[trigger] rest[j]) < flags.len() && vulkan::flagged(
                                flags[rest[j] as int],
                                QUEUE_GRAPHICS,
                            ));
                    assert(families[i + 1] == f);
                    assert forall|j: int| 0 <= j < i + 1 implies !((#[trigger] families[j])
                        < flags.len() && vulkan::flagged(
                        flags[families[j] as int],
                        QUEUE_GRAPHICS,
                    )) by {
                        if j > 0 {
                            assert(rest[j - 1] == families[j]);
                        }
                    }
                },
                None => {
                    assert forall|j: int| 0 <= j < families.len() implies !((#[trigger] families[j])
                        < flags.len() && vulkan::flagged(
                        flags[families[j] as int],
                        QUEUE_GRAPHICS,
                    )) by {
                        if j > 0 {
                            assert(rest[j - 1] == families[j]);
                        }
                    }
                },
            }
        }
    }
}

/// Every extension that is needed is enabled in the end, by the application or
/// by the layer.
pub proof fn lemma_all_enabled(names: Seq<Seq<char>>, enabled: Seq<String>, i: int)
    requires
        0 <= i < names.len(),
    ensures
        vulkan::lists_text(enabled, names[i]) || absent(names, enabled).contains(names[i]),
    decreases names.len(),
{
    let front = names.drop_last();
    let a = absent(front, enabled);
    let b = absent(names, enabled);
    if i < front.len() {
        lemma_all_enabled(front, enabled, i);
        assert(front[i] == names[i]);
        if a.contains(names[i]) {
            let j = choose|j: int| 0 <= j < a.len() && a[j] == names[i];
            assert(b[j] == names[i]);
        }
    } else if !vulkan::lists_text(enabled, names[i]) {
        assert(b[a.len() as int] == names[i]);
    }
}

/// A swapchain can be viewed in more than one format if the device has the
/// three extensions for it, whatever else it has.
pub proof fn lemma_all_available(available: Seq<String>)
    ensures
        all_available(available) <==> vulkan::lists_text(
            available,
            "VK_KHR_swapchain_mutable_format"@,
        ) && vulkan::lists_text(available, "VK_KHR_image_format_list"@) && vulkan::lists_text(
            available,
            "VK_KHR_maintenance2"@,
        ),
        needed().len() == 3,
        needed().contains("VK_KHR_swapchain_mutable_format"@),
        needed().contains("VK_KHR_image_format_list"@),
        needed().contains("VK_KHR_maintenance2"@),
{
    assert(needed()[0] == "VK_KHR_swapchain_mutable_format"@);
    assert(needed()[1] == "VK_KHR_image_format_list"@);
    assert(needed()[2] == "VK_KHR_maintenance2"@);
}

/// HDR formats are asked for unless HDR is off or the application asks for them
/// itself.
pub proof fn lemma_colorspace(hdr_output: HdrOutput, enabled: Seq<String>)
    ensures
        hdr_output == HdrOutput::Off ==> !adds_colorspace(hdr_output, enabled),
        hdr_output != HdrOutput::Off ==> (adds_colorspace(hdr_output, enabled) <==> forall|i: int|
            0 <= i < enabled.len() ==> (#[trigger] enabled[i])@ != "VK_EXT_swapchain_colorspace"@),
{
}

} // verus!
