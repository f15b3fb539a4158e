//! The numbers of the Vulkan interface that decisions depend on.

use crate::ipc::ColorSpace;
use crate::text;
use vstd::prelude::*;

verus! {

// --------------------------------------------------------------------- formats

pub const R8G8B8A8_UNORM: i32 = 37;

pub const R8G8B8A8_SRGB: i32 = 43;

pub const B8G8R8A8_UNORM: i32 = 44;

pub const B8G8R8A8_SRGB: i32 = 50;

pub const A8B8G8R8_UNORM_PACK32: i32 = 51;

pub const A8B8G8R8_SRGB_PACK32: i32 = 57;

/// `A2B10G10R10_UNORM_PACK32`, what HDR10 swapchains are made of.
pub const HDR10_FORMAT: i32 = 64;

pub const EXTENDED_SRGB_LINEAR: i32 = 1_000_104_002;

pub const HDR10_ST2084: i32 = 1_000_104_008;

/// The UNORM spelling of an sRGB format.
pub open spec fn unorm_of(format: i32) -> Option<i32> {
    if format == B8G8R8A8_SRGB {
        Some(B8G8R8A8_UNORM)
    } else if format == R8G8B8A8_SRGB {
        Some(R8G8B8A8_UNORM)
    } else if format == A8B8G8R8_SRGB_PACK32 {
        Some(A8B8G8R8_UNORM_PACK32)
    } else {
        None
    }
}

/// The other (sRGB/UNORM) spelling of a 32-bit format.
pub open spec fn sibling_of(format: i32) -> Option<i32> {
    if unorm_of(format) is Some {
        unorm_of(format)
    } else if format == B8G8R8A8_UNORM {
        Some(B8G8R8A8_SRGB)
    } else if format == R8G8B8A8_UNORM {
        Some(R8G8B8A8_SRGB)
    } else if format == A8B8G8R8_UNORM_PACK32 {
        Some(A8B8G8R8_SRGB_PACK32)
    } else {
        None
    }
}

pub fn srgb_to_unorm(format: i32) -> (r: Option<i32>)
    ensures
        r == unorm_of(format),
{
    if format == B8G8R8A8_SRGB {
        Some(B8G8R8A8_UNORM)
    } else if format == R8G8B8A8_SRGB {
        Some(R8G8B8A8_UNORM)
    } else if format == A8B8G8R8_SRGB_PACK32 {
        Some(A8B8G8R8_UNORM_PACK32)
    } else {
        None
    }
}

/// The other (sRGB/UNORM) spelling of a 32-bit format, so the application's
/// own image views stay legal on a promoted swapchain.
pub fn format_sibling(format: i32) -> (r: Option<i32>)
    ensures
        r == sibling_of(format),
{
    match srgb_to_unorm(format) {
        Some(f) => Some(f),
        None => {
            if format == B8G8R8A8_UNORM {
                Some(B8G8R8A8_SRGB)
            } else if format == R8G8B8A8_UNORM {
                Some(R8G8B8A8_SRGB)
            } else if format == A8B8G8R8_UNORM_PACK32 {
                Some(A8B8G8R8_SRGB_PACK32)
            } else {
                None
            }
        },
    }
}

/// Of two siblings, each is the other's, and exactly one is sRGB.
pub proof fn lemma_siblings(format: i32)
    requires
        sibling_of(format) is Some,
    ensures
        sibling_of(sibling_of(format)->0) == Some(format),
        sibling_of(format)->0 != format,
        unorm_of(format) is Some <==> unorm_of(sibling_of(format)->0) is None,
{
}

/// A UNORM format has no further UNORM spelling.
pub proof fn lemma_unorm_is_last(format: i32)
    requires
        unorm_of(format) is Some,
    ensures
        unorm_of(unorm_of(format)->0) is None,
{
}

/// Formats an application renders into that can share an image with the HDR10
/// view.
pub open spec fn promotable(format: i32) -> bool {
    format == HDR10_FORMAT || sibling_of(format) is Some
}

/// Formats an application renders into that can share an image with the HDR10
/// view: the same format (only the color space changes, no copy needed), or
/// another 32-bit format of the same compatibility class.
pub fn is_promotable(format: i32) -> (r: bool)
    ensures
        r == promotable(format),
{
    format == HDR10_FORMAT || format_sibling(format).is_some()
}

/// The color space that a swapchain's number stands for.
pub open spec fn space_of(raw: i32) -> ColorSpace {
    if raw == HDR10_ST2084 {
        ColorSpace::Hdr10
    } else if raw == EXTENDED_SRGB_LINEAR {
        ColorSpace::ScRgb
    } else {
        ColorSpace::Sdr
    }
}

pub fn color_space(raw: i32) -> (r: ColorSpace)
    ensures
        r == space_of(raw),
{
    if raw == HDR10_ST2084 {
        ColorSpace::Hdr10
    } else if raw == EXTENDED_SRGB_LINEAR {
        ColorSpace::ScRgb
    } else {
        ColorSpace::Sdr
    }
}

/// Name of a format, as it is shown.
pub uninterp spec fn format_label(raw: i32) -> Seq<char>;

/// `Debug` of `ash::vk::Format`: the name that Vulkan gives the format of
/// number `raw`, or the number where it has none. It is a function of the
/// number alone; the table of names is not restated here.
#[verifier::external_body]
pub(crate) fn format_name(raw: i32) -> (r: String)
    ensures
        r@ == format_label(raw),
{
    format!("{:?}", ash::vk::Format::from_raw(raw))
}

// ----------------------------------------------------------------------- flags

pub const QUEUE_GRAPHICS: u32 = 0x1;

pub const USAGE_TRANSFER_SRC: u32 = 0x1;

pub const USAGE_TRANSFER_DST: u32 = 0x2;

pub const USAGE_SAMPLED: u32 = 0x4;

pub const USAGE_COLOR_ATTACHMENT: u32 = 0x10;

pub const FEATURE_SAMPLED_IMAGE: u32 = 0x1;

pub const FEATURE_COLOR_ATTACHMENT: u32 = 0x80;

pub const FEATURE_BLIT_SRC: u32 = 0x400;

pub const FEATURE_BLIT_DST: u32 = 0x800;

pub const MEMORY_DEVICE_LOCAL: u32 = 0x1;

pub const MEMORY_HOST_VISIBLE: u32 = 0x2;

pub const MEMORY_HOST_COHERENT: u32 = 0x4;

/// Every flag of `wanted` is among `flags`.
pub open spec fn flagged(flags: u32, wanted: u32) -> bool {
    flags & wanted == wanted
}

pub fn has_flags(flags: u32, wanted: u32) -> (r: bool)
    ensures
        r == flagged(flags, wanted),
{
    flags & wanted == wanted
}

// ---------------------------------------------------------------------- memory

/// Memory type `i` is among those of `bits` and has the wanted flags.
pub open spec fn memory_suits(bits: u32, types: Seq<u32>, wanted: u32, i: int) -> bool {
    &&& 0 <= i < types.len()
    &&& i < 32
    &&& bits & (1u32 << (i as u32)) != 0
    &&& flagged(types[i], wanted)
}

/// First memory type that suits. `types` holds the flags of each type the
/// device has, at most 32.
pub fn memory_type(bits: u32, types: &Vec<u32>, wanted: u32) -> (r: Option<u32>)
    requires
        types@.len() <= 32,
    ensures
        match r {
            Some(i) => memory_suits(bits, types@, wanted, i as int) && forall|j: int|
                0 <= j < i ==> !memory_suits(bits, types@, wanted, j),
            None => forall|j: int| !memory_suits(bits, types@, wanted, j),
        },
{
    let mut i: usize = 0;
    while i < types.len()
        invariant
            i <= types@.len(),
            types@.len() <= 32,
            forall|j: int| 0 <= j < i ==> !memory_suits(bits, types@, wanted, j),
        decreases types@.len() - i,
    {
        let k: u32 = i as u32;
        if bits & (1u32 << k) != 0 && has_flags(types[i], wanted) {
            return Some(k);
        }
        i = i + 1;
    }
    None
}

// ------------------------------------------------------------------ extensions

/// Whether `name` is among the texts.
pub open spec fn lists_text(v: Seq<String>, name: Seq<char>) -> bool {
    exists|i: int| 0 <= i < v.len() && (#[trigger] v[i])@ == name
}

/// Whether `name` is among `list`.
pub fn has_ext(list: &Vec<String>, name: &str) -> (r: bool)
    ensures
        r == lists_text(list@, name@),
{
    let mut i: usize = 0;
    while i < list.len()
        invariant
            i <= list@.len(),
            forall|j: int| 0 <= j < i ==> (#[trigger] list@[j])@ != name@,
        decreases list@.len() - i,
    {
        if text::equal_texts(list[i].as_str(), name) {
            return true;
        }
        i = i + 1;
    }
    false
}

/// The sRGB formats are those that come six numbers behind their UNORM
/// spelling, for the three orders of four bytes; no other format has one.
pub proof fn lemma_unorm_numbers(format: i32)
    ensures
        format == 43 || format == 50 || format == 57 ==> unorm_of(format) == Some((format - 6) as i32),
        format != 43 && format != 50 && format != 57 ==> unorm_of(format) is None,
        format == 37 || format == 44 || format == 51 ==> sibling_of(format) == Some(
            (format + 6) as i32,
        ),
        promotable(format) <==> format == 64 || format == 37 || format == 43 || format == 44
            || format == 50 || format == 51 || format == 57,
{
}

/// HDR10 and scRGB have a number each; every other color space counts as SDR.
pub proof fn lemma_spaces(raw: i32)
    ensures
        space_of(raw) == ColorSpace::Hdr10 <==> raw == HDR10_ST2084,
        space_of(raw) == ColorSpace::ScRgb <==> raw == EXTENDED_SRGB_LINEAR,
        space_of(raw) == ColorSpace::Sdr <==> raw != HDR10_ST2084 && raw != EXTENDED_SRGB_LINEAR,
{
}

/// Flags are there if each of them is.
pub proof fn lemma_flags(flags: u32, a: u32, b: u32)
    ensures
        flagged(flags, a | b) <==> flagged(flags, a) && flagged(flags, b),
        flagged(flags, 0),
        flagged(flags | a, a),
{
    assert((flags & (a | b) == (a | b)) <==> (flags & a == a) && (flags & b == b)) by (bit_vector);
    assert(flags & 0u32 == 0u32) by (bit_vector);
    assert((flags | a) & a == a) by (bit_vector);
}

/// A memory type suits if its bit is set and it has the flags that are wanted;
/// more flags do no harm.
pub proof fn lemma_memory(bits: u32, types: Seq<u32>, wanted: u32, i: int, more: u32)
    requires
        0 <= i < types.len() <= 32,
    ensures
        memory_suits(bits, types, wanted, i) ==> flagged(types[i], wanted) && bits & (1u32 << (
        i as u32)) != 0,
        memory_suits(0xffff_ffff, types, wanted, i) <==> flagged(types[i], wanted),
        memory_suits(bits, types, wanted, i) ==> memory_suits(
            bits,
            types.update(i, types[i] | more),
            wanted,
            i,
        ),
        !memory_suits(0, types, wanted, i),
{
    let k = i as u32;
    let t = types[i];
    assert(0xffff_ffffu32 & (1u32 << k) != 0) by (bit_vector)
        requires
            k < 32,
    ;
    assert(0u32 & (1u32 << k) == 0) by (bit_vector);
    assert(t & wanted == wanted ==> (t | more) & wanted == wanted) by (bit_vector);
}

} // verus!
