//! One presented image: which commands are recorded, in which order.
//!
//! ```text
//!  screen   PRESENT_SRC -> TRANSFER_SRC --blit/copy--> source (source_res)
//!                                                      TRANSFER_DST -> SHADER_READ_ONLY
//!  screen   TRANSFER_SRC -> COLOR_ATTACHMENT <-- preset (Original = source)
//!  screen   COLOR_ATTACHMENT -> PRESENT_SRC
//! ```

use crate::accuracy;
use crate::ipc::{Extent, Filter, Offset, Rect};
use crate::screen;
use crate::single::{self, Single};
use vstd::arithmetic::power2::*;
use vstd::prelude::*;

verus! {

// ------------------------------------------------------------------------ bars

/// A rectangle from its parts.
pub open spec fn rect_at(x: i32, y: i32, width: u32, height: u32) -> Rect {
    Rect { offset: Offset { x, y }, extent: Extent { width, height } }
}

/// The four parts of a `total`-sized image around `picture`, empty or not:
/// left, right, above, below. What of the picture lies outside of the image
/// does not count.
pub open spec fn sides(picture: Rect, total: Extent) -> Seq<Rect> {
    let (w, h) = (total.width as int, total.height as int);
    let left = single::clamped(picture.offset.x as int, 0, w);
    let right = single::clamped(picture.offset.x + picture.extent.width, 0, w);
    let top = single::clamped(picture.offset.y as int, 0, h);
    let bottom = single::clamped(picture.offset.y + picture.extent.height, 0, h);
    seq![
        rect_at(0, 0, left as u32, total.height),
        rect_at(right as i32, 0, (w - right) as u32, total.height),
        rect_at(left as i32, 0, (right - left) as u32, top as u32),
        rect_at(left as i32, bottom as i32, (right - left) as u32, (h - bottom) as u32),
    ]
}

/// The rectangles that hold a pixel.
pub open spec fn filled(v: Seq<Rect>) -> Seq<Rect>
    decreases v.len(),
{
    if v.len() == 0 {
        seq![]
    } else if screen::holds_pixels(v.last()) {
        filled(v.drop_last()).push(v.last())
    } else {
        filled(v.drop_last())
    }
}

/// The parts of a `total`-sized image left outside `picture`.
pub open spec fn bars(picture: Rect, total: Extent) -> Seq<Rect> {
    filled(sides(picture, total))
}

/// The pixels of an image have places.
pub open spec fn computable(total: Extent) -> bool {
    total.width <= 0x7fff_ffff && total.height <= 0x7fff_ffff
}

/// `at` moved into an axis of `total` pixels, its end included.
fn cut(at: i64, total: u32) -> (r: u32)
    ensures
        r == single::clamped(at as int, 0, total as int),
{
    if at < 0 {
        0
    } else if at > total as i64 {
        total
    } else {
        at as u32
    }
}

fn push_filled(out: &mut Vec<Rect>, r: Rect)
    ensures
        final(out)@ == if screen::holds_pixels(r) {
            old(out)@.push(r)
        } else {
            old(out)@
        },
{
    if r.extent.width > 0 && r.extent.height > 0 {
        out.push(r);
    }
}

/// The parts of a `total`-sized image left outside `picture`: every pixel of
/// the image lies either in the picture or in one of them.
pub fn bar_rects(picture: Rect, total: Extent) -> (r: Vec<Rect>)
    requires
        computable(total),
    ensures
        r@ == bars(picture, total),
        forall|x: int, y: int|
            0 <= x < total.width && 0 <= y < total.height ==> (#[trigger] covered(r@, x, y)
                <==> !covers(picture, x, y)),
{
    let left: u32 = cut(picture.offset.x as i64, total.width);
    let right: u32 = cut(picture.offset.x as i64 + picture.extent.width as i64, total.width);
    let top: u32 = cut(picture.offset.y as i64, total.height);
    let bottom: u32 = cut(picture.offset.y as i64 + picture.extent.height as i64, total.height);
    let a: Rect = Rect {
        offset: Offset { x: 0, y: 0 },
        extent: Extent { width: left, height: total.height },
    };
    let b: Rect = Rect {
        offset: Offset { x: right as i32, y: 0 },
        extent: Extent { width: total.width - right, height: total.height },
    };
    let c: Rect = Rect {
        offset: Offset { x: left as i32, y: 0 },
        extent: Extent { width: right - left, height: top },
    };
    let d: Rect = Rect {
        offset: Offset { x: left as i32, y: bottom as i32 },
        extent: Extent { width: right - left, height: total.height - bottom },
    };
    let mut out: Vec<Rect> = Vec::new();
    push_filled(&mut out, a);
    push_filled(&mut out, b);
    push_filled(&mut out, c);
    push_filled(&mut out, d);
    proof {
        let s = sides(picture, total);
        assert(s =~= seq![a, b, c, d]);
        assert(s.drop_last() =~= seq![a, b, c]);
        assert(seq![a, b, c].drop_last() =~= seq![a, b]);
        assert(seq![a, b].drop_last() =~= seq![a]);
        assert(seq![a].drop_last() =~= Seq::<Rect>::empty());
        reveal_with_fuel(filled, 5);
        assert(out@ =~= filled(s));
        assert forall|x: int, y: int|
            0 <= x < total.width && 0 <= y < total.height implies (#[trigger] covered(out@, x, y)
            <==> !covers(picture, x, y)) by {
            lemma_bars_cover_the_rest(picture, total, x, y);
        }
    }
    out
}

/// The pixel at `x`, `y` lies in the rectangle.
pub open spec fn covers(r: Rect, x: int, y: int) -> bool {
    &&& r.offset.x <= x < r.offset.x + r.extent.width
    &&& r.offset.y <= y < r.offset.y + r.extent.height
}

/// The pixel lies in one of the rectangles.
pub open spec fn covered(v: Seq<Rect>, x: int, y: int) -> bool {
    exists|i: int| 0 <= i < v.len() && covers(#[trigger] v[i], x, y)
}

proof fn lemma_filled_covers(v: Seq<Rect>, x: int, y: int)
    ensures
        covered(filled(v), x, y) <==> covered(v, x, y),
    decreases v.len(),
{
    if v.len() > 0 {
        let front = v.drop_last();
        lemma_filled_covers(front, x, y);
        let f = filled(front);
        let g = filled(v);
        if covered(v, x, y) {
            let i = choose|i: int| 0 <= i < v.len() && covers(#[trigger] v[i], x, y);
            if i < front.len() {
                assert(covers(front[i], x, y));
                let j = choose|j: int| 0 <= j < f.len() && covers(#[trigger] f[j], x, y);
                assert(covers(g[j], x, y));
            } else {
                assert(covers(g[f.len() as int], x, y));
            }
        }
        if covered(g, x, y) {
            let i = choose|i: int| 0 <= i < g.len() && covers(#[trigger] g[i], x, y);
            if i < f.len() {
                assert(covers(f[i], x, y));
                let j = choose|j: int| 0 <= j < front.len() && covers(#[trigger] front[j], x, y);
                assert(covers(v[j], x, y));
            } else {
                assert(covers(v[v.len() - 1], x, y));
            }
        }
    }
}

/// The bars cover what the picture leaves of the image, pixel by pixel, and
/// nothing of the picture, wherever the picture lies.
pub proof fn lemma_bars_cover_the_rest(picture: Rect, total: Extent, x: int, y: int)
    requires
        computable(total),
        0 <= x < total.width,
        0 <= y < total.height,
    ensures
        covered(bars(picture, total), x, y) <==> !covers(picture, x, y),
{
    let s = sides(picture, total);
    lemma_filled_covers(s, x, y);
    if !covers(picture, x, y) {
        if x < picture.offset.x {
            assert(covers(s[0], x, y));
        } else if x >= picture.offset.x + picture.extent.width {
            assert(covers(s[1], x, y));
        } else if y < picture.offset.y {
            assert(covers(s[2], x, y));
        } else {
            assert(covers(s[3], x, y));
        }
    }
}

proof fn lemma_filled_holds(v: Seq<Rect>, i: int)
    requires
        0 <= i < filled(v).len(),
    ensures
        screen::holds_pixels(filled(v)[i]),
        exists|j: int| 0 <= j < v.len() && filled(v)[i] == #[trigger] v[j],
    decreases v.len(),
{
    if v.len() > 0 {
        let f = filled(v.drop_last());
        if screen::holds_pixels(v.last()) && i == f.len() {
            assert(filled(v)[i] == v[v.len() - 1]);
        } else {
            lemma_filled_holds(v.drop_last(), i);
            let j = choose|j: int|
                0 <= j < v.drop_last().len() && f[i] == #[trigger] v.drop_last()[j];
            assert(filled(v)[i] == v[j]);
        }
    }
}

/// Every bar lies in the image and holds a pixel.
pub proof fn lemma_bars_inside(picture: Rect, total: Extent, i: int)
    requires
        computable(total),
        0 <= i < bars(picture, total).len(),
    ensures
        screen::inside(bars(picture, total)[i], total),
        screen::holds_pixels(bars(picture, total)[i]),
{
    let s = sides(picture, total);
    lemma_filled_holds(s, i);
    let j = choose|j: int| 0 <= j < s.len() && filled(s)[i] == #[trigger] s[j];
    assert(j == 0 || j == 1 || j == 2 || j == 3);
}

/// A picture that fills the image has no bars.
pub proof fn lemma_no_bars(total: Extent)
    requires
        total.width <= 0x7fff_ffff,
        total.height <= 0x7fff_ffff,
    ensures
        bars(rect_at(0, 0, total.width, total.height), total).len() == 0,
{
    let picture = rect_at(0, 0, total.width, total.height);
    if bars(picture, total).len() > 0 {
        let s = sides(picture, total);
        lemma_filled_holds(s, 0);
        let j = choose|j: int| 0 <= j < s.len() && filled(s)[0] == #[trigger] s[j];
        assert(j == 0 || j == 1 || j == 2 || j == 3);
    }
}

// ---------------------------------------------------------------------- images

/// The images that a frame works on.
#[derive(Clone, Copy, PartialEq, Eq, Debug, Structural)]
pub enum Image {
    /// The swapchain image that is presented.
    Screen,
    /// Low-resolution copy fed to the preset as `Original`.
    Source,
    /// Raw copy of the application's pixels on a promoted swapchain.
    Staging,
    /// Copy for the control panel.
    Capture,
    /// One opaque black pixel.
    Black,
}

/// What an image is laid out for.
#[derive(Clone, Copy, PartialEq, Eq, Debug, Structural)]
pub enum Layout {
    Undefined,
    PresentSrc,
    TransferSrc,
    TransferDst,
    ShaderReadOnly,
    ColorAttachment,
}

pub const STAGE_FRAGMENT_SHADER: u32 = 0x80;

pub const STAGE_COLOR_ATTACHMENT_OUTPUT: u32 = 0x400;

pub const STAGE_TRANSFER: u32 = 0x1000;

pub const STAGE_BOTTOM_OF_PIPE: u32 = 0x2000;

pub const STAGE_ALL_COMMANDS: u32 = 0x1_0000;

/// Fragment shader, color attachment output and transfer.
pub const STAGE_PRESET: u32 = 0x1480;

/// Color attachment output and transfer.
pub const STAGE_DRAWN: u32 = 0x1400;

pub const ACCESS_SHADER_READ: u32 = 0x20;

pub const ACCESS_COLOR_ATTACHMENT_WRITE: u32 = 0x100;

pub const ACCESS_TRANSFER_READ: u32 = 0x800;

pub const ACCESS_TRANSFER_WRITE: u32 = 0x1000;

pub const ACCESS_MEMORY_WRITE: u32 = 0x1_0000;

/// Reading and writing a color attachment.
pub const ACCESS_COLOR_ATTACHMENT: u32 = 0x180;

/// Reading in shaders and transfers.
pub const ACCESS_READ: u32 = 0x820;

/// Writing color attachments and in transfers.
pub const ACCESS_DRAWN: u32 = 0x1100;

/// One recorded command, or a part of one.
#[derive(Clone, Copy, PartialEq, Eq, Debug, Structural)]
pub enum Step {
    /// A pipeline barrier: what waits goes on once what is done is over. The transitions that follow
    /// directly belong to it.
    Barrier { done: u32, waiting: u32 },
    /// An image changes its layout.
    Transition { image: Image, was: Layout, becomes: Layout, before: u32, after: u32 },
    /// Pixels are copied as they are, to the corner of `to`.
    Copy { from: Image, to: Image, area: Rect },
    /// Pixels are scaled to the whole of `to`.
    Blit { from: Image, to: Image, area: Rect, size: Extent, filter: Filter },
    /// Pixels are copied to where the processor can read them.
    Read { image: Image, size: Extent },
    /// The image becomes opaque black.
    Clear { image: Image },
    /// The preset runs.
    Run,
    /// A part of the screen takes the color of the black pixel; the ones that
    /// follow directly belong to one command.
    Fill { area: Rect },
}

/// What a frame depends on.
#[derive(Clone, Copy, PartialEq, Eq, Debug, Structural)]
pub struct FrameInput {
    /// Size of the screen.
    pub extent: Extent,
    /// Region of the screen holding the picture.
    pub picture: Rect,
    /// Size of the source image.
    pub input: Extent,
    pub filter: Filter,
    /// Region the preset draws into.
    pub display: Rect,
    /// The application's pixels are copied raw first.
    pub staged: bool,
    /// There is a black pixel to fill bars with.
    pub black: bool,
    /// An extra presentation of the same application frame.
    pub subframe: bool,
    /// Size of the copy for the control panel, if one is due.
    pub capture: Option<Extent>,
}

pub open spec fn transition(image: Image, was: Layout, becomes: Layout, before: u32, after: u32) -> Step {
    Step::Transition { image, was, becomes, before, after }
}

/// The whole screen.
pub open spec fn whole(extent: Extent) -> Rect {
    rect_at(0, 0, extent.width, extent.height)
}

/// Where the application's pixels are read from.
pub open spec fn drawn_image(i: FrameInput) -> Image {
    if i.staged {
        Image::Staging
    } else {
        Image::Screen
    }
}

/// The screen can be read, and the images to copy into can be written; their
/// previous contents are discarded.
pub open spec fn opening(i: FrameInput) -> Seq<Step> {
    let first = seq![
        Step::Barrier { done: STAGE_ALL_COMMANDS, waiting: STAGE_TRANSFER },
        transition(
            Image::Screen,
            Layout::PresentSrc,
            Layout::TransferSrc,
            ACCESS_MEMORY_WRITE,
            ACCESS_TRANSFER_READ,
        ),
        transition(
            Image::Source,
            Layout::Undefined,
            Layout::TransferDst,
            0,
            ACCESS_TRANSFER_WRITE,
        ),
    ];
    if i.staged {
        first + seq![
            transition(
                Image::Staging,
                Layout::Undefined,
                Layout::TransferDst,
                0,
                ACCESS_TRANSFER_WRITE,
            ),
            Step::Copy { from: Image::Screen, to: Image::Staging, area: whole(i.extent) },
            Step::Barrier { done: STAGE_TRANSFER, waiting: STAGE_TRANSFER },
            transition(
                Image::Staging,
                Layout::TransferDst,
                Layout::TransferSrc,
                ACCESS_TRANSFER_WRITE,
                ACCESS_TRANSFER_READ,
            ),
        ]
    } else {
        first
    }
}

/// The copy for the control panel: the whole image as the application drew it,
/// before the preset touches it.
pub open spec fn capturing(i: FrameInput) -> Seq<Step> {
    match i.capture {
        Some(size) => seq![
            Step::Barrier { done: STAGE_TRANSFER, waiting: STAGE_TRANSFER },
            transition(
                Image::Capture,
                Layout::Undefined,
                Layout::TransferDst,
                0,
                ACCESS_TRANSFER_WRITE,
            ),
            Step::Blit {
                from: drawn_image(i),
                to: Image::Capture,
                area: whole(i.extent),
                size,
                filter: Filter::Linear,
            },
            Step::Barrier { done: STAGE_TRANSFER, waiting: STAGE_TRANSFER },
            transition(
                Image::Capture,
                Layout::TransferDst,
                Layout::TransferSrc,
                ACCESS_TRANSFER_WRITE,
                ACCESS_TRANSFER_READ,
            ),
            Step::Read { image: Image::Capture, size },
        ],
        None => seq![],
    }
}

/// The picture becomes the source image, at its size.
pub open spec fn sampling(i: FrameInput) -> Seq<Step> {
    seq![
        if i.picture.extent == i.input {
            Step::Copy { from: drawn_image(i), to: Image::Source, area: i.picture }
        } else {
            Step::Blit {
                from: drawn_image(i),
                to: Image::Source,
                area: i.picture,
                size: i.input,
                filter: i.filter,
            }
        },
        Step::Barrier { done: STAGE_TRANSFER, waiting: STAGE_PRESET },
        transition(
            Image::Source,
            Layout::TransferDst,
            Layout::ShaderReadOnly,
            ACCESS_TRANSFER_WRITE,
            ACCESS_READ,
        ),
        transition(
            Image::Screen,
            Layout::TransferSrc,
            Layout::ColorAttachment,
            0,
            ACCESS_COLOR_ATTACHMENT,
        ),
    ]
}

/// Before an extra presentation the source image still holds the picture, so
/// only the new image needs a layout; its previous contents are discarded.
pub open spec fn reopening() -> Seq<Step> {
    seq![
        Step::Barrier { done: STAGE_ALL_COMMANDS, waiting: STAGE_COLOR_ATTACHMENT_OUTPUT },
        transition(
            Image::Screen,
            Layout::Undefined,
            Layout::ColorAttachment,
            0,
            ACCESS_COLOR_ATTACHMENT,
        ),
    ]
}

/// Bars are repainted opaque black.
pub open spec fn repainted(i: FrameInput) -> bool {
    i.black && bars(i.display, i.extent).len() > 0
}

/// A step that fills each of the bars.
pub open spec fn fills(v: Seq<Rect>) -> Seq<Step> {
    Seq::new(v.len(), |k: int| Step::Fill { area: v[k] })
}

/// The preset clears what it does not draw into to transparent black, which a
/// compositor takes seriously, so the bars are repainted afterwards.
pub open spec fn repainting(i: FrameInput) -> Seq<Step> {
    if repainted(i) {
        seq![
            Step::Barrier { done: STAGE_COLOR_ATTACHMENT_OUTPUT, waiting: STAGE_TRANSFER },
            transition(
                Image::Screen,
                Layout::ColorAttachment,
                Layout::TransferDst,
                ACCESS_COLOR_ATTACHMENT_WRITE,
                ACCESS_TRANSFER_WRITE,
            ),
            transition(
                Image::Black,
                Layout::Undefined,
                Layout::TransferDst,
                0,
                ACCESS_TRANSFER_WRITE,
            ),
            Step::Clear { image: Image::Black },
            Step::Barrier { done: STAGE_TRANSFER, waiting: STAGE_TRANSFER },
            transition(
                Image::Black,
                Layout::TransferDst,
                Layout::TransferSrc,
                ACCESS_TRANSFER_WRITE,
                ACCESS_TRANSFER_READ,
            ),
        ] + fills(bars(i.display, i.extent))
    } else {
        seq![]
    }
}

/// Back to the presentation engine.
pub open spec fn closing(i: FrameInput) -> Seq<Step> {
    seq![
        Step::Barrier { done: STAGE_DRAWN, waiting: STAGE_BOTTOM_OF_PIPE },
        transition(
            Image::Screen,
            if repainted(i) {
                Layout::TransferDst
            } else {
                Layout::ColorAttachment
            },
            Layout::PresentSrc,
            ACCESS_DRAWN,
            0,
        ),
    ]
}

/// What happens before the preset runs.
pub open spec fn preparing(i: FrameInput) -> Seq<Step> {
    if i.subframe {
        reopening()
    } else {
        opening(i) + capturing(i) + sampling(i)
    }
}

/// All that is recorded for a frame.
pub open spec fn frame_steps(i: FrameInput) -> Seq<Step> {
    preparing(i) + seq![Step::Run] + repainting(i) + closing(i)
}

/// All that is recorded for a black frame.
pub open spec fn black_steps() -> Seq<Step> {
    seq![
        Step::Barrier { done: STAGE_ALL_COMMANDS, waiting: STAGE_TRANSFER },
        transition(
            Image::Screen,
            Layout::Undefined,
            Layout::TransferDst,
            0,
            ACCESS_TRANSFER_WRITE,
        ),
        Step::Clear { image: Image::Screen },
        Step::Barrier { done: STAGE_TRANSFER, waiting: STAGE_BOTTOM_OF_PIPE },
        transition(
            Image::Screen,
            Layout::TransferDst,
            Layout::PresentSrc,
            ACCESS_TRANSFER_WRITE,
            0,
        ),
    ]
}

// ------------------------------------------------------------------- recording

fn change(out: &mut Vec<Step>, image: Image, was: Layout, becomes: Layout, before: u32, after: u32)
    ensures
        final(out)@ == old(out)@.push(transition(image, was, becomes, before, after)),
{
    out.push(Step::Transition { image, was, becomes, before, after });
}

fn barrier(out: &mut Vec<Step>, done: u32, waiting: u32)
    ensures
        final(out)@ == old(out)@.push(Step::Barrier { done, waiting }),
{
    out.push(Step::Barrier { done, waiting });
}

fn whole_of(extent: Extent) -> (r: Rect)
    ensures
        r == whole(extent),
{
    Rect { offset: Offset { x: 0, y: 0 }, extent }
}

fn open(out: &mut Vec<Step>, i: FrameInput)
    ensures
        final(out)@ == old(out)@ + opening(i),
{
    let ghost start = out@;
    barrier(out, STAGE_ALL_COMMANDS, STAGE_TRANSFER);
    change(
        out,
        Image::Screen,
        Layout::PresentSrc,
        Layout::TransferSrc,
        ACCESS_MEMORY_WRITE,
        ACCESS_TRANSFER_READ,
    );
    change(
        out,
        Image::Source,
        Layout::Undefined,
        Layout::TransferDst,
        0,
        ACCESS_TRANSFER_WRITE,
    );
    if i.staged {
        change(
            out,
            Image::Staging,
            Layout::Undefined,
            Layout::TransferDst,
            0,
            ACCESS_TRANSFER_WRITE,
        );
        out.push(
            Step::Copy { from: Image::Screen, to: Image::Staging, area: whole_of(i.extent) },
        );
        barrier(out, STAGE_TRANSFER, STAGE_TRANSFER);
        change(
            out,
            Image::Staging,
            Layout::TransferDst,
            Layout::TransferSrc,
            ACCESS_TRANSFER_WRITE,
            ACCESS_TRANSFER_READ,
        );
    }
    assert(out@ =~= start + opening(i));
}

fn capture(out: &mut Vec<Step>, i: FrameInput)
    ensures
        final(out)@ == old(out)@ + capturing(i),
{
    let ghost start = out@;
    if let Some(size) = i.capture {
        let from: Image = if i.staged {
            Image::Staging
        } else {
            Image::Screen
        };
        barrier(out, STAGE_TRANSFER, STAGE_TRANSFER);
        change(
            out,
            Image::Capture,
            Layout::Undefined,
            Layout::TransferDst,
            0,
            ACCESS_TRANSFER_WRITE,
        );
        out.push(
            Step::Blit {
                from,
                to: Image::Capture,
                area: whole_of(i.extent),
                size,
                filter: Filter::Linear,
            },
        );
        barrier(out, STAGE_TRANSFER, STAGE_TRANSFER);
        change(
            out,
            Image::Capture,
            Layout::TransferDst,
            Layout::TransferSrc,
            ACCESS_TRANSFER_WRITE,
            ACCESS_TRANSFER_READ,
        );
        out.push(Step::Read { image: Image::Capture, size });
    }
    assert(out@ =~= start + capturing(i));
}

fn sample(out: &mut Vec<Step>, i: FrameInput)
    ensures
        final(out)@ == old(out)@ + sampling(i),
{
    let ghost start = out@;
    let from: Image = if i.staged {
        Image::Staging
    } else {
        Image::Screen
    };
    if i.picture.extent == i.input {
        out.push(Step::Copy { from, to: Image::Source, area: i.picture });
    } else {
        out.push(
            Step::Blit { from, to: Image::Source, area: i.picture, size: i.input, filter: i.filter },
        );
    }
    barrier(out, STAGE_TRANSFER, STAGE_PRESET);
    change(
        out,
        Image::Source,
        Layout::TransferDst,
        Layout::ShaderReadOnly,
        ACCESS_TRANSFER_WRITE,
        ACCESS_READ,
    );
    change(
        out,
        Image::Screen,
        Layout::TransferSrc,
        Layout::ColorAttachment,
        0,
        ACCESS_COLOR_ATTACHMENT,
    );
    assert(out@ =~= start + sampling(i));
}

fn repaint(out: &mut Vec<Step>, i: FrameInput) -> (r: bool)
    requires
        computable(i.extent),
    ensures
        r == repainted(i),
        final(out)@ == old(out)@ + repainting(i),
{
    let ghost start = out@;
    let rects: Vec<Rect> = bar_rects(i.display, i.extent);
    if !i.black || rects.len() == 0 {
        assert(out@ =~= start + repainting(i));
        return false;
    }
    barrier(out, STAGE_COLOR_ATTACHMENT_OUTPUT, STAGE_TRANSFER);
    change(
        out,
        Image::Screen,
        Layout::ColorAttachment,
        Layout::TransferDst,
        ACCESS_COLOR_ATTACHMENT_WRITE,
        ACCESS_TRANSFER_WRITE,
    );
    change(out, Image::Black, Layout::Undefined, Layout::TransferDst, 0, ACCESS_TRANSFER_WRITE);
    out.push(Step::Clear { image: Image::Black });
    barrier(out, STAGE_TRANSFER, STAGE_TRANSFER);
    change(
        out,
        Image::Black,
        Layout::TransferDst,
        Layout::TransferSrc,
        ACCESS_TRANSFER_WRITE,
        ACCESS_TRANSFER_READ,
    );
    let ghost before = out@;
    let mut k: usize = 0;
    assert(before + fills(rects@).take(0) =~= before);
    while k < rects.len()
        invariant
            k <= rects@.len(),
            out@ == before + fills(rects@).take(k as int),
        decreases rects@.len() - k,
    {
        out.push(Step::Fill { area: rects[k] });
        k = k + 1;
        assert(out@ =~= before + fills(rects@).take(k as int));
    }
    assert(fills(rects@).take(k as int) =~= fills(rects@));
    assert(out@ =~= start + repainting(i));
    true
}

/// All that is recorded for a frame.
pub fn plan_frame(i: FrameInput) -> (r: Vec<Step>)
    requires
        computable(i.extent),
    ensures
        r@ == frame_steps(i),
{
    let mut out: Vec<Step> = Vec::new();
    if i.subframe {
        barrier(&mut out, STAGE_ALL_COMMANDS, STAGE_COLOR_ATTACHMENT_OUTPUT);
        change(
            &mut out,
            Image::Screen,
            Layout::Undefined,
            Layout::ColorAttachment,
            0,
            ACCESS_COLOR_ATTACHMENT,
        );
        assert(out@ =~= preparing(i));
    } else {
        open(&mut out, i);
        capture(&mut out, i);
        sample(&mut out, i);
        assert(out@ =~= preparing(i));
    }
    out.push(Step::Run);
    let covered: bool = repaint(&mut out, i);
    barrier(&mut out, STAGE_DRAWN, STAGE_BOTTOM_OF_PIPE);
    change(
        &mut out,
        Image::Screen,
        if covered {
            Layout::TransferDst
        } else {
            Layout::ColorAttachment
        },
        Layout::PresentSrc,
        ACCESS_DRAWN,
        0,
    );
    assert(out@ =~= frame_steps(i));
    out
}

/// All that is recorded for a black frame: the image is cleared, no preset
/// runs.
pub fn plan_black() -> (r: Vec<Step>)
    ensures
        r@ == black_steps(),
{
    let mut out: Vec<Step> = Vec::new();
    barrier(&mut out, STAGE_ALL_COMMANDS, STAGE_TRANSFER);
    change(
        &mut out,
        Image::Screen,
        Layout::Undefined,
        Layout::TransferDst,
        0,
        ACCESS_TRANSFER_WRITE,
    );
    out.push(Step::Clear { image: Image::Screen });
    barrier(&mut out, STAGE_TRANSFER, STAGE_BOTTOM_OF_PIPE);
    change(
        &mut out,
        Image::Screen,
        Layout::TransferDst,
        Layout::PresentSrc,
        ACCESS_TRANSFER_WRITE,
        0,
    );
    assert(out@ =~= black_steps());
    out
}

// --------------------------------------------------------------------- capture

/// Size of the copy for the control panel: the screen, scaled down to
/// `max_width` if it is wider.
pub open spec fn capture_extent(max_width: u32, extent: Extent) -> Extent {
    let w = single::of_integer(extent.width as nat);
    let h = single::of_integer(extent.height as nat);
    let scale = single::smaller(
        single::quotient(single::of_integer(max_width as nat), w),
        single::of_integer(1),
    );
    Extent {
        width: screen::pixels(single::product(w, scale)),
        height: screen::pixels(single::product(h, scale)),
    }
}

/// Size of the copy for the control panel.
pub fn capture_size(max_width: u32, extent: Extent) -> (r: Extent)
    ensures
        r == capture_extent(max_width, extent),
{
    let w: Single = Single::of_u32(extent.width);
    let h: Single = Single::of_u32(extent.height);
    let scale: Single = Single::of_u32(max_width).over(w).min(Single::of_u32(1));
    Extent { width: screen::to_pixels(w.times(scale)), height: screen::to_pixels(h.times(scale)) }
}

/// A copy is as wide as asked for, or as the screen if that is no wider, and has
/// the shape of the screen, to a pixel or so.
#[verifier::spinoff_prover]
pub proof fn lemma_capture_size(max_width: u32, extent: Extent)
    requires
        1 <= max_width <= 0x40_0000,
        1 <= extent.width <= 0x40_0000,
        1 <= extent.height <= 0x40_0000,
    ensures
        ({
            let r = capture_extent(max_width, extent);
            &&& extent.width <= max_width ==> r == extent
            &&& extent.width > max_width ==> r.width == max_width
            &&& extent.width > max_width ==> 4 * accuracy::distance(
                r.height * extent.width,
                extent.height * max_width,
            ) <= 5 * extent.width
        }),
{
    let u = pow2(149) as int;
    let one = single::of_integer(1);
    let (m, w, h) = (max_width as int, extent.width as int, extent.height as int);
    screen::lemma_small_integer(1);
    accuracy::lemma_units();
    accuracy::lemma_integers_divided(max_width, extent.width);
    let q = single::quotient(
        single::of_integer(max_width as nat),
        single::of_integer(extent.width as nat),
    );
    let k = q.size() as int;
    let scale = single::smaller(q, one);
    if extent.width <= max_width {
        lemma_ratio_up(max_width, extent.width);
        assert(scale.size() == u && scale.finite() && !scale.negative());
        lemma_times_one(extent.width, scale);
        lemma_times_one(extent.height, scale);
    } else {
        assert(k < u) by (nonlinear_arith)
            requires
                0xff_ffff * (k * w) <= 0x100_0000 * (m * u),
                m + 1 <= w <= 0x40_0000,
                u > 0,
                k >= 0,
                m >= 0,
        {
            if k >= u {
                assert(k * w >= u * w);
                assert(m * u <= (w - 1) * u);
                assert((w - 1) * u == w * u - u);
                assert(0x100_0000 * u > 0x40_0000 * u);
                assert(w * u <= 0x40_0000 * u);
            }
        }
        assert(scale == q);
        assert(w * k <= 0x100_0000 * u && h * k <= 0x100_0000 * u) by (nonlinear_arith)
            requires
                0 <= k < u,
                0 <= w <= 0x40_0000,
                0 <= h <= 0x40_0000,
                u > 0,
        {
            assert(w * k <= 0x40_0000 * k);
            assert(h * k <= 0x40_0000 * k);
        }
        lemma_width_kept(max_width, extent.width, q);
        accuracy::lemma_pixels_of_product(extent.height, q);
        let r = capture_extent(max_width, extent).height as int;
        // r u is about h k, and k w about m u, so r w is about h m.
        lemma_height_kept(r, w, h, m, k, u);
    }
}

/// A quotient of at least 1.
proof fn lemma_ratio_up(a: u32, b: u32)
    requires
        1 <= b <= a <= 0x100_0000,
    ensures
        single::quotient(single::of_integer(a as nat), single::of_integer(b as nat)).size()
            >= pow2(149),
{
    let u = pow2(149) as int;
    let num = (a * u) * u;
    let den = b * u;
    let one = single::of_integer(1);
    screen::lemma_small_integer(a);
    screen::lemma_small_integer(b);
    screen::lemma_small_integer(1);
    accuracy::lemma_units();
    assert(num > 0 && den > 0 && u * den <= num * 1) by (nonlinear_arith)
        requires
            num == (a * u) * u,
            den == b * u,
            1 <= b <= a,
            u > 0,
    {
        assert(b * u <= a * u);
        assert(u * (b * u) <= u * (a * u));
        assert(u * (a * u) == (a * u) * u);
    }
    single::lemma_nearest_exists(num as nat, den as nat);
    single::lemma_nearest_exists(pow2(149), 1);
    let b0 = single::nearest(num as nat, den as nat);
    single::lemma_rounding_monotone(pow2(149), 1, one.pattern(), num as nat, den as nat, b0);
    single::lemma_magnitude_increases(one.pattern(), b0);
    assert(single::of_integer(a as nat).size() * u == num);
}

/// A length times 1 is itself.
proof fn lemma_times_one(n: u32, one: Single)
    requires
        1 <= n <= 0x40_0000,
        one.finite(),
        !one.negative(),
        one.size() == pow2(149),
    ensures
        screen::pixels(single::product(single::of_integer(n as nat), one)) == n,
{
    let x = single::of_integer(n as nat);
    screen::lemma_small_integer(n);
    accuracy::lemma_units();
    single::lemma_nearest_exact(pow2(149), x.pattern());
    assert(single::product(x, one) == x);
}

/// A width that is scaled to `m` pixels is `m` pixels wide.
#[verifier::spinoff_prover]
proof fn lemma_width_kept(m: u32, w: u32, q: Single)
    requires
        1 <= m < 0x40_0000,
        1 <= w <= 0x40_0000,
        q.finite(),
        !q.negative(),
        accuracy::within_part((q.size() * w) as int, (m * pow2(149)) as int),
        w * q.size() <= 0x100_0000 * pow2(149),
    ensures
        screen::pixels(single::product(single::of_integer(w as nat), q)) == m,
{
    let u = pow2(149) as int;
    let v = pow2(125) as int;
    let k = q.size() as int;
    let x = single::of_integer(w as nat);
    screen::lemma_small_integer(w);
    accuracy::lemma_units();
    let t = w * k;
    assert(t == k * w) by (nonlinear_arith)
        requires
            t == w * k,
    ;
    let num = (w * u) * k;
    let z = m * u;
    assert(u <= z <= 0x40_0000 * u) by (nonlinear_arith)
        requires
            z == m * u,
            1 <= m <= 0x40_0000,
            u > 0,
    ;
    assert(z <= 0x40_0000 * u - u) by (nonlinear_arith)
        requires
            z == m * u,
            m + 1 <= 0x40_0000,
            u > 0,
    ;
    // t is within two parts in 2^24 of m u.
    assert(t <= z + 0x40_0001 * v && t >= z - 0x40_0001 * v);
    assert(num <= (0x100_0000 * pow2(147)) * u && num == t * u && num >= 0) by (nonlinear_arith)
        requires
            num == (w * u) * k,
            t == w * k,
            0 <= t <= 0x40_0000 * u,
            u == 4 * pow2(147),
    {
        assert((w * u) * k == (w * k) * u);
        assert(t * u <= (0x40_0000 * u) * u);
        assert((0x100_0000 * pow2(147)) * u == (0x40_0000 * u) * u);
    }
    accuracy::lemma_near(num as nat, pow2(149), 147);
    let p = single::product(x, q);
    let n = p.size() as int;
    assert(p == single::signed(false, single::nearest(num as nat, pow2(149))));
    let g = pow2(147) as int;
    assert(2 * accuracy::distance(n, t) <= g) by (nonlinear_arith)
        requires
            2 * accuracy::distance(n * u, t * u) <= g * u,
            u > 0,
    {
        if n < t {
            assert(t * u - n * u == (t - n) * u);
            assert((2 * (t - n)) * u <= g * u);
        } else {
            assert(n * u - t * u == (n - t) * u);
            assert((2 * (n - t)) * u <= g * u);
        }
    }
    assert(2 * accuracy::distance(z, n) < u);
    accuracy::lemma_rounds_back(p.size(), m as nat);
}

/// A height that is scaled as the width keeps the shape.
#[verifier::spinoff_prover]
proof fn lemma_height_kept(r: int, w: int, h: int, m: int, k: int, u: int)
    requires
        1 <= w <= 0x40_0000,
        1 <= h <= 0x40_0000,
        1 <= m < w,
        u > 0,
        k >= 0,
        accuracy::within_part(k * w, m * u),
        accuracy::distance(r * u, h * k) <= u || (r == 1 && h * k <= u),
    ensures
        4 * accuracy::distance(r * w, h * m) <= 5 * w,
{
    let d = r * u - h * k;
    assert(-u <= d <= u) by (nonlinear_arith)
        requires
            d == r * u - h * k,
            accuracy::distance(r * u, h * k) <= u || (r == 1 && h * k <= u),
            h >= 1,
            k >= 0,
            u > 0,
    {
        assert(h * k >= 0);
    }
    // k w is off by a quarter of w u / h at most.
    let e = k * w - m * u;
    assert(-(w * u) <= 4 * (h * e) <= w * u) by (nonlinear_arith)
        requires
            e == k * w - m * u,
            0xff_ffff * (k * w) <= 0x100_0000 * (m * u) <= 0x100_0001 * (k * w),
            1 <= h <= 0x40_0000,
            1 <= m <= w - 1,
            w <= 0x40_0000,
            u > 0,
    {
        // 2^24 - 1 times e is at most m u, and at least - m u.
        assert(0xff_ffff * e <= m * u);
        assert(0x100_0001 * e >= -(m * u));
        assert(m * u <= (w - 1) * u);
        assert((w - 1) * u == w * u - u);
        assert(h * (0xff_ffff * e) <= h * (m * u));
        assert(h * (0x100_0001 * e) >= h * (-(m * u)));
        assert(h * (m * u) <= 0x40_0000 * (m * u));
        assert(w * u <= 0x40_0000 * u);
    }
    let x = r * w - h * m;
    assert(x * u == d * w + h * e) by (nonlinear_arith)
        requires
            x == r * w - h * m,
            d == r * u - h * k,
            e == k * w - m * u,
    ;
    assert(-5 * w <= 4 * x <= 5 * w) by (nonlinear_arith)
        requires
            x * u == d * w + h * e,
            -u <= d <= u,
            -(w * u) <= 4 * (h * e) <= w * u,
            w >= 1,
            u > 0,
    {
        assert(d * w <= u * w);
        assert(d * w >= (-u) * w);
        assert((4 * x) * u <= (5 * w) * u);
        assert((4 * x) * u >= (-5 * w) * u);
    }
}

// ------------------------------------------------------------------------ laws

/// The layouts of all images at one moment.
pub struct Layouts {
    pub screen: Layout,
    pub source: Layout,
    pub staging: Layout,
    pub capture: Layout,
    pub black: Layout,
}

impl Layouts {
    pub open spec fn of(self, image: Image) -> Layout {
        match image {
            Image::Screen => self.screen,
            Image::Source => self.source,
            Image::Staging => self.staging,
            Image::Capture => self.capture,
            Image::Black => self.black,
        }
    }

    pub open spec fn with(self, image: Image, layout: Layout) -> Layouts {
        match image {
            Image::Screen => Layouts { screen: layout, ..self },
            Image::Source => Layouts { source: layout, ..self },
            Image::Staging => Layouts { staging: layout, ..self },
            Image::Capture => Layouts { capture: layout, ..self },
            Image::Black => Layouts { black: layout, ..self },
        }
    }
}

/// The layouts after a step, if every image that it works on is laid out as
/// the step needs it.
pub open spec fn after_step(l: Layouts, step: Step) -> Option<Layouts> {
    match step {
        Step::Barrier { done, waiting } => Some(l),
        Step::Transition { image, was, becomes, before, after } => if was == Layout::Undefined
            || l.of(image) == was {
            Some(l.with(image, becomes))
        } else {
            None
        },
        Step::Copy { from, to, area } => if l.of(from) == Layout::TransferSrc && l.of(to)
            == Layout::TransferDst {
            Some(l)
        } else {
            None
        },
        Step::Blit { from, to, area, size, filter } => if l.of(from) == Layout::TransferSrc
            && l.of(to) == Layout::TransferDst {
            Some(l)
        } else {
            None
        },
        Step::Read { image, size } => if l.of(image) == Layout::TransferSrc {
            Some(l)
        } else {
            None
        },
        Step::Clear { image } => if l.of(image) == Layout::TransferDst {
            Some(l)
        } else {
            None
        },
        Step::Run => if l.source == Layout::ShaderReadOnly && l.screen == Layout::ColorAttachment {
            Some(l)
        } else {
            None
        },
        Step::Fill { area } => if l.black == Layout::TransferSrc && l.screen
            == Layout::TransferDst {
            Some(l)
        } else {
            None
        },
    }
}

/// The layouts after all steps, if each found what it needed.
pub open spec fn after_steps(l: Layouts, steps: Seq<Step>) -> Option<Layouts>
    decreases steps.len(),
{
    if steps.len() == 0 {
        Some(l)
    } else {
        match after_steps(l, steps.drop_last()) {
            Some(m) => after_step(m, steps.last()),
            None => None,
        }
    }
}

proof fn lemma_after_both(l: Layouts, a: Seq<Step>, b: Seq<Step>)
    ensures
        after_steps(l, a + b) == match after_steps(l, a) {
            Some(m) => after_steps(m, b),
            None => None,
        },
    decreases b.len(),
{
    if b.len() == 0 {
        assert(a + b =~= a);
    } else {
        lemma_after_both(l, a, b.drop_last());
        assert((a + b).drop_last() =~= a + b.drop_last());
        assert((a + b).last() == b.last());
    }
}

proof fn lemma_after_fills(l: Layouts, v: Seq<Rect>)
    requires
        l.black == Layout::TransferSrc,
        l.screen == Layout::TransferDst,
    ensures
        after_steps(l, fills(v)) == Some(l),
    decreases v.len(),
{
    if v.len() > 0 {
        lemma_after_fills(l, v.drop_last());
        assert(fills(v).drop_last() =~= fills(v.drop_last()));
    }
}

proof fn lemma_two(l: Layouts, a: Step, b: Step)
    ensures
        after_steps(l, seq![a, b]) == match after_step(l, a) {
            Some(m) => after_step(m, b),
            None => None,
        },
{
    reveal_with_fuel(after_steps, 3);
    assert(seq![a, b].drop_last() =~= seq![a]);
    assert(seq![a].drop_last() =~= Seq::<Step>::empty());
}

/// After the preparations the preset finds its source readable and the screen
/// as its target.
proof fn lemma_prepared(l: Layouts, i: FrameInput)
    requires
        i.subframe ==> l.source == Layout::ShaderReadOnly,
        !i.subframe ==> l.screen == Layout::PresentSrc,
    ensures
        after_steps(l, preparing(i)) is Some,
        after_steps(l, preparing(i))->0.screen == Layout::ColorAttachment,
        after_steps(l, preparing(i))->0.source == Layout::ShaderReadOnly,
{
    if i.subframe {
        lemma_two(l, reopening()[0], reopening()[1]);
        assert(reopening() =~= seq![reopening()[0], reopening()[1]]);
    } else {
        lemma_opened(l, i);
        let m = after_steps(l, opening(i))->0;
        lemma_captured(m, i);
        let n = after_steps(m, capturing(i))->0;
        lemma_sampled(n, i);
        lemma_after_both(l, opening(i), capturing(i));
        lemma_after_both(l, opening(i) + capturing(i), sampling(i));
    }
}

proof fn lemma_opened(l: Layouts, i: FrameInput)
    requires
        l.screen == Layout::PresentSrc,
    ensures
        after_steps(l, opening(i)) is Some,
        after_steps(l, opening(i))->0.screen == Layout::TransferSrc,
        after_steps(l, opening(i))->0.source == Layout::TransferDst,
        after_steps(l, opening(i))->0.of(drawn_image(i)) == Layout::TransferSrc,
{
    let s = opening(i);
    reveal_with_fuel(after_steps, 8);
    let s1 = s.drop_last();
    let s2 = s1.drop_last();
    let s3 = s2.drop_last();
    if i.staged {
        let s4 = s3.drop_last();
        let s5 = s4.drop_last();
        let s6 = s5.drop_last();
        assert(s6.drop_last() =~= Seq::<Step>::empty());
    } else {
        assert(s3 =~= Seq::<Step>::empty());
    }
}

proof fn lemma_captured(l: Layouts, i: FrameInput)
    requires
        l.screen == Layout::TransferSrc,
        l.source == Layout::TransferDst,
        l.of(drawn_image(i)) == Layout::TransferSrc,
    ensures
        after_steps(l, capturing(i)) is Some,
        after_steps(l, capturing(i))->0.screen == Layout::TransferSrc,
        after_steps(l, capturing(i))->0.source == Layout::TransferDst,
        after_steps(l, capturing(i))->0.of(drawn_image(i)) == Layout::TransferSrc,
{
    let s = capturing(i);
    reveal_with_fuel(after_steps, 7);
    if i.capture is Some {
        let s1 = s.drop_last();
        let s2 = s1.drop_last();
        let s3 = s2.drop_last();
        let s4 = s3.drop_last();
        let s5 = s4.drop_last();
        assert(s5.drop_last() =~= Seq::<Step>::empty());
    }
}

proof fn lemma_sampled(l: Layouts, i: FrameInput)
    requires
        l.screen == Layout::TransferSrc,
        l.source == Layout::TransferDst,
        l.of(drawn_image(i)) == Layout::TransferSrc,
    ensures
        after_steps(l, sampling(i)) is Some,
        after_steps(l, sampling(i))->0.screen == Layout::ColorAttachment,
        after_steps(l, sampling(i))->0.source == Layout::ShaderReadOnly,
{
    let s = sampling(i);
    reveal_with_fuel(after_steps, 5);
    let s1 = s.drop_last();
    let s2 = s1.drop_last();
    let s3 = s2.drop_last();
    assert(s3.drop_last() =~= Seq::<Step>::empty());
}

proof fn lemma_repainted(l: Layouts, i: FrameInput)
    requires
        l.screen == Layout::ColorAttachment,
    ensures
        after_steps(l, repainting(i)) is Some,
        after_steps(l, repainting(i))->0.source == l.source,
        after_steps(l, repainting(i))->0.screen == if repainted(i) {
            Layout::TransferDst
        } else {
            Layout::ColorAttachment
        },
{
    if repainted(i) {
        let f = fills(bars(i.display, i.extent));
        let s = repainting(i).take(6);
        assert(repainting(i) =~= s + f);
        reveal_with_fuel(after_steps, 7);
        let s1 = s.drop_last();
        let s2 = s1.drop_last();
        let s3 = s2.drop_last();
        let s4 = s3.drop_last();
        let s5 = s4.drop_last();
        assert(s5.drop_last() =~= Seq::<Step>::empty());
        let m = after_steps(l, s)->0;
        assert(after_steps(l, s) is Some);
        lemma_after_fills(m, bars(i.display, i.extent));
        lemma_after_both(l, s, f);
    }
}

/// Every step of a frame finds the images laid out as it needs them, the image
/// is handed back ready to be presented, and the source image is ready for the
/// next presentation of the same frame.
pub proof fn lemma_frame_layouts(l: Layouts, i: FrameInput)
    requires
        i.subframe ==> l.source == Layout::ShaderReadOnly,
        !i.subframe ==> l.screen == Layout::PresentSrc,
    ensures
        after_steps(l, frame_steps(i)) is Some,
        after_steps(l, frame_steps(i))->0.screen == Layout::PresentSrc,
        after_steps(l, frame_steps(i))->0.source == Layout::ShaderReadOnly,
{
    let a = preparing(i);
    let run = seq![Step::Run];
    lemma_prepared(l, i);
    let m = after_steps(l, a)->0;
    reveal_with_fuel(after_steps, 2);
    assert(run.drop_last() =~= Seq::<Step>::empty());
    assert(after_steps(m, run) == Some(m));
    lemma_after_both(l, a, run);
    lemma_repainted(m, i);
    lemma_after_both(l, a + run, repainting(i));
    let n = after_steps(m, repainting(i))->0;
    lemma_two(n, closing(i)[0], closing(i)[1]);
    assert(closing(i) =~= seq![closing(i)[0], closing(i)[1]]);
    lemma_after_both(l, a + run + repainting(i), closing(i));
}

/// So does every step of a black frame, and it leaves the source image alone.
pub proof fn lemma_black_layouts(l: Layouts)
    ensures
        after_steps(l, black_steps()) is Some,
        after_steps(l, black_steps())->0.screen == Layout::PresentSrc,
        after_steps(l, black_steps())->0.source == l.source,
{
    let s = black_steps();
    reveal_with_fuel(after_steps, 6);
    let s1 = s.drop_last();
    let s2 = s1.drop_last();
    let s3 = s2.drop_last();
    let s4 = s3.drop_last();
    assert(s4.drop_last() =~= Seq::<Step>::empty());
}

/// The area that a step reads or writes lies in the image it belongs to.
pub open spec fn step_inside(i: FrameInput, step: Step) -> bool {
    match step {
        Step::Copy { from, to, area } => screen::inside(area, i.extent) && if to == Image::Source {
            area.extent == i.input
        } else {
            area.extent == i.extent
        },
        Step::Blit { from, to, area, size, filter } => screen::inside(area, i.extent) && if to
            == Image::Source {
            size == i.input
        } else {
            i.capture == Some(size)
        },
        Step::Read { image, size } => i.capture == Some(size),
        Step::Fill { area } => screen::inside(area, i.extent) && screen::holds_pixels(area),
        _ => true,
    }
}

/// No step of a frame reaches outside an image.
pub proof fn lemma_frame_inside(i: FrameInput, k: int)
    requires
        screen::inside(i.picture, i.extent),
        computable(i.extent),
        0 <= k < frame_steps(i).len(),
    ensures
        step_inside(i, frame_steps(i)[k]),
{
    let a = preparing(i);
    let b = a + seq![Step::Run];
    let c = b + repainting(i);
    let s = frame_steps(i);
    if k < a.len() {
        assert(s[k] == a[k]);
        if !i.subframe {
            let o = opening(i);
            let p = o + capturing(i);
            if k < o.len() {
                assert(a[k] == o[k]);
            } else if k < p.len() {
                assert(a[k] == capturing(i)[k - o.len()]);
            } else {
                assert(a[k] == sampling(i)[k - p.len()]);
            }
        }
    } else if k < b.len() {
        assert(s[k] == Step::Run);
    } else if k < c.len() {
        let r = repainting(i);
        assert(s[k] == r[k - b.len()]);
        if k - b.len() >= 6 {
            let j = k - b.len() - 6;
            assert(r[k - b.len()] == fills(bars(i.display, i.extent))[j]);
            lemma_bars_inside(i.display, i.extent, j);
        }
    } else {
        assert(s[k] == closing(i)[k - c.len()]);
    }
}

/// Where the preset runs in a frame.
pub open spec fn run_at(i: FrameInput) -> int {
    preparing(i).len() as int
}

/// The preset runs exactly once in a frame. What is grabbed for the control
/// panel is the whole image, and it is grabbed before the preset runs, from
/// pixels that only the application wrote.
pub proof fn lemma_captured_before_run(i: FrameInput, k: int)
    requires
        0 <= k < frame_steps(i).len(),
    ensures
        frame_steps(i)[k] == Step::Run <==> k == run_at(i),
        match frame_steps(i)[k] {
            Step::Blit { from, to, area, size, filter } => to == Image::Capture ==> {
                &&& k < run_at(i)
                &&& !i.subframe
                &&& i.capture == Some(size)
                &&& area == whole(i.extent)
                &&& from == drawn_image(i)
            },
            _ => true,
        },
{
    let a = preparing(i);
    let b = a + seq![Step::Run];
    let c = b + repainting(i);
    let s = frame_steps(i);
    if k < a.len() {
        assert(s[k] == a[k]);
        if !i.subframe {
            let o = opening(i);
            let p = o + capturing(i);
            if k < o.len() {
                assert(a[k] == o[k]);
            } else if k < p.len() {
                assert(a[k] == capturing(i)[k - o.len()]);
            } else {
                assert(a[k] == sampling(i)[k - p.len()]);
            }
        }
    } else if k < b.len() {
        assert(s[k] == Step::Run);
    } else if k < c.len() {
        let r = repainting(i);
        assert(s[k] == r[k - b.len()]);
        if k - b.len() >= 6 {
            assert(r[k - b.len()] == fills(bars(i.display, i.extent))[k - b.len() - 6]);
        }
    } else {
        assert(s[k] == closing(i)[k - c.len()]);
    }
}

/// The step changes pixels of the image.
pub open spec fn writes(step: Step, image: Image) -> bool {
    match step {
        Step::Copy { from, to, area } => to == image,
        Step::Blit { from, to, area, size, filter } => to == image,
        Step::Clear { image: cleared } => cleared == image,
        Step::Run => image == Image::Screen,
        Step::Fill { area } => image == Image::Screen,
        _ => false,
    }
}

/// The step at `k` is the only one of its kind.
pub open spec fn only_at(steps: Seq<Step>, k: int, kind: spec_fn(Step) -> bool) -> bool {
    &&& 0 <= k < steps.len()
    &&& kind(steps[k])
    &&& forall|j: int| 0 <= j < steps.len() && kind(#[trigger] steps[j]) ==> j == k
}

/// No step is of that kind.
pub open spec fn nowhere(steps: Seq<Step>, kind: spec_fn(Step) -> bool) -> bool {
    forall|j: int| 0 <= j < steps.len() ==> !kind(#[trigger] steps[j])
}

/// The step brings the picture into the source image: from where the
/// application's pixels are, the region that holds the picture, at the size
/// and with the filter asked for.
pub open spec fn samples_picture(i: FrameInput, step: Step) -> bool {
    let pixels = if i.staged {
        Image::Staging
    } else {
        Image::Screen
    };
    match step {
        Step::Copy { from, to, area } => from == pixels && to == Image::Source && area == i.picture
            && i.picture.extent == i.input,
        Step::Blit { from, to, area, size, filter } => from == pixels && to == Image::Source && area
            == i.picture && size == i.input && filter == i.filter,
        _ => false,
    }
}

/// Every step of a frame that touches pixels, by its place.
proof fn lemma_step_at(i: FrameInput, k: int)
    requires
        0 <= k < frame_steps(i).len(),
    ensures
        ({
            let o = opening(i).len() as int;
            let c = capturing(i).len() as int;
            let s = frame_steps(i)[k];
            let run = run_at(i);
            &&& s == Step::Run <==> k == run
            &&& writes(s, Image::Source) <==> !i.subframe && k == o + c
            &&& writes(s, Image::Staging) <==> !i.subframe && i.staged && k == 4
            &&& writes(s, Image::Capture) <==> !i.subframe && i.capture is Some && k == o + 2
            &&& s is Read <==> !i.subframe && i.capture is Some && k == o + 5
            &&& writes(s, Image::Screen) ==> k >= run
            &&& writes(s, Image::Black) <==> repainted(i) && k == run + 4
            &&& s is Fill <==> repainted(i) && run + 7 <= k < run + 7 + bars(
                i.display,
                i.extent,
            ).len()
            &&& s is Fill ==> s == Step::Fill { area: bars(i.display, i.extent)[k - run - 7] }
            &&& s is Clear ==> s == Step::Clear { image: Image::Black }
        }),
{
    let a = preparing(i);
    let b = a + seq![Step::Run];
    let c = b + repainting(i);
    let s = frame_steps(i);
    if k < a.len() {
        assert(s[k] == a[k]);
        if !i.subframe {
            let o = opening(i);
            let p = o + capturing(i);
            if k < o.len() {
                assert(a[k] == o[k]);
            } else if k < p.len() {
                assert(a[k] == capturing(i)[k - o.len()]);
            } else {
                assert(a[k] == sampling(i)[k - p.len()]);
            }
        }
    } else if k < b.len() {
        assert(s[k] == Step::Run);
    } else if k < c.len() {
        let r = repainting(i);
        assert(s[k] == r[k - b.len()]);
        if k - b.len() >= 6 {
            assert(r[k - b.len()] == fills(bars(i.display, i.extent))[k - b.len() - 6]);
        }
    } else {
        assert(s[k] == closing(i)[k - c.len()]);
    }
}

/// In a frame that is not an extra presentation, the source image is written
/// once, before the preset runs, and what is written is the picture of the
/// input, read from the application's pixels, at the size and with the filter
/// of the input. An extra presentation leaves the source image alone. The
/// preset runs once in either.
pub proof fn lemma_picture_sampled_once(i: FrameInput)
    ensures
        ({
            let steps = frame_steps(i);
            let into_source = |s: Step| writes(s, Image::Source);
            let runs = |s: Step| s == Step::Run;
            &&& i.subframe ==> nowhere(steps, into_source) && exists|r: int| only_at(steps, r, runs)
            &&& !i.subframe ==> exists|k: int, r: int|
                k < r && only_at(steps, k, into_source) && only_at(steps, r, runs)
                    && samples_picture(i, steps[k])
        }),
{
    let steps = frame_steps(i);
    let into_source = |s: Step| writes(s, Image::Source);
    let runs = |s: Step| s == Step::Run;
    let r = run_at(i);
    let o = opening(i);
    let k = (o.len() + capturing(i).len()) as int;
    assert forall|j: int| 0 <= j < steps.len() implies (runs(#[trigger] steps[j]) <==> j == r) && (
    into_source(steps[j]) <==> !i.subframe && j == k) by {
        lemma_step_at(i, j);
    }
    assert(only_at(steps, r, runs));
    if !i.subframe {
        assert(steps[k] == sampling(i)[0]);
        assert(only_at(steps, k, into_source));
    }
}

/// On a promoted swapchain the application's pixels are copied once, all of
/// them, before the picture is read from the copy; otherwise there is no copy.
pub proof fn lemma_staged_first(i: FrameInput)
    ensures
        ({
            let steps = frame_steps(i);
            let into_staging = |s: Step| writes(s, Image::Staging);
            let into_source = |s: Step| writes(s, Image::Source);
            &&& i.staged && !i.subframe ==> exists|j: int, k: int|
                j < k && only_at(steps, j, into_staging) && only_at(steps, k, into_source)
                    && steps[j] == (Step::Copy {
                    from: Image::Screen,
                    to: Image::Staging,
                    area: rect_at(0, 0, i.extent.width, i.extent.height),
                })
            &&& !i.staged || i.subframe ==> nowhere(steps, into_staging)
        }),
{
    let steps = frame_steps(i);
    let into_staging = |s: Step| writes(s, Image::Staging);
    let into_source = |s: Step| writes(s, Image::Source);
    let o = opening(i);
    let k = (o.len() + capturing(i).len()) as int;
    assert forall|j: int| 0 <= j < steps.len() implies (into_staging(#[trigger] steps[j])
        <==> !i.subframe && i.staged && j == 4) && (into_source(steps[j]) <==> !i.subframe && j
        == k) by {
        lemma_step_at(i, j);
    }
    if i.staged && !i.subframe {
        assert(steps[4] == o[4]);
        assert(only_at(steps, 4, into_staging));
        assert(steps[k] == sampling(i)[0]);
        assert(only_at(steps, k, into_source));
    }
}

/// A copy for the control panel is made once, before the preset runs, if one is
/// due: all of the application's pixels, smoothly scaled to the size of the
/// copy, which is then read. Otherwise none is.
pub proof fn lemma_capture_made(i: FrameInput)
    ensures
        ({
            let steps = frame_steps(i);
            let into_capture = |s: Step| writes(s, Image::Capture);
            let reads = |s: Step| s is Read;
            let runs = |s: Step| s == Step::Run;
            let due = i.capture is Some && !i.subframe;
            &&& due ==> exists|j: int, k: int, r: int|
                j < k < r && only_at(steps, j, into_capture) && only_at(steps, k, reads) && only_at(
                    steps,
                    r,
                    runs,
                ) && steps[j] == (Step::Blit {
                    from: if i.staged {
                        Image::Staging
                    } else {
                        Image::Screen
                    },
                    to: Image::Capture,
                    area: rect_at(0, 0, i.extent.width, i.extent.height),
                    size: i.capture->0,
                    filter: Filter::Linear,
                }) && steps[k] == (Step::Read { image: Image::Capture, size: i.capture->0 })
            &&& !due ==> nowhere(steps, into_capture) && nowhere(steps, reads)
        }),
{
    let steps = frame_steps(i);
    let into_capture = |s: Step| writes(s, Image::Capture);
    let reads = |s: Step| s is Read;
    let runs = |s: Step| s == Step::Run;
    let due = i.capture is Some && !i.subframe;
    let o = opening(i).len() as int;
    let r = run_at(i);
    assert forall|j: int| 0 <= j < steps.len() implies (into_capture(#[trigger] steps[j]) <==> due
        && j == o + 2) && (reads(steps[j]) <==> due && j == o + 5) && (runs(steps[j]) <==> j
        == r) by {
        lemma_step_at(i, j);
    }
    if due {
        assert(steps[o + 2] == capturing(i)[2]);
        assert(steps[o + 5] == capturing(i)[5]);
        assert(only_at(steps, o + 2, into_capture));
        assert(only_at(steps, o + 5, reads));
        assert(steps[r] == Step::Run);
        assert(only_at(steps, r, runs));
    }
}

/// The step paints the pixel at `x`, `y` black.
pub open spec fn paints(step: Step, x: int, y: int) -> bool {
    match step {
        Step::Fill { area } => covers(area, x, y),
        _ => false,
    }
}

/// Around the region that the preset draws into, every pixel of the screen is
/// painted black after the preset ran, if there is a black pixel to paint with,
/// and none inside of it. The black pixel is made black before.
pub proof fn lemma_bars_repainted(i: FrameInput, x: int, y: int)
    requires
        computable(i.extent),
        0 <= x < i.extent.width,
        0 <= y < i.extent.height,
    ensures
        ({
            let steps = frame_steps(i);
            &&& (exists|k: int| 0 <= k < steps.len() && paints(#[trigger] steps[k], x, y))
                <==> i.black && !covers(i.display, x, y)
            &&& forall|k: int|
                0 <= k < steps.len() && #[trigger] steps[k] is Fill ==> exists|r: int, c: int|
                    0 <= r < c < k && #[trigger] steps[r] == Step::Run && #[trigger] steps[c] == (
                    Step::Clear { image: Image::Black })
        }),
{
    let steps = frame_steps(i);
    let v = bars(i.display, i.extent);
    let run = run_at(i);
    lemma_bars_cover_the_rest(i.display, i.extent, x, y);
    if exists|k: int| 0 <= k < steps.len() && paints(#[trigger] steps[k], x, y) {
        let k = choose|k: int| 0 <= k < steps.len() && paints(#[trigger] steps[k], x, y);
        lemma_step_at(i, k);
        assert(covers(v[k - run - 7], x, y));
    }
    if i.black && !covers(i.display, x, y) {
        let j = choose|j: int| 0 <= j < v.len() && covers(#[trigger] v[j], x, y);
        assert(repainted(i));
        assert(repainting(i)[j + 6] == fills(v)[j]);
        assert(steps[run + 7 + j] == repainting(i)[j + 6]);
        assert(paints(steps[run + 7 + j], x, y));
    }
    assert forall|k: int| 0 <= k < steps.len() && #[trigger] steps[k] is Fill implies exists|
        r: int,
        c: int,
    |
        0 <= r < c < k && #[trigger] steps[r] == Step::Run && #[trigger] steps[c] == (Step::Clear {
            image: Image::Black,
        }) by {
        lemma_step_at(i, k);
        assert(steps[run] == Step::Run);
        assert(steps[run + 4] == repainting(i)[3]);
    }
}

/// A black frame clears the screen, and changes no other pixel.
pub proof fn lemma_black_is_black()
    ensures
        ({
            let clears = |s: Step| s == Step::Clear { image: Image::Screen };
            exists|k: int| only_at(black_steps(), k, clears)
        }),
        forall|k: int, image: Image|
            0 <= k < black_steps().len() && #[trigger] writes(black_steps()[k], image)
                ==> black_steps()[k] == (Step::Clear { image: Image::Screen }),
{
    let s = black_steps();
    let clears = |s: Step| s == Step::Clear { image: Image::Screen };
    assert(only_at(s, 2, clears));
}

/// What an image is accessed for in a layout that it is brought into.
pub open spec fn access_in(layout: Layout) -> u32 {
    match layout {
        Layout::Undefined => 0,
        Layout::PresentSrc => 0,
        Layout::TransferSrc => ACCESS_TRANSFER_READ,
        Layout::TransferDst => ACCESS_TRANSFER_WRITE,
        Layout::ShaderReadOnly => ACCESS_READ,
        Layout::ColorAttachment => ACCESS_COLOR_ATTACHMENT,
    }
}

/// The writes in a layout that an image leaves are named.
pub open spec fn flushes(was: Layout, before: u32) -> bool {
    match was {
        Layout::Undefined => before == 0,
        Layout::PresentSrc => before == ACCESS_MEMORY_WRITE,
        Layout::TransferSrc => before == 0 || before == ACCESS_TRANSFER_READ,
        Layout::TransferDst => before == ACCESS_TRANSFER_WRITE || before == ACCESS_DRAWN,
        Layout::ShaderReadOnly => true,
        Layout::ColorAttachment => before == ACCESS_COLOR_ATTACHMENT_WRITE || before
            == ACCESS_DRAWN,
    }
}

/// Every change of a layout waits for the writes in the old one, and is seen by
/// what the image is used for in the new one.
pub proof fn lemma_access(i: FrameInput, k: int)
    requires
        0 <= k < frame_steps(i).len(),
    ensures
        match frame_steps(i)[k] {
            Step::Transition { image, was, becomes, before, after } => after == access_in(becomes)
                && flushes(was, before),
            _ => true,
        },
{
    let a = preparing(i);
    let b = a + seq![Step::Run];
    let c = b + repainting(i);
    let s = frame_steps(i);
    if k < a.len() {
        assert(s[k] == a[k]);
        if !i.subframe {
            let o = opening(i);
            let p = o + capturing(i);
            if k < o.len() {
                assert(a[k] == o[k]);
            } else if k < p.len() {
                assert(a[k] == capturing(i)[k - o.len()]);
            } else {
                assert(a[k] == sampling(i)[k - p.len()]);
            }
        }
    } else if k < b.len() {
        assert(s[k] == Step::Run);
    } else if k < c.len() {
        let r = repainting(i);
        assert(s[k] == r[k - b.len()]);
        if k - b.len() >= 6 {
            assert(r[k - b.len()] == fills(bars(i.display, i.extent))[k - b.len() - 6]);
        }
    } else {
        assert(s[k] == closing(i)[k - c.len()]);
    }
}

/// What a step waits for with: transfers for transfers, the preset's stages for
/// the preset, and the end of the frame for nothing.
pub open spec fn waits_enough(step: Step, waiting: u32) -> bool {
    match step {
        Step::Copy { from, to, area } => waiting == STAGE_TRANSFER,
        Step::Blit { from, to, area, size, filter } => waiting == STAGE_TRANSFER,
        Step::Read { image, size } => waiting == STAGE_TRANSFER,
        Step::Clear { image } => waiting == STAGE_TRANSFER,
        Step::Fill { area } => waiting == STAGE_TRANSFER,
        Step::Run => waiting == STAGE_PRESET || waiting == STAGE_COLOR_ATTACHMENT_OUTPUT,
        _ => true,
    }
}

/// The stages that the last barrier lets go on; none before the first one.
pub open spec fn let_go(waiting: u32, steps: Seq<Step>) -> u32
    decreases steps.len(),
{
    if steps.len() == 0 {
        waiting
    } else {
        match steps.last() {
            Step::Barrier { done, waiting: now } => now,
            _ => let_go(waiting, steps.drop_last()),
        }
    }
}

/// Every step is let go by the barrier before it.
pub open spec fn ordered(waiting: u32, steps: Seq<Step>) -> bool
    decreases steps.len(),
{
    steps.len() == 0 || (ordered(waiting, steps.drop_last()) && waits_enough(
        steps.last(),
        let_go(waiting, steps.drop_last()),
    ))
}

proof fn lemma_ordered_both(waiting: u32, a: Seq<Step>, b: Seq<Step>)
    ensures
        let_go(waiting, a + b) == let_go(let_go(waiting, a), b),
        ordered(waiting, a + b) <==> ordered(waiting, a) && ordered(let_go(waiting, a), b),
    decreases b.len(),
{
    if b.len() == 0 {
        assert(a + b =~= a);
    } else {
        lemma_ordered_both(waiting, a, b.drop_last());
        assert((a + b).drop_last() =~= a + b.drop_last());
        assert((a + b).last() == b.last());
    }
}

proof fn lemma_fills_ordered(v: Seq<Rect>)
    ensures
        ordered(STAGE_TRANSFER, fills(v)),
        let_go(STAGE_TRANSFER, fills(v)) == STAGE_TRANSFER,
    decreases v.len(),
{
    if v.len() > 0 {
        lemma_fills_ordered(v.drop_last());
        assert(fills(v).drop_last() =~= fills(v.drop_last()));
    }
}

proof fn lemma_opening_ordered(i: FrameInput)
    ensures
        ordered(0, opening(i)),
        let_go(0, opening(i)) == STAGE_TRANSFER,
{
    let s = opening(i);
    reveal_with_fuel(ordered, 8);
    reveal_with_fuel(let_go, 8);
    let s1 = s.drop_last();
    let s2 = s1.drop_last();
    let s3 = s2.drop_last();
    if i.staged {
        let s4 = s3.drop_last();
        let s5 = s4.drop_last();
        let s6 = s5.drop_last();
        assert(s6.drop_last() =~= Seq::<Step>::empty());
    } else {
        assert(s3 =~= Seq::<Step>::empty());
    }
}

proof fn lemma_capturing_ordered(i: FrameInput)
    ensures
        ordered(STAGE_TRANSFER, capturing(i)),
        let_go(STAGE_TRANSFER, capturing(i)) == STAGE_TRANSFER,
{
    let s = capturing(i);
    reveal_with_fuel(ordered, 7);
    reveal_with_fuel(let_go, 7);
    if i.capture is Some {
        let s1 = s.drop_last();
        let s2 = s1.drop_last();
        let s3 = s2.drop_last();
        let s4 = s3.drop_last();
        let s5 = s4.drop_last();
        assert(s5.drop_last() =~= Seq::<Step>::empty());
    }
}

proof fn lemma_sampling_ordered(i: FrameInput)
    ensures
        ordered(STAGE_TRANSFER, sampling(i)),
        let_go(STAGE_TRANSFER, sampling(i)) == STAGE_PRESET,
{
    let s = sampling(i);
    reveal_with_fuel(ordered, 5);
    reveal_with_fuel(let_go, 5);
    let s1 = s.drop_last();
    let s2 = s1.drop_last();
    let s3 = s2.drop_last();
    assert(s3.drop_last() =~= Seq::<Step>::empty());
}

proof fn lemma_repainting_ordered(i: FrameInput, waiting: u32)
    ensures
        ordered(waiting, repainting(i)),
{
    if repainted(i) {
        let f = fills(bars(i.display, i.extent));
        let s = repainting(i).take(6);
        assert(repainting(i) =~= s + f);
        reveal_with_fuel(ordered, 7);
        reveal_with_fuel(let_go, 7);
        let s1 = s.drop_last();
        let s2 = s1.drop_last();
        let s3 = s2.drop_last();
        let s4 = s3.drop_last();
        let s5 = s4.drop_last();
        assert(s5.drop_last() =~= Seq::<Step>::empty());
        lemma_fills_ordered(bars(i.display, i.extent));
        lemma_ordered_both(waiting, s, f);
    }
}

/// No step of a frame runs ahead: transfers and the preset wait for the barrier
/// before them, and the first barrier waits for all that was submitted.
pub proof fn lemma_frame_ordered(i: FrameInput)
    ensures
        ordered(0, frame_steps(i)),
        match frame_steps(i)[0] {
            Step::Barrier { done, waiting } => done == STAGE_ALL_COMMANDS,
            _ => false,
        },
{
    let a = preparing(i);
    let run = seq![Step::Run];
    reveal_with_fuel(ordered, 3);
    reveal_with_fuel(let_go, 3);
    if i.subframe {
        let s = reopening();
        assert(s.drop_last().drop_last() =~= Seq::<Step>::empty());
        assert(ordered(0, a) && let_go(0, a) == STAGE_COLOR_ATTACHMENT_OUTPUT);
    } else {
        lemma_opening_ordered(i);
        lemma_capturing_ordered(i);
        lemma_sampling_ordered(i);
        lemma_ordered_both(0, opening(i), capturing(i));
        lemma_ordered_both(0, opening(i) + capturing(i), sampling(i));
        assert(ordered(0, a) && let_go(0, a) == STAGE_PRESET);
    }
    assert(run.drop_last() =~= Seq::<Step>::empty());
    lemma_ordered_both(0, a, run);
    let w = let_go(0, a + run);
    lemma_repainting_ordered(i, w);
    lemma_ordered_both(0, a + run, repainting(i));
    let s = closing(i);
    assert(s.drop_last().drop_last() =~= Seq::<Step>::empty());
    lemma_ordered_both(0, a + run + repainting(i), s);
    assert(frame_steps(i)[0] == a[0]);
}

/// No pixel of the image lies in two of the parts around a picture.
pub proof fn lemma_bars_apart(picture: Rect, total: Extent, i: int, j: int, x: int, y: int)
    requires
        computable(total),
        0 <= i < j < sides(picture, total).len(),
        0 <= x < total.width,
        0 <= y < total.height,
    ensures
        !(covers(sides(picture, total)[i], x, y) && covers(sides(picture, total)[j], x, y)),
{
}

} // verus!
