//! From a swapchain image to the picture given to the preset, and back onto
//! the screen.

use crate::accuracy;
use crate::decimal;
use crate::ipc::{self, Counts, Extent, Factors, Filter, Offset, Rect, SourceSettings, SourceSize};
use crate::notation;
use crate::screen;
use crate::single::{self, Single};
use crate::text;
use vstd::prelude::*;

verus! {

#[derive(Clone, Copy, PartialEq, Eq, Debug, Structural)]
pub enum SourceRect {
    /// The whole swapchain image.
    Full,
    /// Centered region of the given aspect ratio (width / height).
    Aspect(Single),
    /// Explicit rectangle in swapchain pixels.
    Explicit(Rect),
}

// --------------------------------------------------------------------- parsing

/// The size written as `320x240`.
pub open spec fn extent_value(s: Seq<char>) -> Option<Extent> {
    match text::split_at_first(text::trimmed(s), 'x', 'X') {
        Some((w, h)) => match (
            text::unsigned_value(text::trimmed(w)),
            text::unsigned_value(text::trimmed(h)),
        ) {
            (Some(width), Some(height)) => if width > 0 && height > 0 {
                Some(Extent { width, height })
            } else {
                None
            },
            _ => None,
        },
        None => None,
    }
}

/// What follows `/` or `1/`.
pub open spec fn divisor_part(s: Seq<char>) -> Option<Seq<char>> {
    if text::begins(s, "/"@) {
        Some(s.skip(1))
    } else if text::begins(s, "1/"@) {
        Some(s.skip(2))
    } else {
        None
    }
}

/// A divisor that makes sense.
pub open spec fn divides(by: Single) -> bool {
    single::of_integer(1).up_to(by) && by.finite()
}

/// The source size written as `native`, `/2`, `1/2`, `50%` or `320x240`; a
/// number alone is none.
pub open spec fn size_value(s: Seq<char>) -> Option<SourceSize> {
    let t = text::trimmed(s);
    if t.len() == 0 || text::alike(t, "native"@) {
        Some(SourceSize::Native)
    } else if t.last() == '%' {
        match decimal::written(text::trimmed(t.drop_last())) {
            Some(percent) => if single::of_integer(0).before(percent) {
                Some(SourceSize::Divide { by: single::quotient(single::of_integer(100), percent) })
            } else {
                None
            },
            None => None,
        }
    } else if divisor_part(t) is Some {
        match decimal::written(text::trimmed(divisor_part(t)->0)) {
            Some(by) => if divides(by) {
                Some(SourceSize::Divide { by })
            } else {
                None
            },
            None => None,
        }
    } else {
        match extent_value(t) {
            Some(size) => Some(SourceSize::Fixed { size }),
            None => None,
        }
    }
}

/// The aspect ratio written as `4:3` or `1.333`.
pub open spec fn ratio_value(s: Seq<char>) -> Option<Single> {
    match text::split_at_first(s, ':', ':') {
        Some((w, h)) => match (
            decimal::written(text::trimmed(w)),
            decimal::written(text::trimmed(h)),
        ) {
            (Some(a), Some(b)) => Some(single::quotient(a, b)),
            _ => None,
        },
        None => decimal::written(s),
    }
}

/// The region written as `full`, `4:3`, `1.333`, or `X,Y,WxH`.
pub open spec fn rect_value(s: Seq<char>) -> Option<SourceRect> {
    let t = text::trimmed(s);
    let parts = text::pieces(t, ',');
    if t.len() == 0 || text::alike(t, "full"@) {
        Some(SourceRect::Full)
    } else if parts.len() == 3 {
        match (
            text::signed_value(text::trimmed(parts[0])),
            text::signed_value(text::trimmed(parts[1])),
            extent_value(parts[2]),
        ) {
            (Some(x), Some(y), Some(extent)) => Some(
                SourceRect::Explicit(Rect { offset: Offset { x, y }, extent }),
            ),
            _ => None,
        }
    } else {
        match ratio_value(t) {
            Some(ratio) => if ratio.finite() && single::of_integer(0).before(ratio) {
                Some(SourceRect::Aspect(ratio))
            } else {
                None
            },
            None => None,
        }
    }
}

/// `320x240`
pub fn extent_of(s: &[char]) -> (r: Option<Extent>)
    ensures
        r == extent_value(s@),
{
    let (w, h) = match text::split_once(text::trim(s), 'x', 'X') {
        Some(p) => p,
        None => {
            return None;
        },
    };
    match (text::parse_unsigned(text::trim(w)), text::parse_unsigned(text::trim(h))) {
        (Some(width), Some(height)) => {
            if width > 0 && height > 0 {
                Some(Extent { width, height })
            } else {
                None
            }
        },
        _ => None,
    }
}

/// `320x240`
pub fn parse_extent(s: &str) -> (r: Option<Extent>)
    ensures
        r == extent_value(s@),
{
    extent_of(text::chars_of(s).as_slice())
}

/// `native`, `/2`, `50%` or `320x240`. `1/2` is `/2`, and a number alone is no
/// size.
pub fn parse_source_size(spec: &str) -> (r: Option<SourceSize>)
    ensures
        r == size_value(spec@),
{
    let all: Vec<char> = text::chars_of(spec);
    let t: &[char] = text::trim(all.as_slice());
    if t.len() == 0 || text::is_alike_text(t, "native") {
        return Some(SourceSize::Native);
    }
    if t[t.len() - 1] == '%' {
        let front: &[char] = vstd::slice::slice_subrange(t, 0, t.len() - 1);
        assert(front@ =~= t@.drop_last());
        return match Single::parse(text::trim(front)) {
            Some(percent) => {
                if Single::of_u32(0).is_before(percent) {
                    Some(SourceSize::Divide { by: Single::of_u32(100).over(percent) })
                } else {
                    None
                }
            },
            None => None,
        };
    }
    proof {
        reveal_strlit("/");
        reveal_strlit("1/");
    }
    let divisor: Option<&[char]> = match text::strip_prefix(t, "/") {
        Some(d) => Some(d),
        None => text::strip_prefix(t, "1/"),
    };
    if let Some(d) = divisor {
        return match Single::parse(text::trim(d)) {
            Some(by) => {
                if Single::of_u32(1).is_up_to(by) && by.is_finite() {
                    Some(SourceSize::Divide { by })
                } else {
                    None
                }
            },
            None => None,
        };
    }
    match extent_of(t) {
        Some(size) => Some(SourceSize::Fixed { size }),
        None => None,
    }
}

/// `full`, `4:3`, `1.333`, or `X,Y,WxH`
pub fn parse_rect(s: &str) -> (r: Option<SourceRect>)
    ensures
        r == rect_value(s@),
{
    let all: Vec<char> = text::chars_of(s);
    let t: &[char] = text::trim(all.as_slice());
    if t.len() == 0 || text::is_alike_text(t, "full") {
        return Some(SourceRect::Full);
    }
    let parts: Vec<Vec<char>> = text::split(t, ',');
    let ghost seen = text::pieces(t@, ',');
    assert(parts@.len() == seen.len());
    if parts.len() == 3 {
        assert(seen[0] == parts@[0]@ && seen[1] == parts@[1]@ && seen[2] == parts@[2]@);
        let x: Option<i32> = text::parse_signed(text::trim(parts[0].as_slice()));
        let y: Option<i32> = text::parse_signed(text::trim(parts[1].as_slice()));
        return match (x, y, extent_of(parts[2].as_slice())) {
            (Some(x), Some(y), Some(extent)) => Some(
                SourceRect::Explicit(Rect { offset: Offset { x, y }, extent }),
            ),
            _ => None,
        };
    }
    let ratio: Option<Single> = match text::split_once(t, ':', ':') {
        Some((w, h)) => match (Single::parse(text::trim(w)), Single::parse(text::trim(h))) {
            (Some(a), Some(b)) => Some(a.over(b)),
            _ => None,
        },
        None => Single::parse(t),
    };
    match ratio {
        Some(ratio) => {
            if ratio.is_finite() && Single::of_u32(0).is_before(ratio) {
                Some(SourceRect::Aspect(ratio))
            } else {
                None
            }
        },
        None => None,
    }
}

/// A size that a source can have.
pub open spec fn sensible(s: SourceSize) -> bool {
    match s {
        SourceSize::Native => true,
        SourceSize::Divide { by } => divides(by),
        SourceSize::Fixed { size } => size.width > 0 && size.height > 0,
    }
}

/// `320x240` and the like read back as they were written.
pub proof fn lemma_extent_reads_back(size: Extent)
    requires
        size.width > 0,
        size.height > 0,
    ensures
        ({
            let t = text::decimal(size.width as nat) + "x"@ + text::decimal(size.height as nat);
            &&& extent_value(t) == Some(size)
            &&& text::trimmed(t) == t
            &&& t.len() > 2
            &&& text::digit(t[0])
            &&& text::digit(t.last())
            &&& text::digit(t[1]) || t[1] == 'x'
            &&& forall|i: int| 0 <= i < t.len() ==> text::digit(#[trigger] t[i]) || t[i] == 'x'
        }),
{
    let w = text::decimal(size.width as nat);
    let h = text::decimal(size.height as nat);
    let t = w + "x"@ + h;
    reveal_strlit("x");
    text::lemma_decimal(size.width as nat);
    text::lemma_decimal(size.height as nat);
    text::lemma_unsigned_round_trip(size.width);
    text::lemma_unsigned_round_trip(size.height);
    assert(t[0] == w[0]);
    assert(t.last() == h.last());
    text::lemma_trimmed_same(t);
    text::lemma_trimmed_same(w);
    text::lemma_trimmed_same(h);
    assert forall|i: int| 0 <= i < t.len() implies text::digit(#[trigger] t[i]) || t[i] == 'x' by {
        if i < w.len() {
            assert(t[i] == w[i]);
        } else if i > w.len() {
            assert(t[i] == h[i - w.len() - 1]);
        }
    }
    assert forall|i: int| 0 <= i < w.len() implies t[i] != 'x' && t[i] != 'X' by {
        assert(t[i] == w[i]);
    }
    assert(t[w.len() as int] == 'x');
    text::lemma_run(t, 'x', 'X', w.len());
    assert(t.take(w.len() as int) =~= w);
    assert(t.skip(w.len() as int + 1) =~= h);
}

proof fn lemma_divisor_reads_back(by: Single)
    requires
        divides(by),
    ensures
        size_value("/"@ + notation::shown(by)) == Some(SourceSize::Divide { by }),
{
    let d = notation::shown(by);
    let t = "/"@ + d;
    reveal_strlit("native");
    reveal_strlit("/");
    notation::lemma_shown_characters(by);
    notation::lemma_written_shown(by);
    assert(t[0] == '/');
    assert(t.last() == d.last());
    text::lemma_trimmed_same(t);
    assert(text::lowered(t)[0] == '/');
    assert(text::lowered("native"@)[0] == 'n');
    assert(t.take(1) =~= "/"@);
    assert(t.skip(1) =~= d);
    assert(!text::space(d[0]));
    text::lemma_trimmed_same(d);
}

/// A size reads back as it was written.
pub proof fn lemma_size_reads_back(s: SourceSize)
    requires
        sensible(s),
    ensures
        size_value(ipc::size_text(s)) == Some(s),
{
    let t = ipc::size_text(s);
    match s {
        SourceSize::Native => {
            reveal_strlit("native");
            text::lemma_trimmed_same(t);
        },
        SourceSize::Divide { by } => {
            lemma_divisor_reads_back(by);
        },
        SourceSize::Fixed { size } => {
            lemma_extent_reads_back(size);
            reveal_strlit("native");
            reveal_strlit("/");
            reveal_strlit("1/");
            assert(text::lowered(t)[0] == t[0]);
            assert(text::lowered("native"@)[0] == 'n');
            if text::begins(t, "/"@) {
                assert(t.take(1)[0] == '/');
            }
            if text::begins(t, "1/"@) {
                assert(t.take(2)[1] == '/');
            }
        },
    }
}

// --------------------------------------------------------------------- sources

/// How the swapchain image is turned into the chain's `Original` input.
#[derive(Debug, PartialEq)]
pub struct Source {
    /// Logical (retro) size fed to the filter chain as `Original`.
    pub res: SourceSize,
    /// Times that the application repeats each pixel, on each axis.
    pub duplicate: Counts,
    pub filter: Filter,
    pub rect: SourceRect,
    /// `rect` as written by the user (`4:3` stays `4:3`).
    pub rect_spec: String,
    /// Region the preset draws into (stretches the picture when it differs).
    pub display: SourceRect,
    pub display_spec: String,
    /// Scales the display area around its centre.
    pub display_scale: Factors,
    /// Scale of the picture inside the image.
    pub source_scale: Factors,
}

/// A scale that the display area can have.
pub open spec fn scale_allowed(scale: Single) -> bool {
    scale.finite() && single::of_fraction(1, 10).up_to(scale) && scale.up_to(single::of_integer(4))
}

/// What is wrong with settings, if anything.
pub open spec fn complaint(s: SourceSettings) -> Option<Seq<char>> {
    if rect_value(s.rect@) is None {
        Some("invalid source rect '"@ + s.rect@ + "'"@)
    } else if s.res is Fixed && !sensible(s.res) {
        Some("source resolution must be non-zero"@)
    } else if s.res is Divide && !sensible(s.res) {
        Some("the divisor must be at least 1"@)
    } else if rect_value(s.display@) is None {
        Some("invalid display area '"@ + s.display@ + "'"@)
    } else if !scale_allowed(s.display_scale.x) || !scale_allowed(s.display_scale.y) {
        Some("the display scale must be between 0.1 and 4"@)
    } else {
        None
    }
}

/// `src` is what the settings `s` ask for.
pub open spec fn asked_for(s: SourceSettings, src: Source) -> bool {
    &&& src.res == s.res
    &&& src.duplicate == s.duplicate
    &&& src.filter == s.filter
    &&& rect_value(s.rect@) == Some(src.rect)
    &&& src.rect_spec@ == text::trimmed(s.rect@)
    &&& rect_value(s.display@) == Some(src.display)
    &&& src.display_spec@ == text::trimmed(s.display@)
    &&& src.display_scale == s.display_scale
    &&& src.source_scale == s.source_scale
}

/// The settings that `src` goes by.
pub open spec fn described(src: Source, s: SourceSettings) -> bool {
    &&& s.res == src.res
    &&& s.duplicate == src.duplicate
    &&& s.filter == src.filter
    &&& s.rect@ == src.rect_spec@
    &&& s.display@ == src.display_spec@
    &&& s.display_scale == src.display_scale
    &&& s.source_scale == src.source_scale
}

/// Size of the source image for a picture of size `picture`.
pub open spec fn input_size(res: SourceSize, picture: Extent) -> Extent {
    match res {
        SourceSize::Native => picture,
        SourceSize::Divide { by } => Extent {
            width: screen::pixels(
                single::quotient(single::of_integer(picture.width as nat), by),
            ),
            height: screen::pixels(
                single::quotient(single::of_integer(picture.height as nat), by),
            ),
        },
        SourceSize::Fixed { size } => size,
    }
}

fn quoted(front: &str, s: &str) -> (r: String)
    ensures
        r@ == front@ + s@ + "'"@,
{
    let mut out: Vec<char> = text::chars_of(front);
    text::append_text(&mut out, s);
    text::append_text(&mut out, "'");
    text::text_of(out.as_slice())
}

fn trimmed_text(s: &str) -> (r: String)
    ensures
        r@ == text::trimmed(s@),
{
    text::text_of(text::trim(text::chars_of(s).as_slice()))
}

fn is_scale_allowed(scale: Single) -> (r: bool)
    ensures
        r == scale_allowed(scale),
{
    scale.is_finite() && Single::fraction(1, 10).is_up_to(scale) && scale.is_up_to(
        Single::of_u32(4),
    )
}

impl Default for Source {
    fn default() -> (r: Self)
        ensures
            r.wf(),
            r.res == SourceSize::Native,
            r.duplicate == (Counts { x: 1, y: 1 }),
            r.filter == Filter::Nearest,
            r.rect == SourceRect::Full,
            r.rect_spec@ == "full"@,
            r.display == SourceRect::Full,
            r.display_spec@ == "full"@,
            r.display_scale == ipc::unscaled(),
            r.source_scale == ipc::unscaled(),
    {
        proof {
            lemma_full();
            lemma_one_allowed();
        }
        Source {
            res: SourceSize::Native,
            duplicate: Counts { x: 1, y: 1 },
            filter: Filter::Nearest,
            rect: SourceRect::Full,
            rect_spec: text::text_of(text::chars_of("full").as_slice()),
            display: SourceRect::Full,
            display_spec: text::text_of(text::chars_of("full").as_slice()),
            display_scale: ipc::no_scale(),
            source_scale: ipc::no_scale(),
        }
    }
}

/// `full` is the whole image.
pub proof fn lemma_full()
    ensures
        rect_value("full"@) == Some(SourceRect::Full),
{
    reveal_strlit("full");
    text::lemma_trimmed_same("full"@);
}

/// A scale of 1 is allowed.
pub proof fn lemma_one_allowed()
    ensures
        scale_allowed(single::of_integer(1)),
{
    screen::lemma_small_integer(1);
    screen::lemma_small_integer(4);
    let one = single::of_integer(1);
    let tenth = single::of_fraction(1, 10);
    single::lemma_nearest_exists(single::one_in_units(), 1);
    single::lemma_nearest_exists(single::one_in_units(), 10);
    assert(1 * single::one_in_units() == single::one_in_units());
    single::lemma_rounding_monotone(
        single::one_in_units(),
        10,
        tenth.pattern(),
        single::one_in_units(),
        1,
        one.pattern(),
    );
    single::lemma_magnitude_increases(tenth.pattern(), one.pattern());
}

/// What a text reads as does not depend on the white space around it.
pub proof fn lemma_rect_trimmed(s: Seq<char>)
    ensures
        rect_value(text::trimmed(s)) == rect_value(s),
        text::trimmed(text::trimmed(s)) == text::trimmed(s),
{
    text::lemma_trimmed_ends(s);
    text::lemma_trimmed_same(text::trimmed(s));
}

impl Source {
    /// The written regions are those in effect, and the scale is allowed.
    pub open spec fn wf(&self) -> bool {
        &&& rect_value(self.rect_spec@) == Some(self.rect)
        &&& rect_value(self.display_spec@) == Some(self.display)
        &&& scale_allowed(self.display_scale.x)
        &&& scale_allowed(self.display_scale.y)
    }

    /// The source that the settings ask for, or what is wrong with them.
    pub fn from_ipc(s: &SourceSettings) -> (r: Result<Source, String>)
        ensures
            match r {
                Ok(src) => complaint(*s) is None && asked_for(*s, src) && src.wf(),
                Err(message) => complaint(*s) == Some(message@),
            },
    {
        let rect: SourceRect = match parse_rect(s.rect.as_str()) {
            Some(rect) => rect,
            None => {
                return Err(quoted("invalid source rect '", s.rect.as_str()));
            },
        };
        match s.res {
            SourceSize::Fixed { size } => {
                if size.width == 0 || size.height == 0 {
                    return Err(text::text_of(
                        text::chars_of("source resolution must be non-zero").as_slice(),
                    ));
                }
            },
            SourceSize::Divide { by } => {
                if !(Single::of_u32(1).is_up_to(by) && by.is_finite()) {
                    return Err(text::text_of(
                        text::chars_of("the divisor must be at least 1").as_slice(),
                    ));
                }
            },
            SourceSize::Native => {},
        }
        let display: SourceRect = match parse_rect(s.display.as_str()) {
            Some(display) => display,
            None => {
                return Err(quoted("invalid display area '", s.display.as_str()));
            },
        };
        if !is_scale_allowed(s.display_scale.x) || !is_scale_allowed(s.display_scale.y) {
            return Err(text::text_of(
                text::chars_of("the display scale must be between 0.1 and 4").as_slice(),
            ));
        }
        proof {
            lemma_rect_trimmed(s.rect@);
            lemma_rect_trimmed(s.display@);
        }
        Ok(Source {
            res: s.res,
            duplicate: s.duplicate,
            filter: s.filter,
            rect,
            rect_spec: trimmed_text(s.rect.as_str()),
            display,
            display_spec: trimmed_text(s.display.as_str()),
            display_scale: s.display_scale,
            source_scale: s.source_scale,
        })
    }

    pub fn to_ipc(&self) -> (r: SourceSettings)
        ensures
            described(*self, r),
    {
        SourceSettings {
            res: self.res,
            duplicate: self.duplicate,
            filter: self.filter,
            rect: self.rect_spec.clone(),
            display: self.display_spec.clone(),
            display_scale: self.display_scale,
            source_scale: self.source_scale,
        }
    }

    pub fn copy(&self) -> (r: Source)
        ensures
            r == *self,
    {
        Source {
            res: self.res,
            duplicate: self.duplicate,
            filter: self.filter,
            rect: self.rect,
            rect_spec: self.rect_spec.clone(),
            display: self.display,
            display_spec: self.display_spec.clone(),
            display_scale: self.display_scale,
            source_scale: self.source_scale,
        }
    }

    /// Size of the source image for a given picture area.
    pub fn size_for(&self, picture: Extent) -> (r: Extent)
        ensures
            r == input_size(self.res, picture),
    {
        match self.res {
            SourceSize::Native => picture,
            SourceSize::Divide { by } => Extent {
                width: screen::to_pixels(Single::of_u32(picture.width).over(by)),
                height: screen::to_pixels(Single::of_u32(picture.height).over(by)),
            },
            SourceSize::Fixed { size } => size,
        }
    }

    /// Area of an `extent`-sized swapchain image that holds the picture.
    pub fn picture_rect(&self, extent: Extent) -> (r: Rect)
        requires
            screen::region_fits(self.rect, extent),
        ensures
            r == screen::region_of(self.rect, extent),
    {
        screen::region(self.rect, extent)
    }

    /// Area of the swapchain the preset draws into, scaled around its centre
    /// as far as the screen goes.
    pub fn display_rect(&self, extent: Extent) -> (r: Rect)
        requires
            screen::region_fits(self.display, extent),
            screen::placeable(extent),
        ensures
            r == screen::drawn_area(
                screen::region_of(self.display, extent),
                self.display_scale,
                extent,
            ),
            screen::inside(r, extent),
            screen::holds_pixels(r),
    {
        screen::draw_area(screen::region(self.display, extent), self.display_scale, extent)
    }

    /// The picture, without what the scaled display area leaves off screen.
    pub fn shown_rect(&self, extent: Extent) -> (r: Rect)
        requires
            screen::region_fits(self.rect, extent),
            screen::region_fits(self.display, extent),
            screen::proper(self.rect),
            screen::placeable(extent),
        ensures
            r == screen::drawn_part(
                screen::region_of(self.rect, extent),
                screen::region_of(self.display, extent),
                self.display_scale,
                extent,
            ),
            screen::inside(r, extent),
            screen::holds_pixels(r),
    {
        proof {
            screen::lemma_region_inside(self.rect, extent);
            screen::lemma_part_inside(
                screen::region_of(self.rect, extent),
                screen::region_of(self.display, extent),
                self.display_scale,
                extent,
            );
        }
        screen::draw_part(
            screen::region(self.rect, extent),
            screen::region(self.display, extent),
            self.display_scale,
            extent,
        )
    }
}

/// A region that could be read has pixels in it.
pub proof fn lemma_read_is_proper(s: Seq<char>)
    requires
        rect_value(s) is Some,
    ensures
        screen::proper(rect_value(s)->0),
{
}

/// The source image has a pixel, whatever the size asked for.
pub proof fn lemma_input_has_pixels(res: SourceSize, picture: Extent)
    requires
        sensible(res),
        picture.width > 0,
        picture.height > 0,
    ensures
        input_size(res, picture).width > 0,
        input_size(res, picture).height > 0,
{
}

/// The source image is the picture divided by the divisor, to the closest
/// pixel, and one pixel at least; without a divisor it is the picture, or the
/// size that was asked for.
pub proof fn lemma_input_divides(res: SourceSize, picture: Extent)
    requires
        sensible(res),
        1 <= picture.width <= 0x100_0000,
        1 <= picture.height <= 0x100_0000,
    ensures
        ({
            let r = input_size(res, picture);
            let u = single::one_in_units() as int;
            match res {
                SourceSize::Native => r == picture,
                SourceSize::Fixed { size } => r == size,
                SourceSize::Divide { by } => {
                    &&& accuracy::distance(r.width * by.units(), picture.width * u) <= by.units()
                        || (r.width == 1 && picture.width * u <= by.units())
                    &&& accuracy::distance(r.height * by.units(), picture.height * u) <= by.units()
                        || (r.height == 1 && picture.height * u <= by.units())
                },
            }
        }),
{
    if let SourceSize::Divide { by } = res {
        let u = single::one_in_units() as int;
        screen::lemma_small_integer(1);
        accuracy::lemma_units();
        let d = by.size() as int;
        assert(picture.width * u <= 0x100_0000 * d) by (nonlinear_arith)
            requires
                picture.width <= 0x100_0000,
                u <= d,
                u > 0,
        ;
        assert(picture.height * u <= 0x100_0000 * d) by (nonlinear_arith)
            requires
                picture.height <= 0x100_0000,
                u <= d,
                u > 0,
        ;
        accuracy::lemma_pixels_of_quotient(picture.width, by);
        accuracy::lemma_pixels_of_quotient(picture.height, by);
    }
}

/// A source describes itself by settings that ask for the same source.
pub proof fn lemma_source_round_trip(src: Source, s: SourceSettings, back: Source)
    requires
        src.wf(),
        sensible(src.res),
        described(src, s),
        asked_for(s, back),
    ensures
        complaint(s) is None,
        back.res == src.res,
        back.duplicate == src.duplicate,
        back.filter == src.filter,
        back.rect == src.rect,
        back.display == src.display,
        back.display_scale == src.display_scale,
        back.source_scale == src.source_scale,
        back.rect_spec@ == text::trimmed(src.rect_spec@),
        back.display_spec@ == text::trimmed(src.display_spec@),
{
}

/// Settings that are accepted come back as they were sent, up to white space
/// around the regions.
pub proof fn lemma_settings_round_trip(s: SourceSettings, src: Source, back: SourceSettings)
    requires
        asked_for(s, src),
        described(src, back),
    ensures
        back.res == s.res,
        back.duplicate == s.duplicate,
        back.filter == s.filter,
        back.rect@ == text::trimmed(s.rect@),
        back.display@ == text::trimmed(s.display@),
        back.display_scale == s.display_scale,
        back.source_scale == s.source_scale,
{
}

/// `1/` before a number is as `/`: the picture is divided by that number, if it
/// is one or more.
pub proof fn lemma_ways_to_divide(n: Seq<char>)
    requires
        n.len() > 0,
        text::trimmed(n) == n,
        n.last() != '%',
    ensures
        size_value("1/"@ + n) == size_value("/"@ + n),
        match size_value("/"@ + n) {
            Some(size) => decimal::written(n) is Some && size == (SourceSize::Divide {
                by: decimal::written(n)->0,
            }) && divides(decimal::written(n)->0),
            None => decimal::written(n) is None || !divides(decimal::written(n)->0),
        },
{
    reveal_strlit("/");
    reveal_strlit("1/");
    reveal_strlit("native");
    let a = "/"@ + n;
    let b = "1/"@ + n;
    text::lemma_trimmed_ends(n);
    assert(a.last() == n.last() && b.last() == n.last());
    assert(a[0] == '/' && b[0] == '1' && b[1] == '/');
    text::lemma_trimmed_same(a);
    text::lemma_trimmed_same(b);
    assert(text::lowered(a)[0] == '/');
    assert(text::lowered(b)[0] == '1');
    assert(text::lowered("native"@)[0] == 'n');
    assert(a.take(1) =~= "/"@);
    assert(b.take(2) =~= "1/"@);
    assert(b.take(1)[0] == '1');
    assert(a.skip(1) =~= n);
    assert(b.skip(2) =~= n);
}

/// A percentage divides by a hundred over it: the product of the two is a
/// hundred, to one part in `2^24`.
#[verifier::spinoff_prover]
pub proof fn lemma_percent(n: Seq<char>)
    requires
        n.len() > 0,
        text::trimmed(n) == n,
        decimal::written(n) is Some,
        decimal::written(n)->0.finite(),
        single::one_in_units() <= 0x100_0000 * decimal::written(n)->0.units(),
        decimal::written(n)->0.units() <= 0x100_0000 * single::one_in_units(),
    ensures
        ({
            let p = decimal::written(n)->0;
            match size_value(n + seq!['%']) {
                Some(SourceSize::Divide { by }) => accuracy::within_part(
                    by.units() * p.units(),
                    ((100 * single::one_in_units()) * single::one_in_units()) as int,
                ),
                _ => false,
            }
        }),
{
    let s = n + seq!['%'];
    let p = decimal::written(n)->0;
    let u = vstd::arithmetic::power2::pow2(149) as int;
    text::lemma_trimmed_ends(n);
    assert(s.last() == '%' && s[0] == n[0]);
    text::lemma_trimmed_same(s);
    assert(s.drop_last() =~= n);
    reveal_strlit("native");
    assert(text::lowered(s).last() == '%');
    assert(text::lowered("native"@).last() == 'e');
    accuracy::lemma_units();
    accuracy::lemma_zero();
    let k = p.size() as int;
    assert(!p.negative() && k > 0);
    assert(0x100_0000 * k <= (100 * u) * u && (100 * u) * u <= (0x100_0000
        * vstd::arithmetic::power2::pow2(200)) * k) by (nonlinear_arith)
        requires
            u <= 0x100_0000 * k,
            k <= 0x100_0000 * u,
            u >= 0x1_0000_0000_0000_0000,
            vstd::arithmetic::power2::pow2(200) == 0x8_0000_0000_0000 * u,
    {
        assert(u * u >= 0x1_0000_0000_0000_0000 * u);
        assert((0x100_0000 * vstd::arithmetic::power2::pow2(200)) * k
            == vstd::arithmetic::power2::pow2(200) * (0x100_0000 * k));
        assert(vstd::arithmetic::power2::pow2(200) * (0x100_0000 * k)
            >= vstd::arithmetic::power2::pow2(200) * u);
        assert(vstd::arithmetic::power2::pow2(200) * u == 0x8_0000_0000_0000 * (u * u));
    }
    accuracy::lemma_divided(100, p);
}

/// Settings are accepted exactly if both regions can be read, the size has
/// pixels or divides by one or more, and the display scale lies within a tenth
/// and four on both axes.
pub proof fn lemma_accepted(s: SourceSettings)
    ensures
        complaint(s) is None <==> {
            &&& rect_value(s.rect@) is Some
            &&& rect_value(s.display@) is Some
            &&& match s.res {
                SourceSize::Native => true,
                SourceSize::Fixed { size } => size.width > 0 && size.height > 0,
                SourceSize::Divide { by } => by.finite() && by.units() >= single::one_in_units(),
            }
            &&& scale_allowed(s.display_scale.x) && scale_allowed(s.display_scale.y)
        },
{
    screen::lemma_small_integer(1);
}

/// A scale lies within a tenth and four; a tenth is met to one part in a
/// million.
pub proof fn lemma_scale_range(x: Single)
    requires
        x.finite(),
    ensures
        ({
            let u = single::one_in_units() as int;
            &&& x.units() <= 4 * u && 0x10_0000 * (10 * x.units() - u) >= u ==> scale_allowed(x)
            &&& scale_allowed(x) ==> x.units() <= 4 * u && 0x10_0000 * (u - 10 * x.units()) <= u
        }),
{
    let tenth = single::of_fraction(1, 10);
    screen::lemma_small_integer(4);
    accuracy::lemma_units();
    accuracy::lemma_near(vstd::arithmetic::power2::pow2(149), 10, 125);
    assert(tenth == single::signed(
        false,
        single::nearest(vstd::arithmetic::power2::pow2(149), 10),
    ));
}

/// `W:H` is the width divided by the height; a number alone is the ratio.
pub proof fn lemma_ratio_text(w: Seq<char>, h: Seq<char>)
    requires
        text::trimmed(w) == w,
        text::trimmed(h) == h,
        forall|i: int| 0 <= i < w.len() ==> w[i] != ':',
    ensures
        match (decimal::written(w), decimal::written(h)) {
            (Some(a), Some(b)) => ratio_value(w + seq![':'] + h) == Some(single::quotient(a, b)),
            _ => ratio_value(w + seq![':'] + h) is None,
        },
        ratio_value(w) == decimal::written(w),
{
    let s = w + seq![':'] + h;
    assert(forall|i: int| 0 <= i < w.len() ==> s[i] == w[i]);
    text::lemma_run(s, ':', ':', w.len());
    text::lemma_run(w, ':', ':', w.len());
    assert(s.take(w.len() as int) =~= w);
    assert(s.skip(w.len() as int + 1) =~= h);
}

/// A size that could be read has pixels, and divides by a number above zero.
pub proof fn lemma_read_size(s: Seq<char>)
    ensures
        match size_value(s) {
            Some(SourceSize::Fixed { size }) => size.width > 0 && size.height > 0,
            Some(SourceSize::Divide { by }) => !by.nan() && by.units() >= 0,
            _ => true,
        },
        extent_value(s) is Some ==> extent_value(s)->0.width > 0 && extent_value(s)->0.height > 0,
{
    screen::lemma_small_integer(1);
    screen::lemma_small_integer(100);
    accuracy::lemma_zero();
    accuracy::lemma_units();
    let t = text::trimmed(s);
    if t.len() > 0 && t.last() == '%' {
        if let Some(p) = decimal::written(text::trimmed(t.drop_last())) {
            if single::of_integer(0).before(p) && p.finite() {
                single::lemma_nearest_exists(
                    single::of_integer(100).size() * single::one_in_units(),
                    p.size(),
                );
            }
        }
    }
}

} // verus!
