//! Grabbed pictures: magic `VKSC`, width, height (little endian), then rows of
//! RGBA8 pixels.

use crate::ipc::Extent;
use crate::text;
use vstd::arithmetic::div_mod::*;
use vstd::prelude::*;

verus! {

/// A grabbed picture.
#[derive(Debug, PartialEq)]
pub struct Picture {
    pub size: Extent,
    /// Rows of RGBA8 pixels.
    pub pixels: Vec<u8>,
}

/// The bytes of `n`, the lowest first.
pub open spec fn little_endian(n: u32) -> Seq<u8> {
    seq![
        (n % 256) as u8,
        (n / 256 % 256) as u8,
        (n / 65536 % 256) as u8,
        (n / 16777216 % 256) as u8,
    ]
}

/// The number that four bytes stand for.
pub open spec fn number_at(s: Seq<u8>, i: int) -> int {
    s[i] + 256 * s[i + 1] + 65536 * s[i + 2] + 16777216 * s[i + 3]
}

/// `VKSC`
pub open spec fn magic() -> Seq<u8> {
    seq![0x56, 0x4b, 0x53, 0x43]
}

/// Number of bytes of the pixels.
pub open spec fn pixel_bytes(size: Extent) -> int {
    size.width * size.height * 4
}

/// The file that holds a picture.
pub open spec fn encoded(size: Extent, pixels: Seq<u8>) -> Seq<u8> {
    magic() + little_endian(size.width) + little_endian(size.height) + pixels
}

/// The size that a file claims to hold.
pub open spec fn claimed(data: Seq<u8>) -> Extent {
    Extent { width: number_at(data, 4) as u32, height: number_at(data, 8) as u32 }
}

/// The file holds a picture: it begins with the magic, and all pixels of the
/// size it claims are there.
pub open spec fn decodable(data: Seq<u8>) -> bool {
    &&& data.len() >= 12
    &&& data.take(4) == magic()
    &&& 12 + pixel_bytes(claimed(data)) <= data.len()
}

fn put_number(out: &mut Vec<u8>, n: u32)
    ensures
        final(out)@ == old(out)@ + little_endian(n),
{
    out.push((n % 256) as u8);
    out.push((n / 256 % 256) as u8);
    out.push((n / 65536 % 256) as u8);
    out.push((n / 16777216 % 256) as u8);
    assert(out@ =~= old(out)@ + little_endian(n));
}

fn get_number(data: &[u8], i: usize) -> (r: u32)
    requires
        i + 4 <= data@.len(),
    ensures
        r == number_at(data@, i as int),
{
    data[i] as u32 + 256 * data[i + 1] as u32 + 65536 * data[i + 2] as u32 + 16777216
        * data[i + 3] as u32
}

/// The file that holds a picture.
pub fn encode_capture(size: Extent, pixels: &[u8]) -> (r: Vec<u8>)
    ensures
        r@ == encoded(size, pixels@),
{
    let mut out: Vec<u8> = Vec::new();
    out.push(0x56);
    out.push(0x4b);
    out.push(0x53);
    out.push(0x43);
    assert(out@ =~= magic());
    put_number(&mut out, size.width);
    put_number(&mut out, size.height);
    let ghost front = out@;
    let mut i: usize = 0;
    assert(front + pixels@.take(0) =~= front);
    while i < pixels.len()
        invariant
            i <= pixels@.len(),
            out@ == front + pixels@.take(i as int),
        decreases pixels@.len() - i,
    {
        out.push(pixels[i]);
        i = i + 1;
        assert(out@ =~= front + pixels@.take(i as int));
    }
    assert(pixels@.take(i as int) =~= pixels@);
    out
}

/// Decodes the picture in a file.
pub fn load_capture(data: &[u8]) -> (r: Option<Picture>)
    ensures
        match r {
            Some(p) => decodable(data@) && p.size == claimed(data@) && p.pixels@ == data@.subrange(
                12,
                12 + pixel_bytes(p.size),
            ),
            None => !decodable(data@),
        },
{
    if data.len() < 12 {
        return None;
    }
    if data[0] != 0x56 || data[1] != 0x4b || data[2] != 0x53 || data[3] != 0x43 {
        proof {
            if data@.take(4) == magic() {
                assert(data@.take(4)[0] == 0x56 && data@.take(4)[1] == 0x4b && data@.take(4)[2]
                    == 0x53 && data@.take(4)[3] == 0x43);
            }
        }
        return None;
    }
    assert(data@.take(4) =~= magic());
    let width: u32 = get_number(data, 4);
    let height: u32 = get_number(data, 8);
    let size: Extent = Extent { width, height };
    assert(size == claimed(data@));
    assert(0 <= width * height <= 0xffff_ffff * 0xffff_ffff) by (nonlinear_arith)
        requires
            0 <= width <= 0xffff_ffff,
            0 <= height <= 0xffff_ffff,
    ;
    let bytes: u128 = width as u128 * height as u128 * 4;
    if bytes > (data.len() - 12) as u128 {
        return None;
    }
    let n: usize = bytes as usize;
    let len: usize = data.len();
    let mut pixels: Vec<u8> = Vec::new();
    let mut i: usize = 0;
    while i < n
        invariant
            i <= n,
            12 + n <= len,
            len == data@.len(),
            pixels@ == data@.subrange(12, 12 + i as int),
        decreases n - i,
    {
        pixels.push(data[12 + i]);
        i = i + 1;
        assert(pixels@ =~= data@.subrange(12, 12 + i as int));
    }
    Some(Picture { size, pixels })
}

proof fn lemma_number_back(n: u32, s: Seq<u8>, i: int)
    requires
        0 <= i,
        i + 4 <= s.len(),
        s.subrange(i, i + 4) == little_endian(n),
    ensures
        number_at(s, i) == n,
{
    let t = s.subrange(i, i + 4);
    assert(s[i] == t[0] && s[i + 1] == t[1] && s[i + 2] == t[2] && s[i + 3] == t[3]);
    let a = n as int / 256;
    let b = n as int / 65536;
    let c = n as int / 16777216;
    assert(a / 256 == b) by {
        lemma_div_denominator(n as int, 256, 256);
    }
    assert(b / 256 == c) by {
        lemma_div_denominator(n as int, 65536, 256);
    }
    lemma_fundamental_div_mod(n as int, 256);
    lemma_fundamental_div_mod(a, 256);
    lemma_fundamental_div_mod(b, 256);
    assert(c < 256);
    assert(c % 256 == c);
}

/// A picture that was written can be read back.
pub proof fn lemma_capture_round_trip(size: Extent, pixels: Seq<u8>)
    requires
        pixels.len() == pixel_bytes(size),
    ensures
        decodable(encoded(size, pixels)),
        claimed(encoded(size, pixels)) == size,
        encoded(size, pixels).subrange(12, 12 + pixel_bytes(size)) == pixels,
{
    let s = encoded(size, pixels);
    assert(s.take(4) =~= magic());
    assert(s.subrange(4, 8) =~= little_endian(size.width));
    assert(s.subrange(8, 12) =~= little_endian(size.height));
    lemma_number_back(size.width, s, 4);
    lemma_number_back(size.height, s, 8);
    assert(s.subrange(12, 12 + pixel_bytes(size)) =~= pixels);
}

/// Name of the file that the picture of a process is written to.
pub fn capture_name(pid: u32) -> (r: String)
    ensures
        r@ == text::decimal(pid as nat) + "-capture.bin"@,
{
    let mut out: Vec<char> = text::write_number(pid as u64);
    text::append_text(&mut out, "-capture.bin");
    text::text_of(out.as_slice())
}

/// What a file of a picture looks like: `VKSC`, the width and the height with
/// the smallest byte first, then the pixels.
pub proof fn lemma_capture_format(size: Extent, pixels: Seq<u8>)
    ensures
        ({
            let s = encoded(size, pixels);
            &&& s.len() == 12 + pixels.len()
            &&& s[0] == 0x56 && s[1] == 0x4b && s[2] == 0x53 && s[3] == 0x43
            &&& s[4] == size.width % 256 && s[7] == size.width / 0x100_0000
            &&& s[8] == size.height % 256 && s[11] == size.height / 0x100_0000
            &&& forall|i: int| 0 <= i < pixels.len() ==> s[12 + i] == #[trigger] pixels[i]
        }),
{
    let s = encoded(size, pixels);
    assert forall|i: int| 0 <= i < pixels.len() implies s[12 + i] == #[trigger] pixels[i] by {}
}

/// A file that is cut short, or that begins otherwise, holds no picture; what
/// stands behind the pixels does not matter.
pub proof fn lemma_what_is_a_picture(size: Extent, pixels: Seq<u8>, more: Seq<u8>, n: int)
    requires
        pixels.len() == pixel_bytes(size),
    ensures
        decodable(encoded(size, pixels) + more),
        claimed(encoded(size, pixels) + more) == size,
        0 <= n < encoded(size, pixels).len() ==> !decodable(encoded(size, pixels).take(n)),
        more.len() < 12 || more[0] != 0x56 || more[1] != 0x4b || more[2] != 0x53 || more[3] != 0x43
            ==> !decodable(more),
{
    let s = encoded(size, pixels);
    let t = s + more;
    lemma_capture_round_trip(size, pixels);
    assert(t.take(4) =~= s.take(4));
    assert(t[4] == s[4] && t[5] == s[5] && t[6] == s[6] && t[7] == s[7]);
    assert(t[8] == s[8] && t[9] == s[9] && t[10] == s[10] && t[11] == s[11]);
    if 12 <= n < s.len() {
        let c = s.take(n);
        assert(c[4] == s[4] && c[5] == s[5] && c[6] == s[6] && c[7] == s[7]);
        assert(c[8] == s[8] && c[9] == s[9] && c[10] == s[10] && c[11] == s[11]);
        assert(claimed(c) == size);
    }
    if decodable(more) {
        assert(more.take(4)[0] == more[0] && more.take(4)[1] == more[1]);
        assert(more.take(4)[2] == more[2] && more.take(4)[3] == more[3]);
    }
}

} // verus!
