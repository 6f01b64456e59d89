use vstd::prelude::*;

verus! {

/// The ASCII decimal digits of `n`, most significant first, without leading
/// zeros.
pub open spec fn decimal(n: nat) -> Seq<u8>
    decreases n,
{
    if n < 10 {
        seq![(48 + n) as u8]
    } else {
        decimal(n / 10) + seq![(48 + n % 10) as u8]
    }
}

/// The header of a plain (ASCII) PPM image of the given size, with channels
/// running to 255.
pub open spec fn header(width: nat, height: nat) -> Seq<u8> {
    seq![80u8, 51u8, 10u8] + decimal(width) + seq![32u8] + decimal(height) + seq![
        10u8,
        50u8,
        53u8,
        53u8,
        10u8,
    ]
}

/// One pixel's line: its three channels in decimal, separated by spaces.
pub open spec fn pixel_line(rgb: Seq<u8>) -> Seq<u8> {
    decimal(rgb[0] as nat) + seq![32u8] + decimal(rgb[1] as nat) + seq![32u8] + decimal(
        rgb[2] as nat,
    ) + seq![10u8]
}

/// The lines of pixels `0..n`, in order.
pub open spec fn pixel_lines(pixels: Seq<[u8; 3]>, n: int) -> Seq<u8>
    decreases n,
{
    if n <= 0 {
        Seq::empty()
    } else {
        pixel_lines(pixels, n - 1) + pixel_line(pixels[n - 1]@)
    }
}

/// Appends the decimal digits of `n`.
pub fn push_decimal(out: &mut Vec<u8>, n: u64)
    ensures
        final(out)@ == old(out)@ + decimal(n as nat),
    decreases n,
{
    if n >= 10 {
        push_decimal(out, n / 10);
    }
    let d = (n % 10) as u8;
    out.push(48 + d);
    assert(final(out)@ == old(out)@ + decimal(n as nat));
}

/// The header of a plain PPM image: the format's magic number, the width and
/// height, and the channel maximum 255, each line ended by a newline.
pub fn ppm_header(width: u32, height: u32) -> (r: Vec<u8>)
    ensures
        r@ == header(width as nat, height as nat),
{
    let mut out: Vec<u8> = Vec::new();
    out.push(80);
    out.push(51);
    out.push(10);
    push_decimal(&mut out, width as u64);
    out.push(32);
    push_decimal(&mut out, height as u64);
    out.push(10);
    out.push(50);
    out.push(53);
    out.push(53);
    out.push(10);
    assert(out@ =~= header(width as nat, height as nat));
    out
}

/// Appends one pixel's line.
pub fn push_pixel(out: &mut Vec<u8>, rgb: [u8; 3])
    ensures
        final(out)@ == old(out)@ + pixel_line(rgb@),
{
    let ghost start = out@;
    push_decimal(out, rgb[0] as u64);
    out.push(32);
    push_decimal(out, rgb[1] as u64);
    out.push(32);
    push_decimal(out, rgb[2] as u64);
    out.push(10);
    assert(out@ =~= start + pixel_line(rgb@));
}

/// A whole plain PPM image: the header, then one line per pixel in row-major
/// order, top row first.
pub fn ppm_image(width: u32, height: u32, pixels: &Vec<[u8; 3]>) -> (r: Vec<u8>)
    ensures
        r@ == header(width as nat, height as nat) + pixel_lines(pixels@, pixels.len() as int),
{
    let mut out = ppm_header(width, height);
    let mut i: usize = 0;
    while i < pixels.len()
        invariant
            i <= pixels.len(),
            out@ == header(width as nat, height as nat) + pixel_lines(pixels@, i as int),
        decreases pixels.len() - i,
    {
        push_pixel(&mut out, pixels[i]);
        assert(out@ =~= header(width as nat, height as nat) + pixel_lines(pixels@, i + 1));
        i = i + 1;
    }
    out
}

} // verus!
