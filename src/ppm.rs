use vstd::prelude::*;
use crate::pixel::Pixel;

verus! {

/// ASCII decimal digits of `n`, most significant first, without leading zeros.
pub open spec fn decimal(n: nat) -> Seq<u8>
    decreases n,
{
    if n < 10 {
        seq![(48 + n) as u8]
    } else {
        decimal(n / 10).push((48 + n % 10) as u8)
    }
}

/// The header of a binary PPM image: `P6`, the width and height in decimal,
/// and the largest channel value 255, each followed by one separator.
pub open spec fn ppm_header(width: nat, height: nat) -> Seq<u8> {
    seq![80u8, 54, 10] + decimal(width) + seq![32u8] + decimal(height) + seq![10u8, 50, 53, 53, 10]
}

/// The channels of `pixels` in order: red, green and blue of each pixel.
pub open spec fn rgb_bytes(pixels: Seq<Pixel>) -> Seq<u8>
    decreases pixels.len(),
{
    if pixels.len() == 0 {
        Seq::empty()
    } else {
        rgb_bytes(pixels.drop_last()) + seq![pixels.last().r, pixels.last().g, pixels.last().b]
    }
}

proof fn lemma_rgb_bytes_len(pixels: Seq<Pixel>)
    ensures
        rgb_bytes(pixels).len() == 3 * pixels.len(),
    decreases pixels.len(),
{
    if pixels.len() > 0 {
        lemma_rgb_bytes_len(pixels.drop_last());
    }
}

fn push_decimal(out: &mut Vec<u8>, n: u32)
    ensures
        final(out)@ == old(out)@ + decimal(n as nat),
    decreases n,
{
    if n >= 10 {
        push_decimal(out, n / 10);
    }
    out.push(48 + (n % 10) as u8);
    proof {
        if n < 10 {
            assert(decimal(n as nat) == seq![(48 + n) as u8]);
        }
    }
}

/// Encodes a frame as a binary PPM (P6) image: the header, then three bytes per
/// pixel, red, green and blue, in the order of `pixels`.
pub fn encode_ppm(width: u32, height: u32, pixels: &Vec<Pixel>) -> (r: Vec<u8>)
    ensures
        r@ == ppm_header(width as nat, height as nat) + rgb_bytes(pixels@),
        r@.len() == ppm_header(width as nat, height as nat).len() + 3 * pixels@.len(),
{
    let mut out: Vec<u8> = Vec::new();
    out.push(80);
    out.push(54);
    out.push(10);
    push_decimal(&mut out, width);
    out.push(32);
    push_decimal(&mut out, height);
    out.push(10);
    out.push(50);
    out.push(53);
    out.push(53);
    out.push(10);
    let ghost header = out@;
    assert(header =~= ppm_header(width as nat, height as nat));
    let mut i: usize = 0;
    while i < pixels.len()
        invariant
            i <= pixels.len(),
            out@ == header + rgb_bytes(pixels@.subrange(0, i as int)),
        decreases pixels.len() - i,
    {
        let p = pixels[i];
        proof {
            assert(pixels@.subrange(0, i + 1).drop_last() =~= pixels@.subrange(0, i as int));
        }
        out.push(p.r);
        out.push(p.g);
        out.push(p.b);
        assert(out@ =~= header + rgb_bytes(pixels@.subrange(0, i + 1)));
        i += 1;
    }
    proof {
        assert(pixels@.subrange(0, i as int) =~= pixels@);
        lemma_rgb_bytes_len(pixels@);
    }
    out
}

} // verus!
