//! Encoder for the plain-text image format: a header line
//! `P3 <width> <height> 255\n`, then one line `<R> <G> <B>\n` per pixel in
//! row-major order. R, G and B are the top three bytes of the packed
//! pixel value; the alpha byte is read but never emitted.

use vstd::prelude::*;

verus! {

/// The decimal digits of n as ASCII bytes, most significant first, with
/// no leading zeros (a single `0` for zero).
pub open spec fn dec_bytes(n: nat) -> Seq<u8>
    decreases n,
{
    if n < 10 {
        seq![(48 + n) as u8]
    } else {
        dec_bytes(n / 10) + seq![(48 + n % 10) as u8]
    }
}

/// The text line for one pixel: red, green and blue in decimal,
/// space-separated, newline-terminated.
pub open spec fn ppm_pixel_line(p: u32) -> Seq<u8> {
    dec_bytes((p >> 24) as nat) + seq![32u8] + dec_bytes(((p >> 16) & 0xff) as nat) + seq![32u8]
        + dec_bytes(((p >> 8) & 0xff) as nat) + seq![10u8]
}

/// The header line: `P3 <width> <height> 255\n`.
pub open spec fn ppm_header(w: nat, h: nat) -> Seq<u8> {
    seq![80u8, 51u8, 32u8] + dec_bytes(w) + seq![32u8] + dec_bytes(h) + seq![
        32u8,
        50u8,
        53u8,
        53u8,
        10u8,
    ]
}

/// The pixel lines of a buffer, in buffer order.
pub open spec fn ppm_body(pixels: Seq<u32>) -> Seq<u8>
    decreases pixels.len(),
{
    if pixels.len() == 0 {
        Seq::empty()
    } else {
        ppm_pixel_line(pixels[0]) + ppm_body(pixels.drop_first())
    }
}

/// The whole encoding: header, then one line per pixel.
pub open spec fn ppm_encoding(pixels: Seq<u32>, w: nat, h: nat) -> Seq<u8> {
    ppm_header(w, h) + ppm_body(pixels)
}

/// Appends the decimal digits of n to out.
pub fn push_dec(out: &mut Vec<u8>, n: usize)
    ensures
        final(out)@ == old(out)@ + dec_bytes(n as nat),
    decreases n,
{
    if n >= 10 {
        push_dec(out, n / 10);
        let d: u8 = (n % 10) as u8 + 48;
        out.push(d);
        proof {
            assert(out@ =~= old(out)@ + dec_bytes(n as nat));
        }
    } else {
        let d: u8 = n as u8 + 48;
        out.push(d);
        proof {
            assert(out@ =~= old(out)@ + dec_bytes(n as nat));
        }
    }
}

/// Extending the encoded prefix by one pixel appends that pixel's line.
proof fn lemma_ppm_body_snoc(s: Seq<u32>, i: int)
    requires
        0 <= i < s.len(),
    ensures
        ppm_body(s.take(i + 1)) == ppm_body(s.take(i)) + ppm_pixel_line(s[i]),
    decreases i,
{
    if i == 0 {
        assert(s.take(1).drop_first() =~= Seq::<u32>::empty());
        assert(s.take(0) =~= Seq::<u32>::empty());
        assert(ppm_body(s.take(i + 1)) =~= ppm_body(s.take(i)) + ppm_pixel_line(s[i]));
    } else {
        lemma_ppm_body_snoc(s.drop_first(), i - 1);
        assert(s.take(i + 1).drop_first() =~= s.drop_first().take(i));
        assert(s.take(i).drop_first() =~= s.drop_first().take(i - 1));
        assert(ppm_body(s.take(i + 1)) =~= ppm_body(s.take(i)) + ppm_pixel_line(s[i]));
    }
}

/// Encodes a pixel buffer of the given dimensions as the text format's
/// exact byte sequence.
#[verifier::loop_isolation(false)]
pub fn ppm_bytes(pixels: &Vec<u32>, width: usize, height: usize) -> (out: Vec<u8>)
    ensures
        out@ == ppm_encoding(pixels@, width as nat, height as nat),
{
    let mut out: Vec<u8> = Vec::new();
    out.push(80u8);
    out.push(51u8);
    out.push(32u8);
    push_dec(&mut out, width);
    out.push(32u8);
    push_dec(&mut out, height);
    out.push(32u8);
    out.push(50u8);
    out.push(53u8);
    out.push(53u8);
    out.push(10u8);
    proof {
        assert(out@ =~= ppm_header(width as nat, height as nat));
        assert(pixels@.take(0) =~= Seq::<u32>::empty());
    }
    let n = pixels.len();
    let mut i: usize = 0;
    while i < n
        invariant
            i <= n,
            n == pixels@.len(),
            out@ == ppm_header(width as nat, height as nat) + ppm_body(pixels@.take(i as int)),
        decreases n - i,
    {
        let p = pixels[i];
        push_dec(&mut out, (p >> 24) as usize);
        out.push(32u8);
        push_dec(&mut out, ((p >> 16) & 0xff) as usize);
        out.push(32u8);
        push_dec(&mut out, ((p >> 8) & 0xff) as usize);
        out.push(10u8);
        proof {
            lemma_ppm_body_snoc(pixels@, i as int);
            assert(out@ =~= ppm_header(width as nat, height as nat) + ppm_body(
                pixels@.take(i + 1),
            ));
        }
        i = i + 1;
    }
    proof {
        assert(pixels@.take(n as int) =~= pixels@);
    }
    out
}

} // verus!
