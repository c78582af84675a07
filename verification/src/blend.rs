//! Alpha blending of packed ARGB colours (`0xAARRGGBB`, as `orbclient`
//! stores them).

use vstd::prelude::*;

verus! {

/// Channel `shift / 8` of a packed colour: 24 alpha, 16 red, 8 green, 0 blue.
pub open spec fn channel(c: u32, shift: u32) -> u32 {
    (c >> shift) & 0xFF
}

/// The packed colour of four channels.
pub open spec fn pack(a: u32, r: u32, g: u32, b: u32) -> u32 {
    (a << 24u32) | (r << 16u32) | (g << 8u32) | b
}

/// `Color::rgba`: the packed colour of red, green, blue and alpha.
pub fn rgba(r: u8, g: u8, b: u8, a: u8) -> (c: u32)
    ensures
        c == pack(a as u32, r as u32, g as u32, b as u32),
        channel(c, 24) == a,
        channel(c, 16) == r,
        channel(c, 8) == g,
        channel(c, 0) == b,
{
    let c = ((a as u32) << 24) | ((r as u32) << 16) | ((g as u32) << 8) | (b as u32);
    let (a32, r32, g32, b32) = (a as u32, r as u32, g as u32, b as u32);
    assert(channel(c, 24) == a32 && channel(c, 16) == r32 && channel(c, 8) == g32 && channel(c, 0)
        == b32) by (bit_vector)
        requires
            c == (a32 << 24u32) | (r32 << 16u32) | (g32 << 8u32) | b32,
            a32 < 256 && r32 < 256 && g32 < 256 && b32 < 256,
    ;
    c
}

/// `Color::rgb`: an opaque colour.
pub fn rgb(r: u8, g: u8, b: u8) -> (c: u32)
    ensures
        c == pack(255, r as u32, g as u32, b as u32),
{
    rgba(r, g, b, 255)
}

/// One channel of the blend: the destination weighted by `255 - a`, the
/// source by `a`, out of 256.
pub open spec fn mix(dc: u32, sc: u32, a: u32) -> u32 {
    (((255 - a) * dc + a * sc) / 256) as u32
}

/// The colour of destination pixel `d` after source pixel `s` is blended
/// over it: unchanged under a transparent source, replaced by an opaque one,
/// else each colour channel mixed by the source alpha, and the alpha raised
/// to `a + (255 - a) * alpha(d) / 256`.
pub open spec fn blend_pixel(d: u32, s: u32) -> u32 {
    let a = channel(s, 24);
    if a == 0 {
        d
    } else if a == 255 {
        s
    } else {
        pack(
            (((255 - a) * channel(d, 24)) / 256 + a) as u32,
            mix(channel(d, 16), channel(s, 16), a),
            mix(channel(d, 8), channel(s, 8), a),
            mix(channel(d, 0), channel(s, 0), a),
        )
    }
}

/// Blends source pixel `s` over destination pixel `d`.
pub fn blend(d: u32, s: u32) -> (c: u32)
    ensures
        c == blend_pixel(d, s),
{
    let a = (s >> 24) & 0xFF;
    if a == 0 {
        return d;
    }
    if a >= 255 {
        assert(a == 255) by (bit_vector)
            requires
                a == (s >> 24u32) & 0xFF,
                a >= 255,
        ;
        return s;
    }
    let n_alpha = 255 - a;
    assert(n_alpha * (d & 0x00FF00FF) + a * (s & 0x00FF00FF) <= u32::MAX && n_alpha * ((d
        & 0xFF00FF00) >> 8) + a * (0x01000000 | ((s & 0x0000FF00) >> 8)) <= u32::MAX)
        by (bit_vector)
        requires
            0 < a < 255,
            n_alpha == 255 - a,
    ;
    let rb = ((n_alpha * (d & 0x00FF00FF)) + (a * (s & 0x00FF00FF))) >> 8;
    let ag = (n_alpha * ((d & 0xFF00FF00) >> 8)) + (a * (0x01000000 | ((s & 0x0000FF00) >> 8)));
    let c = (rb & 0x00FF00FF) | (ag & 0xFF00FF00);
    assert(channel(c, 0) == ((n_alpha * ((d >> 0u32) & 0xFF) + a * ((s >> 0u32) & 0xFF)) / 256) as u32)
        by (bit_vector)
        requires
            0 < a < 255,
            n_alpha == 255 - a,
            rb == ((n_alpha * (d & 0x00FF00FF) + a * (s & 0x00FF00FF)) as u32) >> 8u32,
            (n_alpha * (d & 0x00FF00FF) + a * (s & 0x00FF00FF)) <= u32::MAX,
            c == (rb & 0x00FF00FF) | (ag & 0xFF00FF00),
    ;
    assert(channel(c, 16) == ((n_alpha * ((d >> 16u32) & 0xFF) + a * ((s >> 16u32) & 0xFF)) / 256) as u32)
        by (bit_vector)
        requires
            0 < a < 255,
            n_alpha == 255 - a,
            rb == ((n_alpha * (d & 0x00FF00FF) + a * (s & 0x00FF00FF)) as u32) >> 8u32,
            (n_alpha * (d & 0x00FF00FF) + a * (s & 0x00FF00FF)) <= u32::MAX,
            c == (rb & 0x00FF00FF) | (ag & 0xFF00FF00),
    ;
    assert(channel(c, 8) == ((n_alpha * ((d >> 8u32) & 0xFF) + a * ((s >> 8u32) & 0xFF)) / 256) as u32)
        by (bit_vector)
        requires
            0 < a < 255,
            n_alpha == 255 - a,
            ag == (n_alpha * ((d & 0xFF00FF00) >> 8u32) + a * (0x01000000 | ((s & 0x0000FF00) >> 8u32))) as u32,
            (n_alpha * ((d & 0xFF00FF00) >> 8u32) + a * (0x01000000 | ((s & 0x0000FF00) >> 8u32))) <= u32::MAX,
            c == (rb & 0x00FF00FF) | (ag & 0xFF00FF00),
    ;
    assert(channel(c, 24) == ((n_alpha * ((d >> 24u32) & 0xFF)) / 256 + a) as u32) by (bit_vector)
        requires
            0 < a < 255,
            n_alpha == 255 - a,
            ag == (n_alpha * ((d & 0xFF00FF00) >> 8u32) + a * (0x01000000 | ((s & 0x0000FF00) >> 8u32))) as u32,
            (n_alpha * ((d & 0xFF00FF00) >> 8u32) + a * (0x01000000 | ((s & 0x0000FF00) >> 8u32))) <= u32::MAX,
            c == (rb & 0x00FF00FF) | (ag & 0xFF00FF00),
    ;
    assert(c == pack(channel(c, 24), channel(c, 16), channel(c, 8), channel(c, 0))) by (bit_vector);
    c
}

/// The bytes `r, g, b, a` of each colour, in order.
pub open spec fn spec_rgba_bytes(colors: Seq<u32>) -> Seq<u8> {
    Seq::new(
        colors.len() * 4,
        |i: int|
            {
                let c = colors[i / 4];
                let shift: u32 = if i % 4 == 0 {
                    16
                } else if i % 4 == 1 {
                    8
                } else if i % 4 == 2 {
                    0
                } else {
                    24
                };
                channel(c, shift) as u8
            },
    )
}

/// The colours of consecutive `r, g, b, a` byte quadruples; a trailing
/// partial quadruple is dropped.
pub open spec fn spec_colors_of_rgba(bytes: Seq<u8>) -> Seq<u32> {
    Seq::new(
        bytes.len() / 4,
        |i: int|
            pack(
                bytes[4 * i + 3] as u32,
                bytes[4 * i] as u32,
                bytes[4 * i + 1] as u32,
                bytes[4 * i + 2] as u32,
            ),
    )
}

fn channel_byte(c: u32, shift: u32) -> (b: u8)
    requires
        shift == 0 || shift == 8 || shift == 16 || shift == 24,
    ensures
        b == channel(c, shift) as u8,
{
    ((c >> shift) & 0xFF) as u8
}

/// The RGBA bytes of a picture, as the cache writes it to disk.
pub fn rgba_bytes(colors: &[u32]) -> (bytes: Vec<u8>)
    requires
        colors@.len() * 4 <= usize::MAX,
    ensures
        bytes@ == spec_rgba_bytes(colors@),
{
    let mut out: Vec<u8> = Vec::new();
    let mut i: usize = 0;
    while i < colors.len()
        invariant
            i <= colors@.len(),
            colors@.len() * 4 <= usize::MAX,
            out@ == spec_rgba_bytes(colors@.take(i as int)),
        decreases colors.len() - i,
    {
        let c = colors[i];
        out.push(channel_byte(c, 16));
        out.push(channel_byte(c, 8));
        out.push(channel_byte(c, 0));
        out.push(channel_byte(c, 24));
        proof {
            let t = colors@.take(i + 1);
            assert forall|k: int| 0 <= k < t.len() * 4 implies #[trigger] spec_rgba_bytes(t)[k]
                == out@[k] by {
                if k < 4 * i {
                    assert(colors@.take(i as int)[k / 4] == t[k / 4]);
                } else {
                    assert(k / 4 == i);
                }
            }
            assert(out@ =~= spec_rgba_bytes(t));
        }
        i = i + 1;
    }
    assert(colors@.take(colors@.len() as int) =~= colors@);
    out
}

/// The colours of an RGBA byte buffer, as a rendered SVG icon gives it.
pub fn colors_of_rgba(bytes: &[u8]) -> (colors: Vec<u32>)
    ensures
        colors@ == spec_colors_of_rgba(bytes@),
{
    let mut out: Vec<u32> = Vec::new();
    let n = bytes.len() / 4;
    let mut i: usize = 0;
    while i < n
        invariant
            i <= n == bytes@.len() / 4,
            out@.len() == i,
            forall|k: int| 0 <= k < i ==> #[trigger] out@[k] == spec_colors_of_rgba(bytes@)[k],
        decreases n - i,
    {
        assert(4 * i + 3 < bytes@.len()) by (nonlinear_arith)
            requires
                i < n,
                n == bytes@.len() / 4,
        ;
        assert(bytes@.len() == bytes.len());
        let base: usize = 4 * i;
        let c = rgba(bytes[base], bytes[base + 1], bytes[base + 2], bytes[base + 3]);
        out.push(c);
        i = i + 1;
    }
    assert(out@ =~= spec_colors_of_rgba(bytes@));
    out
}

/// Writing a picture as RGBA bytes and reading the bytes back gives the
/// picture again, and the other way round for whole quadruples.
pub proof fn lemma_rgba_round_trip(colors: Seq<u32>, bytes: Seq<u8>)
    ensures
        spec_colors_of_rgba(spec_rgba_bytes(colors)) == colors,
        bytes.len() % 4 == 0 ==> spec_rgba_bytes(spec_colors_of_rgba(bytes)) == bytes,
{
    let b = spec_rgba_bytes(colors);
    assert forall|i: int| 0 <= i < colors.len() implies #[trigger] spec_colors_of_rgba(b)[i]
        == colors[i] by {
        let c = colors[i];
        assert(b[4 * i] == channel(c, 16) as u8);
        assert(b[4 * i + 1] == channel(c, 8) as u8);
        assert(b[4 * i + 2] == channel(c, 0) as u8);
        assert(b[4 * i + 3] == channel(c, 24) as u8);
        assert(pack(
            (channel(c, 24) as u8) as u32,
            (channel(c, 16) as u8) as u32,
            (channel(c, 8) as u8) as u32,
            (channel(c, 0) as u8) as u32,
        ) == c) by (bit_vector);
    }
    assert(spec_colors_of_rgba(b) =~= colors);
    if bytes.len() % 4 == 0 {
        let c = spec_colors_of_rgba(bytes);
        assert forall|k: int| 0 <= k < bytes.len() implies #[trigger] spec_rgba_bytes(c)[k]
            == bytes[k] by {
            let i = k / 4;
            let (r, g, bl, a) = (bytes[4 * i], bytes[4 * i + 1], bytes[4 * i + 2], bytes[4 * i + 3]);
            assert(channel(pack(a as u32, r as u32, g as u32, bl as u32), 16) as u8 == r
                && channel(pack(a as u32, r as u32, g as u32, bl as u32), 8) as u8 == g
                && channel(pack(a as u32, r as u32, g as u32, bl as u32), 0) as u8 == bl
                && channel(pack(a as u32, r as u32, g as u32, bl as u32), 24) as u8 == a)
                by (bit_vector);
        }
        assert(spec_rgba_bytes(c) =~= bytes);
    }
}

} // verus!
