//! The format's global guarantees, chief among them that decoding an
//! encoded stream reproduces the original pixel buffer exactly.

use vstd::prelude::*;
use vstd::arithmetic::div_mod::lemma_div_denominator;
use vstd::arithmetic::div_mod::lemma_fundamental_div_mod;
use vstd::arithmetic::div_mod::lemma_fundamental_div_mod_converse;
use vstd::arithmetic::mul::lemma_mul_inequality;
use vstd::arithmetic::div_mod::lemma_mod_multiples_basic;
use crate::format::{
    QoiError, QoiHeader, QoiPixel, be_bytes_of_u32, byte_add, byte_sub,
    bytes_of_pixels, channel_count, channels_byte, colorspace_byte, footer_bytes, hash_of,
    header_bytes, init_cache, init_prev, pixel_at, pixels_of_bytes, u32_of_be,
};
use crate::encode::{
    diff_byte, diff_field, encode_pixels, flush_bytes, lemma_encode_cache_miss,
    lemma_encode_index_hit, lemma_encode_run_extend, lemma_encode_run_flush, luma_byte0,
    luma_byte1, luma_green_field, luma_green_ok, luma_rb_field, luma_rb_ok, pixel_chunk, run_byte,
    small_delta, spec_encode,
};
use crate::decode::{decode_chunks, prepend_decoded, spec_decode};

verus! {

/// `n` copies of one pixel.
pub open spec fn repeat_pixel(p: QoiPixel, n: int) -> Seq<QoiPixel> {
    Seq::new(n as nat, |q: int| p)
}

/// The four big-endian bytes of a 32-bit value read back as that value.
pub proof fn lemma_u32_be_round_trip(x: u32)
    ensures
        u32_of_be(
            be_bytes_of_u32(x)[0],
            be_bytes_of_u32(x)[1],
            be_bytes_of_u32(x)[2],
            be_bytes_of_u32(x)[3],
        ) == x,
{
    lemma_fundamental_div_mod(x as int, 0x100);
    lemma_fundamental_div_mod(x as int / 0x100, 0x100);
    lemma_fundamental_div_mod(x as int / 0x10000, 0x100);
    lemma_fundamental_div_mod(x as int, 0x1000000);
    lemma_div_denominator(x as int, 0x100, 0x100);
    lemma_div_denominator(x as int, 0x10000, 0x100);
    if x as int / 0x1000000 >= 0x100 {
        lemma_mul_inequality(0x100, x as int / 0x1000000, 0x1000000);
        assert(false);
    }
    assert(x as int / 0x1000000 < 0x100);
}

/// Reading a raw buffer as pixels and writing those pixels back yields
/// the same buffer, provided the buffer holds whole pixels.
pub proof fn lemma_pixels_bytes_inverse(bytes: Seq<u8>, ch: int)
    requires
        ch == 3 || ch == 4,
        bytes.len() as int % ch == 0,
    ensures
        bytes_of_pixels(pixels_of_bytes(bytes, ch), ch) == bytes,
    decreases bytes.len(),
{
    let ps = pixels_of_bytes(bytes, ch);
    if bytes.len() == 0 {
        assert(bytes_of_pixels(ps, ch) =~= bytes);
    } else {
        lemma_fundamental_div_mod(bytes.len() as int, ch);
        let q = bytes.len() as int / ch;
        assert(bytes.len() == ch * q);
        assert(q >= 1) by (nonlinear_arith)
            requires
                ch * q > 0,
                ch > 0,
        ;
        lemma_mul_inequality(1, q, ch);
        assert(bytes.len() >= ch);
        let rest = bytes.skip(ch);
        assert(rest.len() as int % ch == 0) by {
            assert(rest.len() as int == ch * (q - 1)) by (nonlinear_arith)
                requires
                    rest.len() as int == ch * q - ch,
            ;
            lemma_fundamental_div_mod_converse(rest.len() as int, ch, q - 1, 0);
        }
        lemma_pixels_bytes_inverse(rest, ch);
        assert(ps.len() == q);
        assert(ps.drop_first() =~= pixels_of_bytes(rest, ch)) by {
            assert(pixels_of_bytes(rest, ch).len() == q - 1) by {
                lemma_fundamental_div_mod_converse(rest.len() as int, ch, q - 1, 0);
            }
            assert forall|i: int| 0 <= i < q - 1 implies ps.drop_first()[i] == pixels_of_bytes(
                rest,
                ch,
            )[i] by {
                assert(ch * (i + 1) == ch * i + ch) by (nonlinear_arith);
                assert(ps.drop_first()[i] == pixel_at(bytes, ch, i + 1));
                assert(pixels_of_bytes(rest, ch)[i] == pixel_at(rest, ch, i));
            }
        }
        assert(bytes_of_pixels(ps, ch) == crate::format::pixel_bytes(ps[0], ch) + bytes_of_pixels(
            ps.drop_first(),
            ch,
        ));
        assert(crate::format::pixel_bytes(ps[0], ch) + rest =~= bytes);
    }
}

/// A DIFF chunk built from in-range wrapped deltas decodes back to the
/// exact pixel it was built from.
pub proof fn lemma_diff_chunk_decodes(prev: QoiPixel, p: QoiPixel)
    requires
        p.a == prev.a,
        small_delta(byte_sub(p.r as int, prev.r as int)),
        small_delta(byte_sub(p.g as int, prev.g as int)),
        small_delta(byte_sub(p.b as int, prev.b as int)),
    ensures
        ({
            let dr = byte_sub(p.r as int, prev.r as int);
            let dg = byte_sub(p.g as int, prev.g as int);
            let db = byte_sub(p.b as int, prev.b as int);
            let b = diff_byte(dr, dg, db) as int;
            let d = b - 64;
            &&& 64 <= b < 128
            &&& byte_add(prev.r as int, d / 16 - 2) == p.r
            &&& byte_add(prev.g as int, (d % 16) / 4 - 2) == p.g
            &&& byte_add(prev.b as int, d % 4 - 2) == p.b
        }),
{
    let dr = byte_sub(p.r as int, prev.r as int);
    let dg = byte_sub(p.g as int, prev.g as int);
    let db = byte_sub(p.b as int, prev.b as int);
    let fr = diff_field(dr);
    let fg = diff_field(dg);
    let fb = diff_field(db);
    let b = diff_byte(dr, dg, db) as int;
    let d = b - 64;
    assert(d == 16 * fr + 4 * fg + fb);
    lemma_fundamental_div_mod_converse(d, 16, fr, 4 * fg + fb);
    lemma_fundamental_div_mod_converse(d % 16, 4, fg, fb);
    lemma_fundamental_div_mod_converse(d, 4, 4 * fr + fg, fb);
}

/// A LUMA chunk built from in-range wrapped deltas decodes back to the
/// exact pixel it was built from.
pub proof fn lemma_luma_chunk_decodes(prev: QoiPixel, p: QoiPixel)
    requires
        p.a == prev.a,
        luma_green_ok(byte_sub(p.g as int, prev.g as int)),
        luma_rb_ok(
            byte_sub(byte_sub(p.r as int, prev.r as int), byte_sub(p.g as int, prev.g as int)),
        ),
        luma_rb_ok(
            byte_sub(byte_sub(p.b as int, prev.b as int), byte_sub(p.g as int, prev.g as int)),
        ),
    ensures
        ({
            let dg = byte_sub(p.g as int, prev.g as int);
            let dgr = byte_sub(byte_sub(p.r as int, prev.r as int), dg);
            let dgb = byte_sub(byte_sub(p.b as int, prev.b as int), dg);
            let b0 = luma_byte0(dg) as int;
            let b1 = luma_byte1(dgr, dgb) as int;
            &&& 128 <= b0 < 192
            &&& byte_add(byte_add(prev.r as int, b0 - 160), b1 / 16 - 8) == p.r
            &&& byte_add(prev.g as int, b0 - 160) == p.g
            &&& byte_add(byte_add(prev.b as int, b0 - 160), b1 % 16 - 8) == p.b
        }),
{
    let dg = byte_sub(p.g as int, prev.g as int);
    let dgr = byte_sub(byte_sub(p.r as int, prev.r as int), dg);
    let dgb = byte_sub(byte_sub(p.b as int, prev.b as int), dg);
    let fr = luma_rb_field(dgr);
    let fb = luma_rb_field(dgb);
    let b1 = luma_byte1(dgr, dgb) as int;
    assert(b1 == 16 * fr + fb);
    lemma_fundamental_div_mod_converse(b1, 16, fr, fb);
    assert(luma_byte0(dg) as int - 160 == luma_green_field(dg) - 32);
}

/// A pending run flushed ahead of further chunks decodes to that many
/// copies of the previous pixel, followed by whatever the rest decodes
/// to.
proof fn lemma_flush_prepend(
    f_run: int,
    ct: Seq<u8>,
    cache: Seq<QoiPixel>,
    prev: QoiPixel,
    inner: Seq<QoiPixel>,
)
    requires
        0 <= f_run <= 62,
        decode_chunks(ct, cache, prev) == Some(inner),
    ensures
        decode_chunks(flush_bytes(f_run) + ct, cache, prev) == Some(
            repeat_pixel(prev, f_run) + inner,
        ),
{
    if f_run == 0 {
        assert(flush_bytes(0) + ct =~= ct);
        assert(repeat_pixel(prev, 0) + inner =~= inner);
    } else {
        let full = flush_bytes(f_run) + ct;
        assert(full[0] == run_byte(f_run));
        assert(run_byte(f_run) as int == 191 + f_run);
        assert(full.skip(1) =~= ct);
        assert(decode_chunks(full, cache, prev) =~= Some(repeat_pixel(prev, f_run) + inner));
    }
}

/// The DIFF, LUMA, RGB or RGBA chunk the encoder emits for one changed,
/// cache-missing pixel decodes back to exactly that pixel, leaving the
/// decoder in the encoder's state.
#[verifier::rlimit(100)]
proof fn lemma_pixel_chunk_decodes(
    prev: QoiPixel,
    p: QoiPixel,
    t: Seq<u8>,
    rest: Seq<QoiPixel>,
    cache: Seq<QoiPixel>,
)
    requires
        decode_chunks(t, cache.update(hash_of(p), p), p) == Some(rest),
    ensures
        decode_chunks(pixel_chunk(prev, p) + t, cache, prev) == Some(seq![p] + rest),
{
    let chunk = pixel_chunk(prev, p);
    let ct = chunk + t;
    if p.a == prev.a {
        let dr = byte_sub(p.r as int, prev.r as int);
        let dg = byte_sub(p.g as int, prev.g as int);
        let db = byte_sub(p.b as int, prev.b as int);
        if small_delta(dr) && small_delta(dg) && small_delta(db) {
            lemma_diff_chunk_decodes(prev, p);
            assert(chunk == seq![diff_byte(dr, dg, db)]);
            assert(ct[0] == diff_byte(dr, dg, db));
            assert(ct.skip(1) =~= t);
            let b = ct[0] as int;
            let d = b - 64;
            let pp = QoiPixel {
                r: byte_add(prev.r as int, d / 16 - 2) as u8,
                g: byte_add(prev.g as int, (d % 16) / 4 - 2) as u8,
                b: byte_add(prev.b as int, d % 4 - 2) as u8,
                a: prev.a,
            };
            assert(pp == p);
            assert(decode_chunks(ct, cache, prev) == Some(seq![p] + rest));
        } else {
            let dgr = byte_sub(dr, dg);
            let dgb = byte_sub(db, dg);
            if luma_green_ok(dg) && luma_rb_ok(dgr) && luma_rb_ok(dgb) {
                lemma_luma_chunk_decodes(prev, p);
                assert(chunk == seq![luma_byte0(dg), luma_byte1(dgr, dgb)]);
                assert(ct[0] == luma_byte0(dg));
                assert(ct[1] == luma_byte1(dgr, dgb));
                assert(ct.len() >= 2);
                assert(ct.skip(2) =~= t);
                let b0 = ct[0] as int;
                let b1 = ct[1] as int;
                let pp = QoiPixel {
                    r: byte_add(byte_add(prev.r as int, b0 - 160), b1 / 16 - 8) as u8,
                    g: byte_add(prev.g as int, b0 - 160) as u8,
                    b: byte_add(byte_add(prev.b as int, b0 - 160), b1 % 16 - 8) as u8,
                    a: prev.a,
                };
                assert(pp == p);
                assert(decode_chunks(ct, cache, prev) == Some(seq![p] + rest));
            } else {
                assert(chunk == seq![254u8, p.r, p.g, p.b]);
                assert(ct[0] == 254u8);
                assert(ct[1] == p.r);
                assert(ct[2] == p.g);
                assert(ct[3] == p.b);
                assert(ct.len() >= 4);
                assert(ct.skip(4) =~= t);
                assert(decode_chunks(ct, cache, prev) == Some(seq![p] + rest));
            }
        }
    } else {
        assert(chunk == seq![255u8, p.r, p.g, p.b, p.a]);
        assert(ct[0] == 255u8);
        assert(ct[1] == p.r);
        assert(ct[2] == p.g);
        assert(ct[3] == p.b);
        assert(ct[4] == p.a);
        assert(ct.len() >= 5);
        assert(ct.skip(5) =~= t);
        assert(decode_chunks(ct, cache, prev) == Some(seq![p] + rest));
    }
}

/// Round-trip induction, case of a run flushed at length 62 or at the
/// last pixel.
#[verifier::rlimit(100)]
proof fn lemma_chunks_rt_equal_flush(
    ps: Seq<QoiPixel>,
    cache: Seq<QoiPixel>,
    prev: QoiPixel,
    run: int,
)
    requires
        cache.len() == 64,
        0 <= run <= 61,
        ps.len() > 0,
        ps[0] == prev,
        run + 1 == 62 || ps.len() == 1,
    ensures
        decode_chunks(encode_pixels(ps, cache, prev, run), cache, prev) == Some(
            repeat_pixel(prev, run) + ps,
        ),
    decreases ps.len(), 0int,
{
    let rest = ps.drop_first();
    lemma_encode_run_flush(ps, cache, prev, run);
    lemma_chunks_round_trip(rest, cache, prev, 0);
    let t = encode_pixels(rest, cache, prev, 0);
    assert(repeat_pixel(prev, 0) + rest =~= rest);
    assert(decode_chunks(t, cache, prev) == Some(rest));
    lemma_flush_prepend(run + 1, t, cache, prev, rest);
    assert(flush_bytes(run + 1) == seq![run_byte(run + 1)]);
    assert(repeat_pixel(prev, run + 1) + rest =~= repeat_pixel(prev, run) + ps);
}

/// Round-trip induction, case of a run quietly absorbing one more
/// pixel.
#[verifier::rlimit(100)]
proof fn lemma_chunks_rt_equal_extend(
    ps: Seq<QoiPixel>,
    cache: Seq<QoiPixel>,
    prev: QoiPixel,
    run: int,
)
    requires
        cache.len() == 64,
        0 <= run <= 61,
        ps.len() > 1,
        ps[0] == prev,
        run + 1 != 62,
    ensures
        decode_chunks(encode_pixels(ps, cache, prev, run), cache, prev) == Some(
            repeat_pixel(prev, run) + ps,
        ),
    decreases ps.len(), 0int,
{
    let rest = ps.drop_first();
    lemma_encode_run_extend(ps, cache, prev, run);
    lemma_chunks_round_trip(rest, cache, prev, run + 1);
    assert(repeat_pixel(prev, run + 1) + rest =~= repeat_pixel(prev, run) + ps);
}

/// Round-trip induction, case of a pixel equal to the previous one.
proof fn lemma_chunks_rt_equal(ps: Seq<QoiPixel>, cache: Seq<QoiPixel>, prev: QoiPixel, run: int)
    requires
        cache.len() == 64,
        0 <= run <= 61,
        ps.len() > 0,
        ps[0] == prev,
    ensures
        decode_chunks(encode_pixels(ps, cache, prev, run), cache, prev) == Some(
            repeat_pixel(prev, run) + ps,
        ),
    decreases ps.len(), 1int,
{
    if run + 1 == 62 || ps.len() == 1 {
        lemma_chunks_rt_equal_flush(ps, cache, prev, run);
    } else {
        lemma_chunks_rt_equal_extend(ps, cache, prev, run);
    }
}

/// Round-trip induction, case of a pixel that differs from the
/// previous one.
#[verifier::rlimit(100)]
proof fn lemma_chunks_rt_changed(
    ps: Seq<QoiPixel>,
    cache: Seq<QoiPixel>,
    prev: QoiPixel,
    run: int,
)
    requires
        cache.len() == 64,
        0 <= run <= 61,
        ps.len() > 0,
        ps[0] != prev,
    ensures
        decode_chunks(encode_pixels(ps, cache, prev, run), cache, prev) == Some(
            repeat_pixel(prev, run) + ps,
        ),
    decreases ps.len(), 0int,
{
    let p = ps[0];
    let rest = ps.drop_first();
    let h = hash_of(p);
    if cache[h] == p {
        lemma_encode_index_hit(ps, cache, prev, run);
        lemma_chunks_round_trip(rest, cache, p, 0);
        let t = encode_pixels(rest, cache, p, 0);
        let ct = seq![hash_of(p) as u8] + t;
        assert(repeat_pixel(p, 0) + rest =~= rest);
        assert(ct[0] == hash_of(p) as u8);
        assert(0 <= h < 64);
        assert(ct.skip(1) =~= t);
        assert(decode_chunks(ct, cache, prev) == Some(seq![p] + rest));
        lemma_flush_prepend(run, ct, cache, prev, seq![p] + rest);
        assert(repeat_pixel(prev, run) + (seq![p] + rest) =~= repeat_pixel(prev, run) + ps);
    } else {
        lemma_encode_cache_miss(ps, cache, prev, run);
        let c2 = cache.update(h, p);
        lemma_chunks_round_trip(rest, c2, p, 0);
        let t = encode_pixels(rest, c2, p, 0);
        let ct = pixel_chunk(prev, p) + t;
        assert(repeat_pixel(p, 0) + rest =~= rest);
        assert(decode_chunks(t, c2, p) == Some(rest));
        lemma_pixel_chunk_decodes(prev, p, t, rest, cache);
        lemma_flush_prepend(run, ct, cache, prev, seq![p] + rest);
        assert(repeat_pixel(prev, run) + (seq![p] + rest) =~= repeat_pixel(prev, run) + ps);
    }
}

/// Decoding the chunk stream the encoder emits for `ps`, from the same
/// cache and previous pixel and with `run` pixels of pending run,
/// yields those pending pixels followed by `ps` exactly.
pub proof fn lemma_chunks_round_trip(
    ps: Seq<QoiPixel>,
    cache: Seq<QoiPixel>,
    prev: QoiPixel,
    run: int,
)
    requires
        cache.len() == 64,
        0 <= run <= 61,
        run > 0 ==> ps.len() > 0,
    ensures
        decode_chunks(encode_pixels(ps, cache, prev, run), cache, prev) == Some(
            repeat_pixel(prev, run) + ps,
        ),
    decreases ps.len(), 2int,
{
    if ps.len() == 0 {
        let enc = encode_pixels(ps, cache, prev, run);
        assert(enc == Seq::<u8>::empty());
        assert(decode_chunks(enc, cache, prev) == Some(Seq::<QoiPixel>::empty()));
        assert(repeat_pixel(prev, run) + ps =~= Seq::<QoiPixel>::empty());
    } else if ps[0] == prev {
        lemma_chunks_rt_equal(ps, cache, prev, run);
    } else {
        lemma_chunks_rt_changed(ps, cache, prev, run);
    }
}

/// Round trip: decoding an encoded stream reproduces the pixel buffer
/// and the header exactly, alpha included, for every buffer consistent
/// with its header's dimensions and channel count.
#[verifier::rlimit(100)]
pub proof fn lemma_round_trip(pixels: Seq<u8>, h: QoiHeader)
    requires
        pixels.len() == h.width * h.height * channel_count(h.channels),
    ensures
        spec_decode(spec_encode(pixels, h)) == Ok::<(Seq<u8>, QoiHeader), QoiError>((pixels, h)),
{
    let ch = channel_count(h.channels);
    let data = spec_encode(pixels, h);
    let hb = header_bytes(h);
    let ps = pixels_of_bytes(pixels, ch);
    let chunks = encode_pixels(ps, init_cache(), init_prev(), 0);
    assert(data == hb + chunks + footer_bytes());
    assert(hb.len() == 14);
    assert(data.len() == 22 + chunks.len());
    assert(data[12] == channels_byte(h.channels));
    assert(data[13] == colorspace_byte(h.colorspace));
    lemma_u32_be_round_trip(h.width);
    lemma_u32_be_round_trip(h.height);
    assert(data[4] == be_bytes_of_u32(h.width)[0]);
    assert(data[5] == be_bytes_of_u32(h.width)[1]);
    assert(data[6] == be_bytes_of_u32(h.width)[2]);
    assert(data[7] == be_bytes_of_u32(h.width)[3]);
    assert(data[8] == be_bytes_of_u32(h.height)[0]);
    assert(data[9] == be_bytes_of_u32(h.height)[1]);
    assert(data[10] == be_bytes_of_u32(h.height)[2]);
    assert(data[11] == be_bytes_of_u32(h.height)[3]);
    assert(data.subrange(14, data.len() - 8) =~= chunks);
    assert(init_cache().len() == 64);
    lemma_chunks_round_trip(ps, init_cache(), init_prev(), 0);
    assert(repeat_pixel(init_prev(), 0) + ps =~= ps);
    assert(decode_chunks(chunks, init_cache(), init_prev()) == Some(ps));
    lemma_mod_multiples_basic(h.width * h.height, ch);
    assert(pixels.len() as int % ch == 0);
    lemma_pixels_bytes_inverse(pixels, ch);
    assert(spec_decode(data) == Ok::<(Seq<u8>, QoiHeader), QoiError>((pixels, h)));
}

/// Encoding is a pure function of the pixel buffer and the header:
/// equal inputs always yield byte-identical streams, whatever happened
/// before — the pixel cache is rebuilt from scratch on every call.
pub proof fn lemma_encode_deterministic(
    pixels1: Seq<u8>,
    h1: QoiHeader,
    pixels2: Seq<u8>,
    h2: QoiHeader,
)
    requires
        pixels1 == pixels2,
        h1 == h2,
    ensures
        spec_encode(pixels1, h1) == spec_encode(pixels2, h2),
{
}

/// A stretch of pixels identical to the previous one is absorbed into
/// RUN chunks: one chunk while the pending run can still cover them,
/// and a flush at length 62 followed by a fresh run otherwise.
proof fn lemma_encode_all_equal(p: QoiPixel, cache: Seq<QoiPixel>, n: int, run: int)
    requires
        cache.len() == 64,
        0 <= run <= 61,
        n >= 1,
    ensures
        run + n <= 62 ==> encode_pixels(repeat_pixel(p, n), cache, p, run) == seq![
            run_byte(run + n),
        ],
        run + n > 62 ==> encode_pixels(repeat_pixel(p, n), cache, p, run) == seq![run_byte(62)]
            + encode_pixels(repeat_pixel(p, n - (62 - run)), cache, p, 0),
    decreases n,
{
    let ps = repeat_pixel(p, n);
    assert(ps[0] == p);
    assert(ps.drop_first() =~= repeat_pixel(p, n - 1));
    if n == 1 {
        lemma_encode_run_flush(ps, cache, p, run);
        assert(encode_pixels(repeat_pixel(p, 0), cache, p, 0) == Seq::<u8>::empty());
        assert(seq![run_byte(run + 1)] + Seq::<u8>::empty() =~= seq![run_byte(run + 1)]);
    } else if run + 1 == 62 {
        lemma_encode_run_flush(ps, cache, p, run);
        assert(n - (62 - run) == n - 1);
    } else {
        lemma_encode_run_extend(ps, cache, p, run);
        lemma_encode_all_equal(p, cache, n - 1, run + 1);
    }
}

/// A run of exactly 62 identical pixels followed by a 63rd identical
/// pixel is emitted as two RUN chunks, of lengths 62 and 1 — never as
/// one chunk.
pub proof fn lemma_run_boundary(p: QoiPixel, cache: Seq<QoiPixel>)
    requires
        cache.len() == 64,
    ensures
        encode_pixels(repeat_pixel(p, 63), cache, p, 0) == seq![run_byte(62), run_byte(1)],
{
    lemma_encode_all_equal(p, cache, 63, 0);
    lemma_encode_all_equal(p, cache, 1, 0);
    assert(seq![run_byte(62)] + seq![run_byte(1)] =~= seq![run_byte(62), run_byte(1)]);
}

/// A chunk whose leading byte is 254 is always parsed as a four-byte
/// RGB chunk — never as a RUN chunk of length 63, even though its top
/// two bits match the RUN tag.
pub proof fn lemma_rgb_tag_disambiguation(data: Seq<u8>, cache: Seq<QoiPixel>, prev: QoiPixel)
    requires
        data.len() > 0,
        data[0] == 254,
    ensures
        data.len() < 4 ==> decode_chunks(data, cache, prev) is None,
        data.len() >= 4 ==> decode_chunks(data, cache, prev) == ({
            let p = QoiPixel { r: data[1], g: data[2], b: data[3], a: prev.a };
            prepend_decoded(
                seq![p],
                decode_chunks(data.skip(4), cache.update(hash_of(p), p), p),
            )
        }),
{
}

} // verus!

