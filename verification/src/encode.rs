//! The encoder: a spec-level model of the chunk stream an image encodes
//! to, and the executable encoder proved to produce exactly that stream.

use vstd::prelude::*;
use vstd::arithmetic::mul::lemma_mul_inequality;
use vstd::arithmetic::mul::lemma_mul_strict_inequality;
use vstd::arithmetic::div_mod::lemma_fundamental_div_mod;
use vstd::seq_lib::lemma_concat_associative;
use crate::format::{
    Channels, Colorspace, QoiHeader, QoiPixel, byte_sub, channel_count, footer_bytes,
    hash_of, header_bytes, init_cache, init_prev, pixel_at, pixels_of_bytes, qoi_color_hash,
    zero_pixel, be_bytes_of_u32,
};

verus! {

/// The single byte of a RUN chunk covering `n` pixels, 1 <= n <= 62:
/// tag bits 11, then n - 1.
pub open spec fn run_byte(n: int) -> u8 {
    (191 + n) as u8
}

/// Whether a wrapped channel delta lies in the signed range [-2, 1].
pub open spec fn small_delta(d: int) -> bool {
    d <= 1 || d >= 254
}

/// The 2-bit field of a DIFF chunk: the signed delta plus 2.
pub open spec fn diff_field(d: int) -> int {
    if d <= 1 {
        d + 2
    } else {
        d - 254
    }
}

/// Whether a wrapped green delta lies in the signed range [-32, 31].
pub open spec fn luma_green_ok(d: int) -> bool {
    d <= 31 || d >= 224
}

/// The 6-bit green field of a LUMA chunk: the signed delta plus 32.
pub open spec fn luma_green_field(d: int) -> int {
    if d <= 31 {
        d + 32
    } else {
        d - 224
    }
}

/// Whether a wrapped red/blue-minus-green delta lies in the signed
/// range [-8, 7].
pub open spec fn luma_rb_ok(d: int) -> bool {
    d <= 7 || d >= 248
}

/// The 4-bit red/blue field of a LUMA chunk: the signed delta plus 8.
pub open spec fn luma_rb_field(d: int) -> int {
    if d <= 7 {
        d + 8
    } else {
        d - 248
    }
}

/// The single byte of a DIFF chunk: tag bits 01, then the three 2-bit
/// delta fields for red, green, blue.
pub open spec fn diff_byte(dr: int, dg: int, db: int) -> u8 {
    (64 + 16 * diff_field(dr) + 4 * diff_field(dg) + diff_field(db)) as u8
}

/// The first byte of a LUMA chunk: tag bits 10, then the green field.
pub open spec fn luma_byte0(dg: int) -> u8 {
    (128 + luma_green_field(dg)) as u8
}

/// The second byte of a LUMA chunk: the red field in the high nibble,
/// the blue field in the low nibble.
pub open spec fn luma_byte1(dgr: int, dgb: int) -> u8 {
    (16 * luma_rb_field(dgr) + luma_rb_field(dgb)) as u8
}

/// The chunk emitted for a pixel that neither continues a run nor hits
/// the cache: DIFF, then LUMA, then RGB, in that precedence, when alpha
/// is unchanged; RGBA when alpha changed.
pub open spec fn pixel_chunk(prev: QoiPixel, p: QoiPixel) -> Seq<u8> {
    if p.a == prev.a {
        let dr: int = byte_sub(p.r as int, prev.r as int);
        let dg: int = byte_sub(p.g as int, prev.g as int);
        let db: int = byte_sub(p.b as int, prev.b as int);
        if small_delta(dr) && small_delta(dg) && small_delta(db) {
            seq![diff_byte(dr, dg, db)]
        } else {
            let dgr: int = byte_sub(dr, dg);
            let dgb: int = byte_sub(db, dg);
            if luma_green_ok(dg) && luma_rb_ok(dgr) && luma_rb_ok(dgb) {
                seq![luma_byte0(dg), luma_byte1(dgr, dgb)]
            } else {
                seq![254u8, p.r, p.g, p.b]
            }
        }
    } else {
        seq![255u8, p.r, p.g, p.b, p.a]
    }
}

/// The RUN chunk a pending run of `run` pixels flushes to; nothing when
/// no run is pending.
pub open spec fn flush_bytes(run: int) -> Seq<u8> {
    if run > 0 {
        seq![run_byte(run)]
    } else {
        Seq::empty()
    }
}

/// The chunk stream for the pixels `ps`, starting from the given cache,
/// previous pixel, and pending run length.  Each pixel either extends
/// the pending run (flushed at length 62 or at the last pixel) or, after
/// flushing any pending run, becomes an INDEX chunk on a cache hit or a
/// DIFF/LUMA/RGB/RGBA chunk (updating the cache) otherwise.
pub open spec fn encode_pixels(
    ps: Seq<QoiPixel>,
    cache: Seq<QoiPixel>,
    prev: QoiPixel,
    run: int,
) -> Seq<u8>
    decreases ps.len(),
{
    if ps.len() == 0 {
        Seq::empty()
    } else {
        let p = ps[0];
        if p == prev {
            if run + 1 == 62 || ps.len() == 1 {
                seq![run_byte(run + 1)] + encode_pixels(ps.drop_first(), cache, p, 0)
            } else {
                encode_pixels(ps.drop_first(), cache, p, run + 1)
            }
        } else if cache[hash_of(p)] == p {
            flush_bytes(run) + (seq![hash_of(p) as u8] + encode_pixels(
                ps.drop_first(),
                cache,
                p,
                0,
            ))
        } else {
            flush_bytes(run) + (pixel_chunk(prev, p) + encode_pixels(
                ps.drop_first(),
                cache.update(hash_of(p), p),
                p,
                0,
            ))
        }
    }
}

/// Unfolding: a pixel equal to the previous one extends the pending run
/// without emitting anything.
pub proof fn lemma_encode_run_extend(
    ps: Seq<QoiPixel>,
    cache: Seq<QoiPixel>,
    prev: QoiPixel,
    run: int,
)
    requires
        ps.len() > 0,
        ps[0] == prev,
        run + 1 != 62,
        ps.len() != 1,
    ensures
        encode_pixels(ps, cache, prev, run) == encode_pixels(
            ps.drop_first(),
            cache,
            prev,
            run + 1,
        ),
{
}

/// Unfolding: a run reaching length 62, or the last pixel of the image,
/// flushes the run as a single RUN chunk.
pub proof fn lemma_encode_run_flush(
    ps: Seq<QoiPixel>,
    cache: Seq<QoiPixel>,
    prev: QoiPixel,
    run: int,
)
    requires
        ps.len() > 0,
        ps[0] == prev,
        run + 1 == 62 || ps.len() == 1,
    ensures
        encode_pixels(ps, cache, prev, run) == seq![run_byte(run + 1)] + encode_pixels(
            ps.drop_first(),
            cache,
            prev,
            0,
        ),
{
}

/// Unfolding: a changed pixel found in the cache becomes an INDEX chunk
/// after any pending run is flushed.
pub proof fn lemma_encode_index_hit(
    ps: Seq<QoiPixel>,
    cache: Seq<QoiPixel>,
    prev: QoiPixel,
    run: int,
)
    requires
        ps.len() > 0,
        ps[0] != prev,
        cache[hash_of(ps[0])] == ps[0],
    ensures
        encode_pixels(ps, cache, prev, run) == flush_bytes(run) + (seq![hash_of(ps[0]) as u8]
            + encode_pixels(ps.drop_first(), cache, ps[0], 0)),
{
}

/// Unfolding: a changed pixel missing from the cache is written to its
/// slot and becomes a DIFF, LUMA, RGB or RGBA chunk after any pending
/// run is flushed.
pub proof fn lemma_encode_cache_miss(
    ps: Seq<QoiPixel>,
    cache: Seq<QoiPixel>,
    prev: QoiPixel,
    run: int,
)
    requires
        ps.len() > 0,
        ps[0] != prev,
        cache[hash_of(ps[0])] != ps[0],
    ensures
        encode_pixels(ps, cache, prev, run) == flush_bytes(run) + (pixel_chunk(prev, ps[0])
            + encode_pixels(ps.drop_first(), cache.update(hash_of(ps[0]), ps[0]), ps[0], 0)),
{
}

/// The full stream a pixel buffer encodes to: header, chunk stream from
/// the initial cache and previous pixel, footer.
pub open spec fn spec_encode(pixels: Seq<u8>, h: QoiHeader) -> Seq<u8> {
    header_bytes(h) + encode_pixels(
        pixels_of_bytes(pixels, channel_count(h.channels)),
        init_cache(),
        init_prev(),
        0,
    ) + footer_bytes()
}

/// Appends the four big-endian bytes of `x`.
fn push_be_u32(out: &mut Vec<u8>, x: u32)
    ensures
        final(out)@ == old(out)@ + be_bytes_of_u32(x),
{
    out.push((x / 0x1000000) as u8);
    out.push(((x / 0x10000) % 0x100) as u8);
    out.push(((x / 0x100) % 0x100) as u8);
    out.push((x % 0x100) as u8);
    assert(out@ =~= old(out)@ + be_bytes_of_u32(x));
}

/// Encodes a raw row-major pixel buffer into a complete QOI byte stream.
/// The buffer must hold exactly width * height pixels of 3 or 4 bytes
/// each, per the header's channel count.
#[verifier::rlimit(100)]
pub fn qoi_encode(pixels: &[u8], qoi_header: &QoiHeader) -> (r: Vec<u8>)
    requires
        pixels@.len() == qoi_header.width * qoi_header.height * channel_count(
            qoi_header.channels,
        ),
    ensures
        r@ == spec_encode(pixels@, *qoi_header),
{
    let ghost h = *qoi_header;
    let ch: usize = match qoi_header.channels {
        Channels::RGB => 3,
        Channels::RGBA => 4,
    };

    let mut out: Vec<u8> = Vec::new();
    out.push(113);
    out.push(111);
    out.push(105);
    out.push(102);
    push_be_u32(&mut out, qoi_header.width);
    push_be_u32(&mut out, qoi_header.height);
    out.push(ch as u8);
    out.push(match qoi_header.colorspace {
        Colorspace::Linear => 0,
        Colorspace::SRGB => 1,
    });
    assert(out@ =~= header_bytes(h));

    let ghost all = pixels_of_bytes(pixels@, ch as int);
    let n_pixels: usize = pixels.len() / ch;
    proof {
        lemma_fundamental_div_mod(pixels@.len() as int, ch as int);
        assert(n_pixels * ch == ch * n_pixels) by (nonlinear_arith);
        assert(n_pixels * ch <= pixels@.len());
        assert(all.len() == n_pixels);
    }

    let mut cache: Vec<QoiPixel> = Vec::new();
    let mut k: usize = 0;
    while k < 64
        invariant
            cache@.len() == k,
            k <= 64,
            forall|j: int| 0 <= j < k ==> cache@[j] == zero_pixel(),
        decreases 64 - k,
    {
        cache.push(QoiPixel::new(0, 0, 0, 0));
        k += 1;
    }
    assert(cache@ =~= init_cache());

    let mut prev: QoiPixel = QoiPixel::new(0, 0, 0, 255);
    let mut run: usize = 0;
    let mut i: usize = 0;
    proof {
        assert(all.skip(0) =~= all);
    }
    while i < n_pixels
        invariant
            i <= n_pixels,
            run <= 61,
            ch == channel_count(h.channels),
            ch == 3 || ch == 4,
            n_pixels * ch <= pixels@.len(),
            pixels@.len() <= usize::MAX,
            all == pixels_of_bytes(pixels@, ch as int),
            n_pixels == all.len(),
            cache@.len() == 64,
            out@ + encode_pixels(all.skip(i as int), cache@, prev, run as int) == header_bytes(h)
                + encode_pixels(all, init_cache(), init_prev(), 0),
        decreases n_pixels - i,
    {
        proof {
            lemma_mul_strict_inequality(i as int, n_pixels as int, ch as int);
            lemma_mul_inequality(i as int + 1, n_pixels as int, ch as int);
            assert((i + 1) * ch == i * ch + ch) by (nonlinear_arith);
        }
        let base: usize = i * ch;
        let r0 = pixels[base];
        let g0 = pixels[base + 1];
        let b0 = pixels[base + 2];
        let a0 = if ch == 4 {
            pixels[base + 3]
        } else {
            255
        };
        let cur = QoiPixel::new(r0, g0, b0, a0);
        let ghost rest = all.skip(i as int);
        proof {
            assert(all[i as int] == pixel_at(pixels@, ch as int, i as int));
            assert(cur == all[i as int]);
            assert(rest.len() == n_pixels - i);
            assert(rest[0] == all[i as int]);
            assert(rest.drop_first() =~= all.skip(i as int + 1));
        }
        let ghost old_cache = cache@;
        let ghost old_prev = prev;
        let ghost old_run: int = run as int;
        let ghost old_out = out@;

        if cur == prev {
            run += 1;
            if run == 62 || i == n_pixels - 1 {
                out.push(191 + (run as u8));
                proof {
                    lemma_encode_run_flush(rest, old_cache, old_prev, old_run);
                    assert(out@ =~= old_out + seq![run_byte(old_run + 1)]);
                    lemma_concat_associative(
                        old_out,
                        seq![run_byte(old_run + 1)],
                        encode_pixels(rest.drop_first(), old_cache, cur, 0),
                    );
                }
                run = 0;
            } else {
                proof {
                    lemma_encode_run_extend(rest, old_cache, old_prev, old_run);
                }
            }
        } else {
            if run > 0 {
                out.push(191 + (run as u8));
                run = 0;
            }
            let hash = qoi_color_hash(cur);
            let hidx = hash as usize;
            let hit = cache[hidx] == cur;
            if hit {
                out.push(hash);
                proof {
                    lemma_encode_index_hit(rest, old_cache, old_prev, old_run);
                    assert(out@ =~= old_out + (flush_bytes(old_run) + seq![hash_of(cur) as u8]));
                    lemma_concat_associative(
                        flush_bytes(old_run),
                        seq![hash_of(cur) as u8],
                        encode_pixels(rest.drop_first(), old_cache, cur, 0),
                    );
                    lemma_concat_associative(
                        old_out,
                        flush_bytes(old_run) + seq![hash_of(cur) as u8],
                        encode_pixels(rest.drop_first(), old_cache, cur, 0),
                    );
                }
            } else {
                cache[hidx] = cur;
                proof {
                    assert(cache@ == old_cache.update(hash_of(cur), cur));
                }
                if cur.a == prev.a {
                    let dr = cur.r.wrapping_sub(prev.r);
                    let dg = cur.g.wrapping_sub(prev.g);
                    let db = cur.b.wrapping_sub(prev.b);
                    proof {
                        assert(dr as int == byte_sub(cur.r as int, old_prev.r as int));
                        assert(dg as int == byte_sub(cur.g as int, old_prev.g as int));
                        assert(db as int == byte_sub(cur.b as int, old_prev.b as int));
                    }
                    let diff_ok = (dr <= 1 || dr >= 254) && (dg <= 1 || dg >= 254) && (db <= 1
                        || db >= 254);
                    if diff_ok {
                        let f_r: u8 = if dr <= 1 {
                            dr + 2
                        } else {
                            dr - 254
                        };
                        let f_g: u8 = if dg <= 1 {
                            dg + 2
                        } else {
                            dg - 254
                        };
                        let f_b: u8 = if db <= 1 {
                            db + 2
                        } else {
                            db - 254
                        };
                        out.push(64 + 16 * f_r + 4 * f_g + f_b);
                        proof {
                            assert(pixel_chunk(old_prev, cur) == seq![
                                diff_byte(dr as int, dg as int, db as int),
                            ]);
                            assert(64 + 16 * f_r + 4 * f_g + f_b == diff_byte(
                                dr as int,
                                dg as int,
                                db as int,
                            ));
                        }
                    } else {
                        let dgr = dr.wrapping_sub(dg);
                        let dgb = db.wrapping_sub(dg);
                        proof {
                            assert(dgr as int == byte_sub(dr as int, dg as int));
                            assert(dgb as int == byte_sub(db as int, dg as int));
                        }
                        let luma_ok = (dg <= 31 || dg >= 224) && (dgr <= 7 || dgr >= 248) && (dgb
                            <= 7 || dgb >= 248);
                        if luma_ok {
                            let f_g: u8 = if dg <= 31 {
                                dg + 32
                            } else {
                                dg - 224
                            };
                            let f_r: u8 = if dgr <= 7 {
                                dgr + 8
                            } else {
                                dgr - 248
                            };
                            let f_b: u8 = if dgb <= 7 {
                                dgb + 8
                            } else {
                                dgb - 248
                            };
                            out.push(128 + f_g);
                            out.push(16 * f_r + f_b);
                            proof {
                                assert(pixel_chunk(old_prev, cur) == seq![
                                    luma_byte0(dg as int),
                                    luma_byte1(dgr as int, dgb as int),
                                ]);
                            }
                        } else {
                            out.push(254);
                            out.push(cur.r);
                            out.push(cur.g);
                            out.push(cur.b);
                            proof {
                                assert(pixel_chunk(old_prev, cur) == seq![
                                    254u8,
                                    cur.r,
                                    cur.g,
                                    cur.b,
                                ]);
                            }
                        }
                    }
                } else {
                    out.push(255);
                    out.push(cur.r);
                    out.push(cur.g);
                    out.push(cur.b);
                    out.push(cur.a);
                    proof {
                        assert(pixel_chunk(old_prev, cur) == seq![255u8, cur.r, cur.g, cur.b, cur.a]);
                    }
                }
                proof {
                    lemma_encode_cache_miss(rest, old_cache, old_prev, old_run);
                    assert(out@ =~= old_out + (flush_bytes(old_run) + pixel_chunk(old_prev, cur)));
                    lemma_concat_associative(
                        flush_bytes(old_run),
                        pixel_chunk(old_prev, cur),
                        encode_pixels(rest.drop_first(), old_cache.update(hash_of(cur), cur), cur, 0),
                    );
                    lemma_concat_associative(
                        old_out,
                        flush_bytes(old_run) + pixel_chunk(old_prev, cur),
                        encode_pixels(rest.drop_first(), old_cache.update(hash_of(cur), cur), cur, 0),
                    );
                }
            }
        }
        prev = cur;
        i += 1;
        proof {
            assert(out@ + encode_pixels(all.skip(i as int), cache@, prev, run as int) == old_out
                + encode_pixels(rest, old_cache, old_prev, old_run));
        }
    }
    proof {
        assert(all.skip(n_pixels as int) =~= Seq::<QoiPixel>::empty());
        assert(out@ =~= header_bytes(h) + encode_pixels(all, init_cache(), init_prev(), 0));
    }
    out.push(0);
    out.push(0);
    out.push(0);
    out.push(0);
    out.push(0);
    out.push(0);
    out.push(0);
    out.push(1);
    assert(out@ =~= spec_encode(pixels@, h));
    out
}

} // verus!
