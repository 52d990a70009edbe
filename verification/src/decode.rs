//! The decoder: a spec-level model of chunk-stream interpretation, and
//! the executable decoder proved to reproduce exactly the pixels that
//! model yields, or to report why the stream is malformed.

use vstd::prelude::*;
use crate::format::{
    Channels, Colorspace, QoiError, QoiHeader, QoiPixel, byte_add, bytes_of_pixels, hash_of,
    init_cache, init_prev, pixel_bytes, qoi_color_hash, u32_of_be, zero_pixel,
};

verus! {

/// Prefixes already-decoded pixels onto the outcome of decoding the
/// remaining chunks; a truncation further on fails the whole decode.
pub open spec fn prepend_decoded(ps: Seq<QoiPixel>, rest: Option<Seq<QoiPixel>>) -> Option<
    Seq<QoiPixel>,
> {
    match rest {
        Some(r) => Some(ps + r),
        None => None,
    }
}

/// The pixels a chunk region decodes to from the given cache and
/// previous pixel, or `None` if some chunk promises more bytes than
/// remain.  The full-byte RGB (254) and RGBA (255) tags are tested
/// before the two-bit tags: both carry the RUN tag in their top bits
/// and would otherwise be misread as maximal runs.
pub open spec fn decode_chunks(data: Seq<u8>, cache: Seq<QoiPixel>, prev: QoiPixel) -> Option<
    Seq<QoiPixel>,
>
    decreases data.len(),
{
    if data.len() == 0 {
        Some(Seq::empty())
    } else {
        let b = data[0];
        if b == 254 {
            if data.len() < 4 {
                None
            } else {
                let p = QoiPixel { r: data[1], g: data[2], b: data[3], a: prev.a };
                prepend_decoded(
                    seq![p],
                    decode_chunks(data.skip(4), cache.update(hash_of(p), p), p),
                )
            }
        } else if b == 255 {
            if data.len() < 5 {
                None
            } else {
                let p = QoiPixel { r: data[1], g: data[2], b: data[3], a: data[4] };
                prepend_decoded(
                    seq![p],
                    decode_chunks(data.skip(5), cache.update(hash_of(p), p), p),
                )
            }
        } else if b < 64 {
            let p = cache[b as int];
            prepend_decoded(seq![p], decode_chunks(data.skip(1), cache, p))
        } else if b < 128 {
            let d: int = b - 64;
            let p = QoiPixel {
                r: byte_add(prev.r as int, d / 16 - 2) as u8,
                g: byte_add(prev.g as int, (d % 16) / 4 - 2) as u8,
                b: byte_add(prev.b as int, d % 4 - 2) as u8,
                a: prev.a,
            };
            prepend_decoded(seq![p], decode_chunks(data.skip(1), cache.update(hash_of(p), p), p))
        } else if b < 192 {
            if data.len() < 2 {
                None
            } else {
                let b1: int = data[1] as int;
                let dg: int = b - 160;
                let p = QoiPixel {
                    r: byte_add(byte_add(prev.r as int, dg), b1 / 16 - 8) as u8,
                    g: byte_add(prev.g as int, dg) as u8,
                    b: byte_add(byte_add(prev.b as int, dg), b1 % 16 - 8) as u8,
                    a: prev.a,
                };
                prepend_decoded(
                    seq![p],
                    decode_chunks(data.skip(2), cache.update(hash_of(p), p), p),
                )
            }
        } else {
            let n: int = b - 191;
            prepend_decoded(
                Seq::new(n as nat, |j: int| prev),
                decode_chunks(data.skip(1), cache, prev),
            )
        }
    }
}

/// What a full byte stream decodes to: the reconstructed raw pixel
/// buffer and the parsed header, or the error the stream deserves.  The
/// chunk region is everything between the 14-byte header and the 8-byte
/// footer; the footer's content is not inspected.  The header fields
/// are judged as soon as the 14-byte header is present: an out-of-range
/// channel or colorspace byte fails before a missing footer does.
pub open spec fn spec_decode(data: Seq<u8>) -> Result<(Seq<u8>, QoiHeader), QoiError> {
    if data.len() < 14 {
        Err(QoiError::TruncatedStream)
    } else if data[12] != 3 && data[12] != 4 {
        Err(QoiError::InvalidChannelCount)
    } else if data[13] != 0 && data[13] != 1 {
        Err(QoiError::InvalidColorspace)
    } else if data.len() < 22 {
        Err(QoiError::TruncatedStream)
    } else {
        let h = QoiHeader {
            width: u32_of_be(data[4], data[5], data[6], data[7]) as u32,
            height: u32_of_be(data[8], data[9], data[10], data[11]) as u32,
            channels: if data[12] == 3 {
                Channels::RGB
            } else {
                Channels::RGBA
            },
            colorspace: if data[13] == 0 {
                Colorspace::Linear
            } else {
                Colorspace::SRGB
            },
        };
        match decode_chunks(data.subrange(14, data.len() - 8), init_cache(), init_prev()) {
            Some(ps) => Ok((bytes_of_pixels(ps, data[12] as int), h)),
            None => Err(QoiError::TruncatedStream),
        }
    }
}

/// Writing one more pixel extends the raw buffer by that pixel's bytes.
pub proof fn lemma_bytes_of_pixels_push(ps: Seq<QoiPixel>, p: QoiPixel, ch: int)
    ensures
        bytes_of_pixels(ps.push(p), ch) == bytes_of_pixels(ps, ch) + pixel_bytes(p, ch),
    decreases ps.len(),
{
    if ps.len() == 0 {
        assert(ps.push(p)[0] == p);
        assert(ps.push(p).drop_first() =~= Seq::<QoiPixel>::empty());
        assert(bytes_of_pixels(Seq::<QoiPixel>::empty(), ch) == Seq::<u8>::empty());
        assert(bytes_of_pixels(ps.push(p), ch) =~= bytes_of_pixels(ps, ch) + pixel_bytes(p, ch));
    } else {
        lemma_bytes_of_pixels_push(ps.drop_first(), p, ch);
        assert(ps.push(p)[0] == ps[0]);
        assert(ps.push(p).drop_first() =~= ps.drop_first().push(p));
        assert(bytes_of_pixels(ps.push(p), ch) =~= bytes_of_pixels(ps, ch) + pixel_bytes(p, ch));
    }
}

/// Prefixing twice is prefixing the concatenation.
proof fn lemma_prepend_assoc(a: Seq<QoiPixel>, b: Seq<QoiPixel>, o: Option<Seq<QoiPixel>>)
    ensures
        prepend_decoded(a, prepend_decoded(b, o)) == prepend_decoded(a + b, o),
{
    match o {
        Some(r) => {
            assert(a + (b + r) =~= (a + b) + r);
        },
        None => {},
    }
}

/// Reads four big-endian bytes starting at `off`.
fn read_be_u32(data: &[u8], off: usize) -> (x: u32)
    requires
        off + 4 <= data@.len(),
    ensures
        x as int == u32_of_be(data@[off as int], data@[off + 1], data@[off + 2], data@[off + 3]),
{
    (data[off] as u32) * 0x1000000 + (data[off + 1] as u32) * 0x10000 + (data[off + 2] as u32)
        * 0x100 + (data[off + 3] as u32)
}

/// Appends the 3 or 4 raw bytes of one reconstructed pixel.
fn push_pixel(out: &mut Vec<u8>, p: QoiPixel, ch: usize)
    requires
        ch == 3 || ch == 4,
    ensures
        final(out)@ == old(out)@ + pixel_bytes(p, ch as int),
{
    out.push(p.r);
    out.push(p.g);
    out.push(p.b);
    if ch == 4 {
        out.push(p.a);
    }
    assert(out@ =~= old(out)@ + pixel_bytes(p, ch as int));
}

/// Decodes a complete QOI byte stream into the raw row-major pixel
/// buffer and the parsed header.  Fails with `InvalidChannelCount` or
/// `InvalidColorspace` when the corresponding header byte is out of
/// range, and with `TruncatedStream` when the input cannot hold the
/// 14-byte header, when a valid header is not followed by room for the
/// 8-byte footer, or when a chunk promises more bytes than remain.
///
/// The four magic bytes are read past without validation, as the
/// format's tolerant reading allows; rejecting a mismatched magic would
/// be a compatible hardening.  The footer's content is ignored as well.
#[verifier::rlimit(100)]
pub fn qoi_decode(data: &[u8]) -> (r: Result<(Vec<u8>, QoiHeader), QoiError>)
    ensures
        match r {
            Ok(ok) => spec_decode(data@) == Ok::<(Seq<u8>, QoiHeader), QoiError>((ok.0@, ok.1)),
            Err(e) => spec_decode(data@) == Err::<(Seq<u8>, QoiHeader), QoiError>(e),
        },
{
    if data.len() < 14 {
        return Err(QoiError::TruncatedStream);
    }
    let chb = data[12];
    if chb != 3 && chb != 4 {
        return Err(QoiError::InvalidChannelCount);
    }
    let csb = data[13];
    if csb != 0 && csb != 1 {
        return Err(QoiError::InvalidColorspace);
    }
    if data.len() < 22 {
        return Err(QoiError::TruncatedStream);
    }
    let w = read_be_u32(data, 4);
    let hgt = read_be_u32(data, 8);
    let ch: usize = if chb == 3 {
        3
    } else {
        4
    };
    let end: usize = data.len() - 8;
    let ghost region = data@.subrange(14, end as int);

    let mut cache: Vec<QoiPixel> = Vec::new();
    let mut k: usize = 0;
    while k < 64
        invariant
            cache@.len() == k,
            k <= 64,
            forall|j: int| 0 <= j < k ==> cache@[j] == zero_pixel(),
        decreases 64 - k,
    {
        cache.push(QoiPixel::new(0, 0, 0, 0));
        k += 1;
    }
    assert(cache@ =~= init_cache());

    let mut prev: QoiPixel = QoiPixel::new(0, 0, 0, 255);
    let mut out: Vec<u8> = Vec::new();
    let ghost mut produced: Seq<QoiPixel> = Seq::empty();
    let mut pos: usize = 14;
    proof {
        assert(region.skip(0) =~= region);
    }
    while pos < end
        invariant
            14 <= pos <= end,
            data@.len() >= 22,
            end == data@.len() - 8,
            region == data@.subrange(14, end as int),
            chb == data@[12],
            chb == 3 || chb == 4,
            csb == data@[13],
            csb == 0 || csb == 1,
            ch as int == chb as int,
            w as int == u32_of_be(data@[4], data@[5], data@[6], data@[7]),
            hgt as int == u32_of_be(data@[8], data@[9], data@[10], data@[11]),
            cache@.len() == 64,
            out@ == bytes_of_pixels(produced, ch as int),
            decode_chunks(region, init_cache(), init_prev()) == prepend_decoded(
                produced,
                decode_chunks(region.skip(pos - 14), cache@, prev),
            ),
        decreases end - pos,
    {
        let ghost tail = region.skip(pos - 14);
        let ghost old_cache = cache@;
        let ghost old_prev = prev;
        let ghost old_produced = produced;
        proof {
            assert(tail.len() == end - pos);
            assert forall|j: int| 0 <= j < tail.len() implies tail[j] == data@[pos + j] by {
                assert(tail[j] == region[pos - 14 + j]);
            }
        }
        let b = data[pos];
        if b == 254 {
            if end - pos < 4 {
                proof {
                    assert(decode_chunks(tail, cache@, prev) is None);
                }
                return Err(QoiError::TruncatedStream);
            }
            let p = QoiPixel::new(data[pos + 1], data[pos + 2], data[pos + 3], prev.a);
            let hh = qoi_color_hash(p);
            cache[hh as usize] = p;
            push_pixel(&mut out, p, ch);
            proof {
                assert(tail.skip(4) =~= region.skip(pos + 4 - 14));
                assert(decode_chunks(tail, old_cache, old_prev) == prepend_decoded(
                    seq![p],
                    decode_chunks(region.skip(pos + 4 - 14), cache@, p),
                ));
                lemma_bytes_of_pixels_push(produced, p, ch as int);
                lemma_prepend_assoc(produced, seq![p], decode_chunks(region.skip(pos + 4 - 14), cache@, p));
                assert(produced + seq![p] =~= produced.push(p));
                produced = produced.push(p);
            }
            prev = p;
            pos += 4;
        } else if b == 255 {
            if end - pos < 5 {
                proof {
                    assert(decode_chunks(tail, cache@, prev) is None);
                }
                return Err(QoiError::TruncatedStream);
            }
            let p = QoiPixel::new(data[pos + 1], data[pos + 2], data[pos + 3], data[pos + 4]);
            let hh = qoi_color_hash(p);
            cache[hh as usize] = p;
            push_pixel(&mut out, p, ch);
            proof {
                assert(tail.skip(5) =~= region.skip(pos + 5 - 14));
                assert(decode_chunks(tail, old_cache, old_prev) == prepend_decoded(
                    seq![p],
                    decode_chunks(region.skip(pos + 5 - 14), cache@, p),
                ));
                lemma_bytes_of_pixels_push(produced, p, ch as int);
                lemma_prepend_assoc(produced, seq![p], decode_chunks(region.skip(pos + 5 - 14), cache@, p));
                assert(produced + seq![p] =~= produced.push(p));
                produced = produced.push(p);
            }
            prev = p;
            pos += 5;
        } else if b < 64 {
            let p = cache[b as usize];
            push_pixel(&mut out, p, ch);
            proof {
                assert(tail.skip(1) =~= region.skip(pos + 1 - 14));
                assert(decode_chunks(tail, old_cache, old_prev) == prepend_decoded(
                    seq![p],
                    decode_chunks(region.skip(pos + 1 - 14), cache@, p),
                ));
                lemma_bytes_of_pixels_push(produced, p, ch as int);
                lemma_prepend_assoc(produced, seq![p], decode_chunks(region.skip(pos + 1 - 14), cache@, p));
                assert(produced + seq![p] =~= produced.push(p));
                produced = produced.push(p);
            }
            prev = p;
            pos += 1;
        } else if b < 128 {
            let d: u8 = b - 64;
            let dr2: u8 = d / 16;
            let dg2: u8 = (d % 16) / 4;
            let db2: u8 = d % 4;
            let pr: u8 = prev.r.wrapping_add(dr2).wrapping_sub(2);
            let pg: u8 = prev.g.wrapping_add(dg2).wrapping_sub(2);
            let pb: u8 = prev.b.wrapping_add(db2).wrapping_sub(2);
            let p = QoiPixel::new(pr, pg, pb, prev.a);
            proof {
                assert(pr as int == byte_add(old_prev.r as int, dr2 - 2));
                assert(pg as int == byte_add(old_prev.g as int, dg2 - 2));
                assert(pb as int == byte_add(old_prev.b as int, db2 - 2));
            }
            let hh = qoi_color_hash(p);
            cache[hh as usize] = p;
            push_pixel(&mut out, p, ch);
            proof {
                assert(tail.skip(1) =~= region.skip(pos + 1 - 14));
                assert(decode_chunks(tail, old_cache, old_prev) == prepend_decoded(
                    seq![p],
                    decode_chunks(region.skip(pos + 1 - 14), cache@, p),
                ));
                lemma_bytes_of_pixels_push(produced, p, ch as int);
                lemma_prepend_assoc(produced, seq![p], decode_chunks(region.skip(pos + 1 - 14), cache@, p));
                assert(produced + seq![p] =~= produced.push(p));
                produced = produced.push(p);
            }
            prev = p;
            pos += 1;
        } else if b < 192 {
            if end - pos < 2 {
                proof {
                    assert(decode_chunks(tail, cache@, prev) is None);
                }
                return Err(QoiError::TruncatedStream);
            }
            let b1 = data[pos + 1];
            let dgf: u8 = b - 128;
            let drf: u8 = b1 / 16;
            let dbf: u8 = b1 % 16;
            let pr: u8 = prev.r.wrapping_add(dgf).wrapping_sub(32).wrapping_add(drf).wrapping_sub(
                8,
            );
            let pg: u8 = prev.g.wrapping_add(dgf).wrapping_sub(32);
            let pb: u8 = prev.b.wrapping_add(dgf).wrapping_sub(32).wrapping_add(dbf).wrapping_sub(
                8,
            );
            let p = QoiPixel::new(pr, pg, pb, prev.a);
            proof {
                assert(pr as int == byte_add(byte_add(old_prev.r as int, b - 160), b1 / 16 - 8));
                assert(pg as int == byte_add(old_prev.g as int, b - 160));
                assert(pb as int == byte_add(byte_add(old_prev.b as int, b - 160), b1 % 16 - 8));
            }
            let hh = qoi_color_hash(p);
            cache[hh as usize] = p;
            push_pixel(&mut out, p, ch);
            proof {
                assert(tail.skip(2) =~= region.skip(pos + 2 - 14));
                assert(decode_chunks(tail, old_cache, old_prev) == prepend_decoded(
                    seq![p],
                    decode_chunks(region.skip(pos + 2 - 14), cache@, p),
                ));
                lemma_bytes_of_pixels_push(produced, p, ch as int);
                lemma_prepend_assoc(produced, seq![p], decode_chunks(region.skip(pos + 2 - 14), cache@, p));
                assert(produced + seq![p] =~= produced.push(p));
                produced = produced.push(p);
            }
            prev = p;
            pos += 2;
        } else {
            let n: usize = (b - 192) as usize + 1;
            let ghost run_pixels = Seq::new(n as nat, |q: int| prev);
            proof {
                assert(produced + Seq::new(0 as nat, |q: int| prev) =~= produced);
            }
            let mut j: usize = 0;
            while j < n
                invariant
                    j <= n,
                    ch == 3 || ch == 4,
                    out@ == bytes_of_pixels(produced + Seq::new(j as nat, |q: int| prev), ch as int),
                decreases n - j,
            {
                push_pixel(&mut out, prev, ch);
                proof {
                    lemma_bytes_of_pixels_push(
                        produced + Seq::new(j as nat, |q: int| prev),
                        prev,
                        ch as int,
                    );
                    assert((produced + Seq::new(j as nat, |q: int| prev)).push(prev) =~= produced
                        + Seq::new((j + 1) as nat, |q: int| prev));
                }
                j += 1;
            }
            proof {
                assert(tail.skip(1) =~= region.skip(pos + 1 - 14));
                assert(decode_chunks(tail, old_cache, old_prev) =~= prepend_decoded(
                    run_pixels,
                    decode_chunks(region.skip(pos + 1 - 14), cache@, prev),
                ));
                lemma_prepend_assoc(produced, run_pixels, decode_chunks(region.skip(pos + 1 - 14), cache@, prev));
                produced = produced + run_pixels;
            }
            pos += 1;
        }
    }
    proof {
        assert(region.skip(end - 14) =~= Seq::<u8>::empty());
        assert(decode_chunks(region.skip(end - 14), cache@, prev) == Some(Seq::<QoiPixel>::empty()));
        assert(produced + Seq::<QoiPixel>::empty() =~= produced);
        assert(decode_chunks(region, init_cache(), init_prev()) == Some(produced));
    }
    let channels = if chb == 3 {
        Channels::RGB
    } else {
        Channels::RGBA
    };
    let colorspace = if csb == 0 {
        Colorspace::Linear
    } else {
        Colorspace::SRGB
    };
    let hdr = QoiHeader { width: w, height: hgt, channels, colorspace };
    proof {
        assert(spec_decode(data@) == Ok::<(Seq<u8>, QoiHeader), QoiError>((out@, hdr)));
    }
    Ok((out, hdr))
}

} // verus!
