use vstd::prelude::*;
use crate::bitmap::{Bitmap, Rgba};
use crate::bytes::ByteCursor;
use crate::errors::SubError;
use vstd::slice::slice_subrange;
use crate::text::{trim_spec, trim_exec, lossy_of, utf8_lossy, str_chars};

verus! {

/// The nibble at nibble-position `i` of `data`: high half first.
pub open spec fn nibble_at(data: Seq<u8>, i: int) -> u8 {
    if i % 2 == 0 {
        (data[i / 2] / 16) as u8
    } else {
        (data[i / 2] % 16) as u8
    }
}

/// Reads a byte slice one 4-bit nibble at a time, high nibble of each byte
/// first, as the subpicture RLE stream is laid out.
pub struct NibbleReader<'a> {
    pub data: &'a [u8],
    pub pos: usize,
}

impl<'a> NibbleReader<'a> {
    pub open spec fn wf(&self) -> bool {
        &&& self.pos <= 2 * self.data@.len()
        &&& self.data@.len() <= 0x7fff_ffff
    }

    pub fn new(data: &'a [u8]) -> (r: Self)
        requires
            data@.len() <= 0x7fff_ffff,
        ensures
            r.data@ == data@,
            r.pos == 0,
            r.wf(),
    {
        Self { data, pos: 0 }
    }

    pub fn read_u4(&mut self) -> (r: Option<u8>)
        requires
            old(self).wf(),
        ensures
            final(self).data@ == old(self).data@,
            final(self).wf(),
            match r {
                Some(v) => old(self).pos as int / 2 < old(self).data@.len() && v == nibble_at(
                    old(self).data@,
                    old(self).pos as int,
                ) && final(self).pos == old(self).pos + 1,
                None => old(self).pos as int / 2 >= old(self).data@.len() && final(self).pos == old(
                    self,
                ).pos,
            },
    {
        let pos = self.pos;
        let byte_index = pos / 2;
        if byte_index >= self.data.len() {
            return None;
        }
        self.pos = self.pos + 1;
        let byte = self.data[byte_index];
        if pos % 2 == 0 {
            Some(byte / 16)
        } else {
            Some(byte % 16)
        }
    }

    /// After an odd number of nibbles, advances to the next byte boundary, so
    /// that the next read takes a byte's high nibble.
    pub fn round_to_next_byte(&mut self)
        requires
            old(self).wf(),
        ensures
            final(self).data@ == old(self).data@,
            final(self).wf(),
            final(self).pos == round_up_even(old(self).pos as int),
            final(self).pos % 2 == 0,
    {
        if self.pos % 2 != 0 {
            self.pos = self.pos + 1;
        }
    }
}

/// The even position reached by rounding `p` up.
pub open spec fn round_up_even(p: int) -> int {
    if p % 2 == 0 {
        p
    } else {
        p + 1
    }
}

/// A nibble reader aligned this way reads the high nibble of the byte it
/// stands on: reading after `round_to_next_byte` always starts a fresh byte.
pub proof fn lemma_round_then_read_aligns(data: Seq<u8>, p: int)
    requires
        0 <= p,
        round_up_even(p) / 2 < data.len(),
    ensures
        nibble_at(data, round_up_even(p)) == data[round_up_even(p) / 2] / 16,
{
}

/// The two 12-bit big-endian values packed into three bytes.
pub open spec fn two_u12(d: Seq<u8>) -> (u16, u16) {
    (
        (d[0] * 16 + d[1] / 16) as u16,
        ((d[1] % 16) * 256 + d[2]) as u16,
    )
}

/// Splits three bytes into two 12-bit values, the screen-coordinate packing
/// of the subpicture `0x05` command.
pub fn parse_two_u12(data: &[u8]) -> (r: (u16, u16))
    requires
        data@.len() >= 3,
    ensures
        r == two_u12(data@),
        r.0 < 0x1000,
        r.1 < 0x1000,
{
    let d0 = data[0] as u16;
    let d1 = data[1] as u16;
    let d2 = data[2] as u16;
    let v1 = d0 * 16 + d1 / 16;
    let v2 = (d1 % 16) * 256 + d2;
    (v1, v2)
}

/// The rectangle spanned by inclusive screen coordinates.
pub fn compute_size(x1: u16, x2: u16, y1: u16, y2: u16) -> (r: (u16, u16))
    requires
        x1 <= x2 < 0x1000,
        y1 <= y2 < 0x1000,
    ensures
        r.0 == x2 - x1 + 1,
        r.1 == y2 - y1 + 1,
        0 < r.0 <= 0x1000,
        0 < r.1 <= 0x1000,
{
    let width = x2 - x1 + 1;
    let height = y2 - y1 + 1;
    (width, height)
}

/// Reads two bytes and hands back their four nibbles, high to low, as the
/// `0x03` (palette) and `0x04` (alpha) commands encode them.
pub fn read_four_nibbles(reader: &mut ByteCursor) -> (r: Option<[u8; 4]>)
    requires
        old(reader).wf(),
    ensures
        final(reader).data@ == old(reader).data@,
        final(reader).wf(),
        match r {
            Some(v) => {
                &&& old(reader).pos + 2 <= old(reader).data@.len()
                &&& final(reader).pos == old(reader).pos + 2
                &&& v[0] == old(reader).data@[old(reader).pos as int] / 16
                &&& v[1] == old(reader).data@[old(reader).pos as int] % 16
                &&& v[2] == old(reader).data@[old(reader).pos + 1] / 16
                &&& v[3] == old(reader).data@[old(reader).pos + 1] % 16
                &&& forall|i: int| 0 <= i < 4 ==> v[i] < 16
            },
            None => old(reader).data@.len() < old(reader).pos + 2,
        },
{
    let b0 = match reader.read_u8() {
        Some(b) => b,
        None => {
            return None;
        },
    };
    let b1 = match reader.read_u8() {
        Some(b) => b,
        None => {
            return None;
        },
    };
    let v = [b0 / 16, b0 % 16, b1 / 16, b1 % 16];
    proof {
        assert(v[0int] == b0 / 16);
        assert(v[1int] == b0 % 16);
        assert(v[2int] == b1 / 16);
        assert(v[3int] == b1 % 16);
    }
    Some(v)
}

/// The opacity a 4-bit alpha value stands for: `round((min(a+1,16)/16)·255)`.
pub open spec fn alpha_of(a: int) -> u8 {
    (((if a + 1 < 16 {
        a + 1
    } else {
        16
    }) * 255 + 8) / 16) as u8
}

/// One entry of the four-colour subpalette: transparent black for alpha 0,
/// otherwise the idx palette colour under the scaled alpha.
pub open spec fn subpalette_entry(palette: Seq<Rgba>, c: int, a: int) -> Rgba {
    if a == 0 {
        Rgba { r: 0, g: 0, b: 0, a: 0 }
    } else {
        Rgba { r: palette[c].r, g: palette[c].g, b: palette[c].b, a: alpha_of(a) }
    }
}

/// Builds the four-colour subpalette a block's `0x03` and `0x04` commands
/// select out of the sixteen-colour idx palette.
pub fn build_subpalette(palette: &[Rgba], color_info: &[u8; 4], alpha_info: &[u8; 4]) -> (r: Vec<
    Rgba,
>)
    requires
        palette@.len() == 16,
        forall|i: int| 0 <= i < 4 ==> color_info[i] < 16,
        forall|i: int| 0 <= i < 4 ==> alpha_info[i] < 16,
    ensures
        r@.len() == 4,
        forall|i: int|
            0 <= i < 4 ==> r@[i] == subpalette_entry(
                palette@,
                color_info[i] as int,
                alpha_info[i] as int,
            ),
{
    let mut subpalette: Vec<Rgba> = Vec::new();
    let mut i: usize = 0;
    while i < 4
        invariant
            palette@.len() == 16,
            forall|k: int| 0 <= k < 4 ==> color_info[k] < 16,
            forall|k: int| 0 <= k < 4 ==> alpha_info[k] < 16,
            i <= 4,
            subpalette@.len() == i,
            forall|k: int|
                0 <= k < i ==> subpalette@[k] == subpalette_entry(
                    palette@,
                    color_info[k] as int,
                    alpha_info[k] as int,
                ),
        decreases 4 - i,
    {
        let original_alpha_value = alpha_info[i];
        let color = if original_alpha_value == 0 {
            Rgba { r: 0, g: 0, b: 0, a: 0 }
        } else {
            let capped: u8 = if original_alpha_value + 1 < 16 {
                original_alpha_value + 1
            } else {
                16
            };
            let alpha_value: u8 = ((capped as u16 * 255 + 8) / 16) as u8;
            let palette_color = palette[color_info[i] as usize];
            Rgba { r: palette_color.r, g: palette_color.g, b: palette_color.b, a: alpha_value }
        };
        subpalette.push(color);
        i = i + 1;
    }
    subpalette
}

/// One step of the nibble-RLE grammar at nibble position `p`: a run of
/// pixels, or the fill-to-end-of-line command, together with the position
/// after the step.
pub enum VobToken {
    Run { run: int, color: int, next: int },
    Fill { color: int, next: int },
}

/// Decodes the token starting at nibble position `p`; `None` is reader
/// underflow or a malformed fill command.
pub open spec fn vob_token(data: Seq<u8>, p: int) -> Option<VobToken> {
    let nlen = 2 * data.len();
    if p >= nlen {
        None
    } else {
        let n0 = nibble_at(data, p) as int;
        if n0 >= 4 {
            Some(VobToken::Run { run: n0 / 4, color: n0 % 4, next: p + 1 })
        } else if n0 >= 1 {
            if p + 1 < nlen {
                let v = n0 * 16 + nibble_at(data, p + 1);
                Some(VobToken::Run { run: v / 4, color: v % 4, next: p + 2 })
            } else {
                None
            }
        } else if p + 1 >= nlen {
            None
        } else {
            let n1 = nibble_at(data, p + 1) as int;
            if n1 >= 4 {
                if p + 2 < nlen {
                    let v = n1 * 16 + nibble_at(data, p + 2);
                    Some(VobToken::Run { run: v / 4, color: v % 4, next: p + 3 })
                } else {
                    None
                }
            } else if n1 >= 1 {
                if p + 3 < nlen {
                    let v = n1 * 256 + nibble_at(data, p + 2) * 16 + nibble_at(data, p + 3);
                    Some(VobToken::Run { run: v / 4, color: v % 4, next: p + 4 })
                } else {
                    None
                }
            } else {
                if p + 3 < nlen && nibble_at(data, p + 2) == 0 {
                    Some(VobToken::Fill { color: nibble_at(data, p + 3) as int % 4, next: p + 4 })
                } else {
                    None
                }
            }
        }
    }
}

/// The pixels of one decoded field, from nibble position `p` with `count`
/// pixels already emitted: each run's colour indexes the subpalette as
/// `palette[3 − colour]`, and the reader rounds to a byte boundary after
/// each completed line. `None` is a malformed stream.
pub open spec fn vob_decode_from(
    data: Seq<u8>,
    p: int,
    count: int,
    total: int,
    width: int,
    pal: Seq<Rgba>,
) -> Option<Seq<Rgba>>
    decreases total - count,
{
    if count >= total {
        Some(Seq::empty())
    } else {
        match vob_token(data, p) {
            None => None,
            Some(tok) => {
                let run = match tok {
                    VobToken::Run { run, .. } => run,
                    VobToken::Fill { .. } => width - count % width,
                };
                let color = match tok {
                    VobToken::Run { color, .. } => color,
                    VobToken::Fill { color, .. } => color,
                };
                let next = match tok {
                    VobToken::Run { next, .. } => next,
                    VobToken::Fill { next, .. } => next,
                };
                if run <= 0 || count + run > total {
                    None
                } else {
                    let p2 = if (count + run) % width == 0 {
                        round_up_even(next)
                    } else {
                        next
                    };
                    match vob_decode_from(data, p2, count + run, total, width, pal) {
                        None => None,
                        Some(rest) => Some(Seq::new(run as nat, |i: int| pal[3 - color]) + rest),
                    }
                }
            },
        }
    }
}

/// The BGRA byte form of a pixel sequence.
pub open spec fn bgra_bytes(pixels: Seq<Rgba>) -> Seq<u8>
    decreases pixels.len(),
{
    if pixels.len() == 0 {
        Seq::empty()
    } else {
        bgra_bytes(pixels.drop_last()) + pixels.last().bgra()
    }
}

pub proof fn lemma_bgra_bytes_len(pixels: Seq<Rgba>)
    ensures
        bgra_bytes(pixels).len() == 4 * pixels.len(),
    decreases pixels.len(),
{
    if pixels.len() > 0 {
        lemma_bgra_bytes_len(pixels.drop_last());
    }
}

/// The whole decode of one field: `None` is a malformed stream.
pub open spec fn vob_decode_bytes(
    data: Seq<u8>,
    total: int,
    width: int,
    pal: Seq<Rgba>,
) -> Option<Seq<u8>> {
    match vob_decode_from(data, 0, 0, total, width, pal) {
        None => None,
        Some(pix) => Some(bgra_bytes(pix)),
    }
}

pub proof fn lemma_bgra_push(pixels: Seq<Rgba>, c: Rgba)
    ensures
        bgra_bytes(pixels.push(c)) == bgra_bytes(pixels) + c.bgra(),
{
    assert(pixels.push(c).drop_last() =~= pixels);
    assert(pixels.push(c).last() == c);
    assert(bgra_bytes(pixels.push(c)) == bgra_bytes(pixels.push(c).drop_last())
        + pixels.push(c).last().bgra());
}

/// The decode loop's tie to the whole-field spec: what remains to decode at
/// `(p, count)` completes the pixels emitted so far.
pub open spec fn vob_decode_inv(
    data: Seq<u8>,
    p: int,
    count: int,
    total: int,
    width: int,
    pal: Seq<Rgba>,
    pix: Seq<Rgba>,
) -> bool {
    match vob_decode_from(data, p, count, total, width, pal) {
        Some(rest) => vob_decode_from(data, 0, 0, total, width, pal) == Some(pix + rest),
        None => vob_decode_from(data, 0, 0, total, width, pal) is None,
    }
}

/// RLE-decodes one field to BGRA bytes, exactly as `vob_decode_bytes` reads
/// the stream; a short or ill-formed stream is `MalformedSpu`.
#[verifier::rlimit(100)]
pub fn decode_image(data: &[u8], width: usize, height: usize, palette: &[Rgba]) -> (r: Result<
    Vec<u8>,
    SubError,
>)
    requires
        data@.len() <= 0x7fff_ffff,
        1 <= width,
        width * height <= 0x0100_0000,
        palette@.len() == 4,
    ensures
        match r {
            Ok(bytes) => vob_decode_bytes(
                data@,
                (width * height) as int,
                width as int,
                palette@,
            ) == Some(bytes@),
            Err(e) => e == SubError::MalformedSpu && vob_decode_bytes(
                data@,
                (width * height) as int,
                width as int,
                palette@,
            ) is None,
        },
{
    let total: usize = width * height;
    let mut out: Vec<u8> = Vec::new();
    let ghost mut pix: Seq<Rgba> = Seq::empty();
    let mut count: usize = 0;
    let mut nr = NibbleReader::new(data);
    while count < total
        invariant
            nr.data@ == data@,
            nr.wf(),
            1 <= width,
            total == width * height,
            total <= 0x0100_0000,
            palette@.len() == 4,
            count <= total,
            count == pix.len(),
            out@ == bgra_bytes(pix),
            vob_decode_inv(
                data@,
                nr.pos as int,
                count as int,
                total as int,
                width as int,
                palette@,
                pix,
            ),
        decreases total - count,
    {
        let ghost p0 = nr.pos as int;
        let ghost count0 = count as int;
        let n0 = match nr.read_u4() {
            Some(v) => v,
            None => {
                proof {
                    assert(vob_token(data@, p0) is None);
                }
                return Err(SubError::MalformedSpu);
            },
        };
        let (run, color): (usize, u8) = if n0 >= 4 {
            ((n0 / 4) as usize, n0 % 4)
        } else if n0 >= 1 {
            let n1 = match nr.read_u4() {
                Some(v) => v,
                None => {
                    proof {
                        assert(vob_token(data@, p0) is None);
                    }
                    return Err(SubError::MalformedSpu);
                },
            };
            let v = (n0 as u16) * 16 + (n1 as u16);
            ((v / 4) as usize, (v % 4) as u8)
        } else {
            let n1 = match nr.read_u4() {
                Some(v) => v,
                None => {
                    proof {
                        assert(vob_token(data@, p0) is None);
                    }
                    return Err(SubError::MalformedSpu);
                },
            };
            if n1 >= 4 {
                let n2 = match nr.read_u4() {
                    Some(v) => v,
                    None => {
                        proof {
                            assert(vob_token(data@, p0) is None);
                        }
                        return Err(SubError::MalformedSpu);
                    },
                };
                let v = (n1 as u16) * 16 + (n2 as u16);
                ((v / 4) as usize, (v % 4) as u8)
            } else if n1 >= 1 {
                let n2 = match nr.read_u4() {
                    Some(v) => v,
                    None => {
                        proof {
                            assert(vob_token(data@, p0) is None);
                        }
                        return Err(SubError::MalformedSpu);
                    },
                };
                let n3 = match nr.read_u4() {
                    Some(v) => v,
                    None => {
                        proof {
                            assert(vob_token(data@, p0) is None);
                        }
                        return Err(SubError::MalformedSpu);
                    },
                };
                let v = (n1 as u16) * 256 + (n2 as u16) * 16 + (n3 as u16);
                ((v / 4) as usize, (v % 4) as u8)
            } else {
                let n2 = match nr.read_u4() {
                    Some(v) => v,
                    None => {
                        proof {
                            assert(vob_token(data@, p0) is None);
                        }
                        return Err(SubError::MalformedSpu);
                    },
                };
                let n3 = match nr.read_u4() {
                    Some(v) => v,
                    None => {
                        proof {
                            assert(vob_token(data@, p0) is None);
                        }
                        return Err(SubError::MalformedSpu);
                    },
                };
                if n2 != 0 {
                    proof {
                        assert(vob_token(data@, p0) is None);
                    }
                    return Err(SubError::MalformedSpu);
                }
                let cur = count % width;
                (width - cur, n3 % 4)
            }
        };
        let ghost tok = vob_token(data@, p0);
        proof {
            assert(tok matches Some(t) && (match t {
                VobToken::Run { run: r2, color: c2, next: n2 } => r2 == run && c2 == color && n2
                    == nr.pos as int,
                VobToken::Fill { color: c2, next: n2 } => c2 == color && n2 == nr.pos as int
                    && run == width - count0 % (width as int),
            }));
            assert(run >= 1);
            assert(color < 4);
        }
        if run > total - count {
            proof {
                assert(vob_decode_from(
                    data@,
                    p0,
                    count0,
                    total as int,
                    width as int,
                    palette@,
                ) is None);
            }
            return Err(SubError::MalformedSpu);
        }
        let entry = palette[3 - color as usize];
        let ghost pix0 = pix;
        let ghost out0 = out@;
        let mut k: usize = 0;
        while k < run
            invariant
                k <= run,
                palette@.len() == 4,
                color < 4,
                entry == palette@[3 - color as int],
                pix == pix0 + Seq::new(k as nat, |i: int| entry),
                out@ == bgra_bytes(pix),
            decreases run - k,
        {
            out.push(entry.b);
            out.push(entry.g);
            out.push(entry.r);
            out.push(entry.a);
            proof {
                lemma_bgra_push(pix, entry);
                pix = pix.push(entry);
                assert(out@ =~= bgra_bytes(pix));
                assert(pix =~= pix0 + Seq::new((k + 1) as nat, |i: int| entry));
            }
            k = k + 1;
        }
        count = count + run;
        if count % width == 0 {
            nr.round_to_next_byte();
        }
        proof {
            let wi = width as int;
            let ti = total as int;
            let runseq = Seq::new(run as nat, |i: int| palette@[3 - color as int]);
            assert(pix =~= pix0 + runseq);
            let p2 = if (count0 + run) % wi == 0 {
                round_up_even(match tok {
                    Some(VobToken::Run { next, .. }) => next,
                    Some(VobToken::Fill { next, .. }) => next,
                    None => 0,
                })
            } else {
                match tok {
                    Some(VobToken::Run { next, .. }) => next,
                    Some(VobToken::Fill { next, .. }) => next,
                    None => 0,
                }
            };
            assert(nr.pos as int == p2);
            match vob_decode_from(data@, p2, count0 + run, ti, wi, palette@) {
                Some(rest) => {
                    assert(vob_decode_from(data@, p0, count0, ti, wi, palette@) == Some(
                        runseq + rest,
                    ));
                    assert(pix0 + (runseq + rest) =~= pix + rest);
                },
                None => {
                    assert(vob_decode_from(data@, p0, count0, ti, wi, palette@) is None);
                },
            }
        }
    }
    proof {
        assert(vob_decode_from(
            data@,
            nr.pos as int,
            count as int,
            total as int,
            width as int,
            palette@,
        ) == Some(Seq::<Rgba>::empty()));
        assert(pix + Seq::<Rgba>::empty() =~= pix);
    }
    Ok(out)
}

/// Byte `i` of the woven image: even-field line `k` lands on row `2k`, odd
/// line `k` on row `2k+1`; when an odd height gives the odd field a last row
/// past the buffer, that row folds onto the previous row; rows neither field
/// covers stay zero.
pub open spec fn interlace_byte(even: Seq<u8>, odd: Seq<u8>, w: int, h: int, i: int) -> u8 {
    let stride = w * 4;
    let e = even.len() as int / stride;
    let o = odd.len() as int / stride;
    let r = i / stride;
    let off = i % stride;
    if r % 2 == 1 && r / 2 < o {
        odd[(r / 2) * stride + off]
    } else if r == h - 1 && h % 2 == 1 && o == (h + 1) / 2 {
        odd[(o - 1) * stride + off]
    } else if r % 2 == 0 && r / 2 < e {
        even[(r / 2) * stride + off]
    } else {
        0
    }
}

/// The woven BGRA image of the two decoded fields.
pub open spec fn interlace_spec(even: Seq<u8>, odd: Seq<u8>, w: int, h: int) -> Seq<u8> {
    Seq::new((w * h * 4) as nat, |i: int| interlace_byte(even, odd, w, h, i))
}

/// Weaves the even- and odd-field lines into one top-down image.
#[verifier::rlimit(100)]
pub fn interlace_image(even_data: &[u8], odd_data: &[u8], width: usize, height: usize) -> (r: Vec<
    u8,
>)
    requires
        1 <= width,
        1 <= height,
        width * height <= 0x0100_0000,
        even_data@.len() as int % (width * 4) == 0,
        odd_data@.len() as int % (width * 4) == 0,
        even_data@.len() as int / (width * 4) <= (height + 1) / 2,
        odd_data@.len() as int / (width * 4) <= (height + 1) / 2,
        even_data@.len() + odd_data@.len() <= width * height * 4,
    ensures
        r@.len() == width * height * 4,
        r@ == interlace_spec(even_data@, odd_data@, width as int, height as int),
{
    let elen: usize = even_data.len();
    let olen: usize = odd_data.len();
    proof {
        assert(width <= 0x0100_0000) by (nonlinear_arith)
            requires
                width * height <= 0x0100_0000 && height >= 1 && width >= 1,
        ;
    }
    let stride: usize = width * 4;
    proof {
        assert(width * height * 4 <= 0x0400_0000 && width * 4 * height == width * height * 4) by (
        nonlinear_arith)
            requires
                width * height <= 0x0100_0000,
        ;
    }
    let total: usize = stride * height;
    let e_lines: usize = even_data.len() / stride;
    let o_lines: usize = odd_data.len() / stride;
    let mut bytes: Vec<u8> = Vec::new();
    let mut i: usize = 0;
    while i < total
        invariant
            1 <= width,
            1 <= height,
            stride == width * 4,
            total == stride * height,
            total == width * height * 4,
            e_lines == even_data@.len() as int / (stride as int),
            o_lines == odd_data@.len() as int / (stride as int),
            even_data@.len() as int % (stride as int) == 0,
            odd_data@.len() as int % (stride as int) == 0,
            e_lines <= (height + 1) / 2,
            o_lines <= (height + 1) / 2,
            elen == even_data@.len(),
            olen == odd_data@.len(),
            i <= total,
            bytes@.len() == i,
            forall|j: int|
                0 <= j < i ==> bytes@[j] == interlace_byte(
                    even_data@,
                    odd_data@,
                    width as int,
                    height as int,
                    j,
                ),
        decreases total - i,
    {
        let r: usize = i / stride;
        let off: usize = i % stride;
        proof {
            assert(r < height) by (nonlinear_arith)
                requires
                    i < total && total == stride * height && r == i as int / (stride as int) && off
                        == i as int % (stride as int) && stride >= 1,
            ;
        }
        let b: u8 = if r % 2 == 1 && r / 2 < o_lines {
            proof {
                assert((r as int / 2) * stride + off < odd_data@.len()) by (nonlinear_arith)
                    requires
                        r as int / 2 < o_lines && o_lines == odd_data@.len() as int / (stride as int)
                            && odd_data@.len() as int % (stride as int) == 0 && 0 <= off < stride,
                ;
            }
            odd_data[(r / 2) * stride + off]
        } else if r == height - 1 && height % 2 == 1 && o_lines == (height + 1) / 2 {
            proof {
                assert((o_lines - 1) * stride + off < odd_data@.len()) by (nonlinear_arith)
                    requires
                        o_lines >= 1 && o_lines == odd_data@.len() as int / (stride as int)
                            && odd_data@.len() as int % (stride as int) == 0 && 0 <= off < stride,
                ;
            }
            odd_data[(o_lines - 1) * stride + off]
        } else if r % 2 == 0 && r / 2 < e_lines {
            proof {
                assert((r as int / 2) * stride + off < even_data@.len()) by (nonlinear_arith)
                    requires
                        r as int / 2 < e_lines && e_lines == even_data@.len() as int / (stride as int)
                            && even_data@.len() as int % (stride as int) == 0 && 0 <= off < stride,
                ;
            }
            even_data[(r / 2) * stride + off]
        } else {
            0
        };
        bytes.push(b);
        proof {
            assert(bytes@[i as int] == interlace_byte(
                even_data@,
                odd_data@,
                width as int,
                height as int,
                i as int,
            ));
        }
        i = i + 1;
    }
    proof {
        assert(bytes@ =~= interlace_spec(even_data@, odd_data@, width as int, height as int));
    }
    bytes
}

/// What a command sequence has established so far: the display rectangle,
/// the four palette indices, the four alpha values, and the two field
/// pointers. Ordering is free, so each is filled in when its opcode shows up.
#[derive(Clone, Copy)]
pub struct SpuState {
    pub size: Option<(u16, u16)>,
    pub colors: Option<(u8, u8, u8, u8)>,
    pub alphas: Option<(u8, u8, u8, u8)>,
    pub imgptrs: Option<(u16, u16)>,
}

impl SpuState {
    pub open spec fn empty() -> SpuState {
        SpuState { size: None, colors: None, alphas: None, imgptrs: None }
    }
}

/// The 16-bit big-endian value at byte offset `p`.
pub open spec fn be16(data: Seq<u8>, p: int) -> int {
    data[p] * 256 + data[p + 1]
}

/// The subpalette the `0x03` and `0x04` nibbles select.
pub open spec fn subpal_of(pal: Seq<Rgba>, c: (u8, u8, u8, u8), a: (u8, u8, u8, u8)) -> Seq<
    Rgba,
> {
    seq![
        subpalette_entry(pal, c.0 as int, a.0 as int),
        subpalette_entry(pal, c.1 as int, a.1 as int),
        subpalette_entry(pal, c.2 as int, a.2 as int),
        subpalette_entry(pal, c.3 as int, a.3 as int),
    ]
}

/// Runs one command sequence's opcodes from byte `p` until `0xFF`, folding
/// each command into the state; yields the state and the position after the
/// terminator. Underflow is `MalformedSpu`, a foreign opcode
/// `UnknownSpuOpcode`.
pub open spec fn spu_cmds(data: Seq<u8>, p: int, st: SpuState) -> Result<
    (SpuState, int),
    SubError,
>
    decreases data.len() - p,
{
    if p < 0 || p >= data.len() {
        Err(SubError::MalformedSpu)
    } else {
        let op = data[p];
        if op == 0x00 || op == 0x01 || op == 0x02 {
            spu_cmds(data, p + 1, st)
        } else if op == 0x03 {
            if p + 3 <= data.len() {
                spu_cmds(
                    data,
                    p + 3,
                    SpuState {
                        colors: Some(
                            (
                                (data[p + 1] / 16) as u8,
                                (data[p + 1] % 16) as u8,
                                (data[p + 2] / 16) as u8,
                                (data[p + 2] % 16) as u8,
                            ),
                        ),
                        ..st
                    },
                )
            } else {
                Err(SubError::MalformedSpu)
            }
        } else if op == 0x04 {
            if p + 3 <= data.len() {
                spu_cmds(
                    data,
                    p + 3,
                    SpuState {
                        alphas: Some(
                            (
                                (data[p + 1] / 16) as u8,
                                (data[p + 1] % 16) as u8,
                                (data[p + 2] / 16) as u8,
                                (data[p + 2] % 16) as u8,
                            ),
                        ),
                        ..st
                    },
                )
            } else {
                Err(SubError::MalformedSpu)
            }
        } else if op == 0x05 {
            if p + 7 <= data.len() {
                let x = two_u12(data.subrange(p + 1, p + 4));
                let y = two_u12(data.subrange(p + 4, p + 7));
                if x.0 <= x.1 && y.0 <= y.1 {
                    spu_cmds(
                        data,
                        p + 7,
                        SpuState {
                            size: Some(((x.1 - x.0 + 1) as u16, (y.1 - y.0 + 1) as u16)),
                            ..st
                        },
                    )
                } else {
                    Err(SubError::MalformedSpu)
                }
            } else {
                Err(SubError::MalformedSpu)
            }
        } else if op == 0x06 {
            if p + 5 <= data.len() {
                spu_cmds(
                    data,
                    p + 5,
                    SpuState {
                        imgptrs: Some((be16(data, p + 1) as u16, be16(data, p + 3) as u16)),
                        ..st
                    },
                )
            } else {
                Err(SubError::MalformedSpu)
            }
        } else if op == 0xFF {
            Ok((st, p + 1))
        } else {
            Err(SubError::UnknownSpuOpcode)
        }
    }
}

/// Every position `spu_cmds` can stop at lies strictly past where it
/// started, inside the data.
pub proof fn lemma_spu_cmds_advances(data: Seq<u8>, p: int, st: SpuState)
    requires
        spu_cmds(data, p, st) is Ok,
    ensures
        p < spu_cmds(data, p, st).unwrap().1 <= data.len(),
    decreases data.len() - p,
{
    if 0 <= p < data.len() {
        let op = data[p];
        if op == 0x00 || op == 0x01 || op == 0x02 {
            lemma_spu_cmds_advances(data, p + 1, st);
        } else if op == 0x03 || op == 0x04 {
            if p + 3 <= data.len() {
                lemma_spu_cmds_advances(
                    data,
                    p + 3,
                    spu_cmds_next_state(data, p, st),
                );
            }
        } else if op == 0x05 {
            if p + 7 <= data.len() {
                let x = two_u12(data.subrange(p + 1, p + 4));
                let y = two_u12(data.subrange(p + 4, p + 7));
                if x.0 <= x.1 && y.0 <= y.1 {
                    lemma_spu_cmds_advances(data, p + 7, spu_cmds_next_state(data, p, st));
                }
            }
        } else if op == 0x06 {
            if p + 5 <= data.len() {
                lemma_spu_cmds_advances(data, p + 5, spu_cmds_next_state(data, p, st));
            }
        }
    }
}

/// The state after folding in the single command at `p` (for the commands
/// that carry a payload).
pub open spec fn spu_cmds_next_state(data: Seq<u8>, p: int, st: SpuState) -> SpuState {
    let op = data[p];
    if op == 0x03 {
        SpuState {
            colors: Some(
                (
                    (data[p + 1] / 16) as u8,
                    (data[p + 1] % 16) as u8,
                    (data[p + 2] / 16) as u8,
                    (data[p + 2] % 16) as u8,
                ),
            ),
            ..st
        }
    } else if op == 0x04 {
        SpuState {
            alphas: Some(
                (
                    (data[p + 1] / 16) as u8,
                    (data[p + 1] % 16) as u8,
                    (data[p + 2] / 16) as u8,
                    (data[p + 2] % 16) as u8,
                ),
            ),
            ..st
        }
    } else if op == 0x05 {
        let x = two_u12(data.subrange(p + 1, p + 4));
        let y = two_u12(data.subrange(p + 4, p + 7));
        SpuState { size: Some(((x.1 - x.0 + 1) as u16, (y.1 - y.0 + 1) as u16)), ..st }
    } else if op == 0x06 {
        SpuState { imgptrs: Some((be16(data, p + 1) as u16, be16(data, p + 3) as u16)), ..st }
    } else {
        st
    }
}

/// The decode a finished command sequence triggers once its field pointers
/// are set: both fields are nibble-RLE decoded through the subpalette and
/// woven together. The even field carries the extra line at odd heights.
pub open spec fn spu_decode_arm(img: Seq<u8>, palette: Seq<Rgba>, st: SpuState) -> Result<
    (Seq<u8>, int, int),
    SubError,
> {
    match (st.imgptrs, st.colors, st.alphas, st.size) {
        (Some(ptrs), Some(cols), Some(als), Some(size)) => {
            let f = ptrs.0 as int;
            let s = ptrs.1 as int;
            let w = size.0 as int;
            let h = size.1 as int;
            if 4 <= f <= s <= 4 + img.len() {
                let even = img.subrange(f - 4, s - 4);
                let odd = img.subrange(s - 4, img.len() as int);
                let sub = subpal_of(palette, cols, als);
                match (
                    vob_decode_bytes(even, w * ((h + 1) / 2), w, sub),
                    vob_decode_bytes(odd, w * (h / 2), w, sub),
                ) {
                    (Some(eb), Some(ob)) => Ok((interlace_spec(eb, ob, w, h), w, h)),
                    _ => Err(SubError::MalformedSpu),
                }
            } else {
                Err(SubError::MalformedSpu)
            }
        },
        _ => Err(SubError::MalformedSpu),
    }
}

/// Walks the command sequences of one subpicture block. A sequence whose
/// commands set the field pointers decodes at once: subpalette, two field
/// decodes, interlace. Otherwise the walk stops when a sequence points at
/// itself, or goes on at the next sequence.
pub open spec fn spu_sequences(data: Seq<u8>, p: int, palette: Seq<Rgba>, img: Seq<u8>) -> Result<
    Option<(Seq<u8>, int, int)>,
    SubError,
>
    decreases data.len() - p,
{
    if p < 0 || p + 4 > data.len() {
        Err(SubError::MalformedSpu)
    } else {
        let next_seq = be16(data, p + 2);
        match spu_cmds(data, p + 4, SpuState::empty()) {
            Err(e) => Err(e),
            Ok((st, p2)) => match st.imgptrs {
                Some(ptrs) => match spu_decode_arm(img, palette, st) {
                    Ok(t) => Ok(Some(t)),
                    Err(e) => Err(e),
                },
                None => if p == next_seq {
                    Ok(None)
                } else if p < p2 <= data.len() {
                    spu_sequences(data, p2, palette, img)
                } else {
                    Err(SubError::MalformedSpu)
                },
            },
        }
    }
}

/// One whole subpicture block: the two length words, the image data region,
/// then the command sequences.
pub open spec fn spu_block(data: Seq<u8>, palette: Seq<Rgba>) -> Result<
    Option<(Seq<u8>, int, int)>,
    SubError,
> {
    if data.len() < 4 {
        Err(SubError::MalformedSpu)
    } else if be16(data, 0) != data.len() {
        Err(SubError::MalformedSpu)
    } else {
        let dps = be16(data, 2);
        if dps < 4 || dps > data.len() {
            Err(SubError::MalformedSpu)
        } else {
            spu_sequences(data, dps, palette, data.subrange(4, dps))
        }
    }
}

/// A complete field decode yields exactly the pixels still owed.
pub proof fn lemma_vob_decode_len(
    data: Seq<u8>,
    p: int,
    count: int,
    total: int,
    width: int,
    pal: Seq<Rgba>,
)
    requires
        vob_decode_from(data, p, count, total, width, pal) is Some,
    ensures
        vob_decode_from(data, p, count, total, width, pal).unwrap().len() == if total >= count {
            total - count
        } else {
            0
        },
    decreases total - count,
{
    if count >= total {
    } else {
        match vob_token(data, p) {
            None => {},
            Some(tok) => {
                let run = match tok {
                    VobToken::Run { run, .. } => run,
                    VobToken::Fill { .. } => width - count % width,
                };
                let next = match tok {
                    VobToken::Run { next, .. } => next,
                    VobToken::Fill { next, .. } => next,
                };
                if run <= 0 || count + run > total {
                } else {
                    let p2 = if (count + run) % width == 0 {
                        round_up_even(next)
                    } else {
                        next
                    };
                    lemma_vob_decode_len(data, p2, count + run, total, width, pal);
                }
            },
        }
    }
}

/// Parses one subpicture block against the sixteen-colour idx palette,
/// decoding at the first command sequence that carries field pointers, as
/// `spu_block` lays it down.
#[verifier::rlimit(100)]
pub fn decode_block(block_data: &[u8], palette: &[Rgba]) -> (r: Result<
    Option<(Vec<u8>, usize, usize)>,
    SubError,
>)
    requires
        palette@.len() == 16,
    ensures
        match r {
            Ok(Some((bytes, w, h))) => {
                &&& spu_block(block_data@, palette@) matches Ok(Some(t)) && t.0 == bytes@ && t.1
                    == w && t.2 == h
                &&& bytes@.len() == w * h * 4
                &&& 1 <= w <= 0x1000
                &&& 1 <= h <= 0x1000
            },
            Ok(None) => spu_block(block_data@, palette@) matches Ok(o) && o is None,
            Err(e) => spu_block(block_data@, palette@) matches Err(e2) && e == e2,
        },
{
    let len = block_data.len();
    let mut c = ByteCursor::new(block_data);
    let packet_size = match c.read_u16_be() {
        Some(v) => v,
        None => {
            return Err(SubError::MalformedSpu);
        },
    };
    if packet_size as usize != len {
        return Err(SubError::MalformedSpu);
    }
    let dps16 = match c.read_u16_be() {
        Some(v) => v,
        None => {
            return Err(SubError::MalformedSpu);
        },
    };
    let dps: usize = dps16 as usize;
    if dps < 4 || dps > len {
        return Err(SubError::MalformedSpu);
    }
    let img: &[u8] = match c.take(dps - 4) {
        Some(s2) => s2,
        None => {
            proof {
                assert(false);
            }
            return Err(SubError::MalformedSpu);
        },
    };
    loop
        invariant
            c.data@ == block_data@,
            c.wf(),
            palette@.len() == 16,
            len == block_data@.len(),
            len <= 0xFFFF,
            4 <= dps <= len,
            4 <= c.pos <= len,
            img@ == block_data@.subrange(4, dps as int),
            img@.len() == dps - 4,
            spu_sequences(block_data@, c.pos as int, palette@, img@) == spu_block(
                block_data@,
                palette@,
            ),
        decreases len - c.pos,
    {
        let ghost p0 = c.pos as int;
        let seq_start: usize = c.position();
        let _date = match c.read_u16_be() {
            Some(v) => v,
            None => {
                return Err(SubError::MalformedSpu);
            },
        };
        let next_seq = match c.read_u16_be() {
            Some(v) => v,
            None => {
                return Err(SubError::MalformedSpu);
            },
        };
        let st = match run_command_sequence(&mut c) {
            Ok(st) => st,
            Err(e) => {
                return Err(e);
            },
        };
        match st.imgptrs {
            Some(ptrs) => {
                match decode_fields(img, palette, st) {
                    Ok((bytes, wu, hu)) => {
                        return Ok(Some((bytes, wu, hu)));
                    },
                    Err(e) => {
                        return Err(e);
                    },
                }
            },
            None => {
                if seq_start == next_seq as usize {
                    return Ok(None);
                }
                proof {
                    assert(spu_sequences(block_data@, c.pos as int, palette@, img@)
                        == spu_sequences(block_data@, p0, palette@, img@));
                }
            },
        }
    }
}

/// Carries out the decode a finished sequence asks for, as
/// `spu_decode_arm` states it.
#[verifier::rlimit(100)]
fn decode_fields(img: &[u8], palette: &[Rgba], st: SpuState) -> (r: Result<
    (Vec<u8>, usize, usize),
    SubError,
>)
    requires
        palette@.len() == 16,
        img@.len() <= 0xFFFF,
        st.imgptrs is Some,
        st.colors matches Some(t) ==> t.0 < 16 && t.1 < 16 && t.2 < 16 && t.3 < 16,
        st.alphas matches Some(t) ==> t.0 < 16 && t.1 < 16 && t.2 < 16 && t.3 < 16,
        st.size matches Some(t) ==> 1 <= t.0 <= 0x1000 && 1 <= t.1 <= 0x1000,
    ensures
        match r {
            Ok((bytes, w, h)) => {
                &&& spu_decode_arm(img@, palette@, st) matches Ok(t) && t.0 == bytes@ && t.1 == w
                    && t.2 == h
                &&& bytes@.len() == w * h * 4
                &&& 1 <= w <= 0x1000
                &&& 1 <= h <= 0x1000
            },
            Err(e) => spu_decode_arm(img@, palette@, st) matches Err(e2) && e == e2,
        },
{
    let ptrs = match st.imgptrs {
        Some(p) => p,
        None => {
            proof {
                assert(false);
            }
            return Err(SubError::MalformedSpu);
        },
    };
    let (cols, als, size) = match (st.colors, st.alphas, st.size) {
        (Some(cols), Some(als), Some(size)) => (cols, als, size),
        _ => {
            return Err(SubError::MalformedSpu);
        },
    };
    let f: usize = ptrs.0 as usize;
    let s2: usize = ptrs.1 as usize;
    if !(4 <= f && f <= s2 && s2 <= 4 + img.len()) {
        return Err(SubError::MalformedSpu);
    }
    let even = slice_subrange(img, f - 4, s2 - 4);
    let odd = slice_subrange(img, s2 - 4, img.len());
    let colors_arr = [cols.0, cols.1, cols.2, cols.3];
    let alphas_arr = [als.0, als.1, als.2, als.3];
    let sub = build_subpalette(palette, &colors_arr, &alphas_arr);
    proof {
        assert(sub@ =~= subpal_of(palette@, cols, als));
    }
    let wu: usize = size.0 as usize;
    let hu: usize = size.1 as usize;
    let eh: usize = (hu + 1) / 2;
    let oh: usize = hu / 2;
    proof {
        assert(wu * eh <= 0x0100_0000 && wu * oh <= 0x0100_0000 && wu * hu <= 0x0100_0000) by (
        nonlinear_arith)
            requires
                1 <= wu <= 0x1000 && 1 <= hu <= 0x1000 && eh <= 0x1000 && oh <= 0x1000,
        ;
    }
    let eb = match decode_image(even, wu, eh, sub.as_slice()) {
        Ok(b) => b,
        Err(e) => {
            return Err(e);
        },
    };
    let ob = match decode_image(odd, wu, oh, sub.as_slice()) {
        Ok(b) => b,
        Err(e) => {
            return Err(e);
        },
    };
    proof {
        let wi = wu as int;
        let ei = eh as int;
        let oi = oh as int;
        lemma_vob_decode_len(even@, 0, 0, wi * ei, wi, sub@);
        lemma_vob_decode_len(odd@, 0, 0, wi * oi, wi, sub@);
        lemma_bgra_bytes_len(vob_decode_from(even@, 0, 0, wi * ei, wi, sub@).unwrap());
        lemma_bgra_bytes_len(vob_decode_from(odd@, 0, 0, wi * oi, wi, sub@).unwrap());
        assert(eb@.len() == 4 * (wi * ei) && ob@.len() == 4 * (wi * oi));
        assert(4 * (wi * ei) == ei * (wi * 4) && 4 * (wi * oi) == oi * (wi * 4) && (ei * (wi * 4))
            as int % (wi * 4) == 0 && (oi * (wi * 4)) as int % (wi * 4) == 0 && (ei * (wi * 4))
            as int / (wi * 4) == ei && (oi * (wi * 4)) as int / (wi * 4) == oi) by (
        nonlinear_arith)
            requires
                wi >= 1,
        ;
        assert(ei + oi == hu);
        assert(ei * (wi * 4) + oi * (wi * 4) == wi * hu * 4) by (nonlinear_arith)
            requires
                ei + oi == hu,
        ;
    }
    let bytes = interlace_image(eb.as_slice(), ob.as_slice(), wu, hu);
    proof {
        assert(bytes@.len() == wu * hu * 4);
    }
    Ok((bytes, wu, hu))
}

/// Runs one command sequence's opcodes until the `0xFF` terminator, filling
/// in the state as `spu_cmds` folds it.
#[verifier::rlimit(100)]
fn run_command_sequence(c: &mut ByteCursor) -> (r: Result<SpuState, SubError>)
    requires
        old(c).wf(),
    ensures
        final(c).data@ == old(c).data@,
        final(c).wf(),
        match r {
            Ok(st) => {
                &&& spu_cmds(old(c).data@, old(c).pos as int, SpuState::empty()) matches Ok(t)
                    && t.0 == st && t.1 == final(c).pos as int
                &&& old(c).pos < final(c).pos <= old(c).data@.len()
                &&& st.colors matches Some(t) ==> t.0 < 16 && t.1 < 16 && t.2 < 16 && t.3 < 16
                &&& st.alphas matches Some(t) ==> t.0 < 16 && t.1 < 16 && t.2 < 16 && t.3 < 16
                &&& st.size matches Some(t) ==> 1 <= t.0 <= 0x1000 && 1 <= t.1 <= 0x1000
            },
            Err(e) => spu_cmds(old(c).data@, old(c).pos as int, SpuState::empty()) matches Err(
                e2,
            ) && e == e2,
        },
{
    let ghost data = c.data@;
    let ghost p_init = c.pos as int;
    let mut st = SpuState { size: None, colors: None, alphas: None, imgptrs: None };
    loop
        invariant_except_break
            data == old(c).data@,
            p_init == old(c).pos,
            c.data@ == data,
            c.wf(),
            p_init <= c.pos <= data.len(),
            spu_cmds(data, c.pos as int, st) == spu_cmds(data, p_init, SpuState::empty()),
            st.colors matches Some(t) ==> t.0 < 16 && t.1 < 16 && t.2 < 16 && t.3 < 16,
            st.alphas matches Some(t) ==> t.0 < 16 && t.1 < 16 && t.2 < 16 && t.3 < 16,
            st.size matches Some(t) ==> 1 <= t.0 <= 0x1000 && 1 <= t.1 <= 0x1000,
        ensures
            data == old(c).data@,
            p_init == old(c).pos,
            c.data@ == data,
            c.wf(),
            p_init < c.pos <= data.len(),
            spu_cmds(data, p_init, SpuState::empty()) matches Ok(t) && t.0 == st && t.1
                == c.pos as int,
            st.colors matches Some(t) ==> t.0 < 16 && t.1 < 16 && t.2 < 16 && t.3 < 16,
            st.alphas matches Some(t) ==> t.0 < 16 && t.1 < 16 && t.2 < 16 && t.3 < 16,
            st.size matches Some(t) ==> 1 <= t.0 <= 0x1000 && 1 <= t.1 <= 0x1000,
        decreases data.len() - c.pos,
    {
        let ghost pb = c.pos as int;
        let ghost stb = st;
        let op = match c.read_u8() {
            Some(v) => v,
            None => {
                return Err(SubError::MalformedSpu);
            },
        };
        if op == 0x00 || op == 0x01 || op == 0x02 {
            // start subpicture, start display, stop display: no payload
            proof {
                assert(spu_cmds(data, c.pos as int, st) == spu_cmds(data, pb, stb));
            }
        } else if op == 0x03 {
            let v = match read_four_nibbles(c) {
                Some(v) => v,
                None => {
                    return Err(SubError::MalformedSpu);
                },
            };
            st.colors = Some((v[0], v[1], v[2], v[3]));
            proof {
                assert(spu_cmds(data, c.pos as int, st) == spu_cmds(data, pb, stb));
            }
        } else if op == 0x04 {
            let v = match read_four_nibbles(c) {
                Some(v) => v,
                None => {
                    return Err(SubError::MalformedSpu);
                },
            };
            st.alphas = Some((v[0], v[1], v[2], v[3]));
            proof {
                assert(spu_cmds(data, c.pos as int, st) == spu_cmds(data, pb, stb));
            }
        } else if op == 0x05 {
            let ghost pc = c.pos as int;
            let d = match c.take(6) {
                Some(d) => d,
                None => {
                    return Err(SubError::MalformedSpu);
                },
            };
            let dx = slice_subrange(d, 0, 3);
            let dy = slice_subrange(d, 3, 6);
            proof {
                assert(dx@ =~= data.subrange(pc, pc + 3));
                assert(dy@ =~= data.subrange(pc + 3, pc + 6));
            }
            let x = parse_two_u12(dx);
            let y = parse_two_u12(dy);
            if x.0 > x.1 || y.0 > y.1 {
                return Err(SubError::MalformedSpu);
            }
            let wh = compute_size(x.0, x.1, y.0, y.1);
            st.size = Some(wh);
            proof {
                assert(spu_cmds(data, c.pos as int, st) == spu_cmds(data, pb, stb));
            }
        } else if op == 0x06 {
            let f = match c.read_u16_be() {
                Some(v) => v,
                None => {
                    return Err(SubError::MalformedSpu);
                },
            };
            let s2 = match c.read_u16_be() {
                Some(v) => v,
                None => {
                    return Err(SubError::MalformedSpu);
                },
            };
            st.imgptrs = Some((f, s2));
            proof {
                assert(spu_cmds(data, c.pos as int, st) == spu_cmds(data, pb, stb));
            }
        } else if op == 0xFF {
            break;
        } else {
            return Err(SubError::UnknownSpuOpcode);
        }
    }
    Ok(st)
}

/// The first `c` at or after `i`, or `-1`.
pub open spec fn find_char(s: Seq<char>, i: int, c: char) -> int
    decreases s.len() - i,
{
    if i >= s.len() {
        -1
    } else if s[i] == c {
        i
    } else {
        find_char(s, i + 1, c)
    }
}

pub proof fn lemma_find_char_range(s: Seq<char>, i: int, c: char)
    ensures
        find_char(s, i, c) == -1 || i <= find_char(s, i, c) < s.len(),
    decreases s.len() - i,
{
    if i < s.len() && s[i] != c {
        lemma_find_char_range(s, i + 1, c);
    }
}

/// The first `c` at or after `i`, as `find_char` names it.
pub fn find_char_exec(v: &[char], i: usize, c: char) -> (r: Option<usize>)
    requires
        i <= v@.len(),
    ensures
        match r {
            Some(j) => find_char(v@, i as int, c) == j && i <= j < v@.len(),
            None => find_char(v@, i as int, c) == -1,
        },
{
    let mut j: usize = i;
    while j < v.len()
        invariant
            i <= j <= v@.len(),
            find_char(v@, i as int, c) == find_char(v@, j as int, c),
        decreases v@.len() - j,
    {
        if v[j] == c {
            return Some(j);
        }
        j = j + 1;
    }
    None
}

/// An ASCII decimal digit.
pub open spec fn is_digit_char(c: char) -> bool {
    48 <= (c as u32) && (c as u32) <= 57
}

/// The number the digit string stands for.
pub open spec fn dec_value(s: Seq<char>) -> int
    decreases s.len(),
{
    if s.len() == 0 {
        0
    } else {
        dec_value(s.drop_last()) * 10 + (s.last() as u32) - 48
    }
}

pub open spec fn all_digits(s: Seq<char>) -> bool {
    forall|i: int| 0 <= i < s.len() ==> is_digit_char(#[trigger] s[i])
}

/// What `u32::from_str_radix(s, 10)` accepts: an optional leading `+`, then
/// digits whose value fits.
pub open spec fn parse_u32_spec(s: Seq<char>) -> Option<u32> {
    let t = if s.len() > 0 && s[0] == '+' {
        s.drop_first()
    } else {
        s
    };
    if t.len() > 0 && all_digits(t) && dec_value(t) < 0x1_0000_0000 {
        Some(dec_value(t) as u32)
    } else {
        None
    }
}

/// A longer digit string never stands for a smaller number.
proof fn lemma_dec_value_grows(s: Seq<char>, i: int)
    requires
        0 <= i <= s.len(),
        all_digits(s),
    ensures
        dec_value(s) >= dec_value(s.take(i)),
        dec_value(s) >= 0,
    decreases s.len(),
{
    if s.len() == 0 {
        assert(s.take(i) =~= s);
    } else {
        lemma_dec_value_grows(s.drop_last(), if i <= s.len() - 1 {
            i
        } else {
            s.len() - 1
        });
        assert(all_digits(s.drop_last()));
        if i <= s.len() - 1 {
            assert(s.drop_last().take(i) =~= s.take(i));
        } else {
            assert(s.take(i) =~= s);
        }
    }
}

/// Reads a decimal `u32` from the characters, as the idx `size` values are
/// written.
fn parse_u32_exec(v: &[char]) -> (r: Option<u32>)
    ensures
        r == parse_u32_spec(v@),
{
    let start: usize = if v.len() > 0 && v[0] == '+' {
        1
    } else {
        0
    };
    let ghost t = if v@.len() > 0 && v@[0] == '+' {
        v@.drop_first()
    } else {
        v@
    };
    proof {
        assert(t =~= v@.skip(start as int));
    }
    if v.len() == start {
        return None;
    }
    let mut acc: u64 = 0;
    let mut i: usize = start;
    while i < v.len()
        invariant
            start <= i <= v@.len(),
            start < v@.len(),
            t == v@.skip(start as int),
            t == (if v@.len() > 0 && v@[0] == '+' {
                v@.drop_first()
            } else {
                v@
            }),
            acc <= 0xFFFF_FFFF,
            all_digits(t.take(i - start)),
            acc == dec_value(t.take(i - start)),
        decreases v@.len() - i,
    {
        let c = v[i];
        let u = c as u32;
        if !(48 <= u && u <= 57) {
            proof {
                assert(t[i - start] == v@[i as int]);
                assert(!is_digit_char(t[i - start]));
                assert(!all_digits(t));
                assert(parse_u32_spec(v@) is None);
            }
            return None;
        }
        let d: u64 = (u - 48) as u64;
        let next: u64 = acc * 10 + d;
        proof {
            assert(t.take(i - start + 1).drop_last() =~= t.take(i - start));
            assert(t.take(i - start + 1).last() == v@[i as int]);
        }
        if next > 0xFFFF_FFFF {
            proof {
                assert(all_digits(t.take(i - start + 1)));
                assert(dec_value(t.take(i - start + 1)) == next);
                if all_digits(t) {
                    lemma_dec_value_grows(t, i - start + 1);
                    assert(dec_value(t) >= next);
                }
                assert(parse_u32_spec(v@) is None);
            }
            return None;
        }
        acc = next;
        i = i + 1;
    }
    proof {
        assert(t.take(v@.len() - start) =~= t);
        assert(all_digits(t));
        assert(parse_u32_spec(v@) == Some(acc as u32));
    }
    Some(acc as u32)
}

/// An ASCII hexadecimal digit.
pub open spec fn is_hex_char(c: char) -> bool {
    let u = c as u32;
    (48 <= u && u <= 57) || (97 <= u && u <= 102) || (65 <= u && u <= 70)
}

/// The value of one hexadecimal digit.
pub open spec fn hex_val(c: char) -> int {
    let u = c as u32;
    if 48 <= u && u <= 57 {
        u - 48
    } else if 97 <= u && u <= 102 {
        u - 87
    } else {
        u - 55
    }
}

/// Whether a trimmed palette entry is six hexadecimal digits.
pub open spec fn piece_ok(p: Seq<char>) -> bool {
    let t = trim_spec(p);
    t.len() == 6 && forall|i: int| 0 <= i < 6 ==> is_hex_char(#[trigger] t[i])
}

/// The colour a palette entry stands for, alpha forced to opaque.
pub open spec fn piece_color(p: Seq<char>) -> Rgba {
    let t = trim_spec(p);
    Rgba {
        r: (hex_val(t[0]) * 16 + hex_val(t[1])) as u8,
        g: (hex_val(t[2]) * 16 + hex_val(t[3])) as u8,
        b: (hex_val(t[4]) * 16 + hex_val(t[5])) as u8,
        a: 255,
    }
}

/// Walks the comma-separated palette entries from `i`, collecting their
/// colours; exactly sixteen well-formed entries make a palette.
pub open spec fn palette_scan(v: Seq<char>, i: int, acc: Seq<Rgba>) -> Option<Seq<Rgba>>
    decreases v.len() - i,
    via palette_scan_dec
{
    let k = find_char(v, i, ',');
    let piece = if k == -1 {
        v.skip(i)
    } else {
        v.subrange(i, k)
    };
    if !piece_ok(piece) {
        None
    } else {
        let acc2 = acc.push(piece_color(piece));
        if k == -1 {
            if acc2.len() == 16 {
                Some(acc2)
            } else {
                None
            }
        } else {
            palette_scan(v, k + 1, acc2)
        }
    }
}

#[via_fn]
proof fn palette_scan_dec(v: Seq<char>, i: int, acc: Seq<Rgba>) {
    lemma_find_char_range(v, i, ',');
}

/// The sixteen palette colours of an idx `palette` value, if well formed.
pub open spec fn palette_of_value(v: Seq<char>) -> Option<Seq<Rgba>> {
    palette_scan(v, 0, Seq::empty())
}

/// The `WxH` size of an idx `size` value, if well formed.
pub open spec fn size_of_value(v: Seq<char>) -> Option<(u32, u32)> {
    let k = find_char(v, 0, 'x');
    if k == -1 {
        None
    } else {
        match (parse_u32_spec(v.take(k)), parse_u32_spec(v.skip(k + 1))) {
            (Some(w), Some(h)) => Some((w, h)),
            _ => None,
        }
    }
}

/// One idx line folded into the running size and palette: comments and
/// unknown keys pass through; a malformed size or palette value fails.
pub open spec fn idx_line(
    line: Seq<char>,
    size: Option<(u32, u32)>,
    pal: Option<Seq<Rgba>>,
) -> Result<(Option<(u32, u32)>, Option<Seq<Rgba>>), SubError> {
    if line.len() > 0 && line[0] == '#' {
        Ok((size, pal))
    } else {
        let k = find_char(line, 0, ':');
        if k == -1 {
            Ok((size, pal))
        } else {
            let name = line.take(k);
            let value = trim_spec(line.skip(k + 1));
            if name == "size"@ {
                match size_of_value(value) {
                    Some(wh) => Ok((Some(wh), pal)),
                    None => Err(SubError::MalformedIdx),
                }
            } else if name == "palette"@ {
                match palette_of_value(value) {
                    Some(p) => Ok((size, Some(p))),
                    None => Err(SubError::MalformedIdx),
                }
            } else {
                Ok((size, pal))
            }
        }
    }
}

/// A line with its terminator's carriage return removed.
pub open spec fn strip_cr(line: Seq<char>) -> Seq<char> {
    if line.len() > 0 && line.last() == '\r' {
        line.drop_last()
    } else {
        line
    }
}

/// Scans the idx text line by line; at the end both a size and a palette
/// must have been seen.
pub open spec fn idx_scan(
    text: Seq<char>,
    size: Option<(u32, u32)>,
    pal: Option<Seq<Rgba>>,
) -> Result<(u32, u32, Seq<Rgba>), SubError>
    decreases text.len(),
    via idx_scan_dec
{
    if text.len() == 0 {
        match (size, pal) {
            (Some(wh), Some(p)) => Ok((wh.0, wh.1, p)),
            _ => Err(SubError::MalformedIdx),
        }
    } else {
        let k = find_char(text, 0, '\n');
        let line = if k == -1 {
            text
        } else {
            strip_cr(text.take(k))
        };
        match idx_line(line, size, pal) {
            Err(e) => Err(e),
            Ok((s2, p2)) => if k == -1 {
                match (s2, p2) {
                    (Some(wh), Some(p)) => Ok((wh.0, wh.1, p)),
                    _ => Err(SubError::MalformedIdx),
                }
            } else {
                idx_scan(text.skip(k + 1), s2, p2)
            },
        }
    }
}

#[via_fn]
proof fn idx_scan_dec(text: Seq<char>, size: Option<(u32, u32)>, pal: Option<Seq<Rgba>>) {
    lemma_find_char_range(text, 0, '\n');
}

/// The whole idx sidecar read from its bytes.
pub open spec fn idx_spec(data: Seq<u8>) -> Result<(u32, u32, Seq<Rgba>), SubError> {
    idx_scan(lossy_of(data), None, None)
}

/// Whether the characters are exactly this text.
fn seq_eq_lit(v: &[char], lit: &str) -> (r: bool)
    ensures
        r == (v@ == lit@),
{
    let n = lit.unicode_len();
    if v.len() != n {
        return false;
    }
    let mut j: usize = 0;
    while j < n
        invariant
            n == lit@.len(),
            n == v@.len(),
            j <= n,
            forall|j2: int| 0 <= j2 < j ==> v@[j2] == lit@[j2],
        decreases n - j,
    {
        if v[j] != lit.get_char(j) {
            return false;
        }
        j = j + 1;
    }
    proof {
        assert(v@ =~= lit@);
    }
    true
}

/// Reads one trimmed palette entry: six hexadecimal digits.
fn parse_piece(v: &[char]) -> (r: Option<Rgba>)
    ensures
        match r {
            Some(c) => piece_ok(v@) && c == piece_color(v@),
            None => !piece_ok(v@),
        },
{
    let t = trim_exec(v);
    if t.len() != 6 {
        return None;
    }
    let h0 = match hex_digit(t[0]) {
        Some(x) => x,
        None => {
            return None;
        },
    };
    let h1 = match hex_digit(t[1]) {
        Some(x) => x,
        None => {
            return None;
        },
    };
    let h2 = match hex_digit(t[2]) {
        Some(x) => x,
        None => {
            return None;
        },
    };
    let h3 = match hex_digit(t[3]) {
        Some(x) => x,
        None => {
            return None;
        },
    };
    let h4 = match hex_digit(t[4]) {
        Some(x) => x,
        None => {
            return None;
        },
    };
    let h5 = match hex_digit(t[5]) {
        Some(x) => x,
        None => {
            return None;
        },
    };
    Some(
        Rgba {
            r: (h0 * 16 + h1) as u8,
            g: (h2 * 16 + h3) as u8,
            b: (h4 * 16 + h5) as u8,
            a: 255,
        },
    )
}

/// The value of one hexadecimal digit, if it is one.
fn hex_digit(c: char) -> (r: Option<u8>)
    ensures
        match r {
            Some(x) => is_hex_char(c) && x == hex_val(c) && x < 16,
            None => !is_hex_char(c),
        },
{
    let u = c as u32;
    if 48 <= u && u <= 57 {
        Some((u - 48) as u8)
    } else if 97 <= u && u <= 102 {
        Some((u - 87) as u8)
    } else if 65 <= u && u <= 70 {
        Some((u - 55) as u8)
    } else {
        None
    }
}

/// Reads the sixteen comma-separated palette entries of an idx `palette`
/// value.
fn parse_palette_value(v: &[char]) -> (r: Option<Vec<Rgba>>)
    ensures
        match r {
            Some(p) => palette_of_value(v@) == Some(p@) && p@.len() == 16,
            None => palette_of_value(v@) is None,
        },
{
    let n = v.len();
    let mut acc: Vec<Rgba> = Vec::new();
    let mut i: usize = 0;
    loop
        invariant
            n == v@.len(),
            i <= n,
            palette_of_value(v@) == palette_scan(v@, i as int, acc@),
        decreases v@.len() - i,
    {
        let piece: &[char] = match find_char_exec(v, i, ',') {
            Some(k) => slice_subrange(v, i, k),
            None => slice_subrange(v, i, v.len()),
        };
        let k_opt = find_char_exec(v, i, ',');
        proof {
            if find_char(v@, i as int, ',') == -1 {
                assert(piece@ =~= v@.skip(i as int));
            } else {
                assert(piece@ =~= v@.subrange(i as int, find_char(v@, i as int, ',')));
            }
        }
        let c = match parse_piece(piece) {
            Some(c) => c,
            None => {
                return None;
            },
        };
        acc.push(c);
        match k_opt {
            Some(k) => {
                i = k + 1;
            },
            None => {
                if acc.len() == 16 {
                    return Some(acc);
                }
                return None;
            },
        }
    }
}

/// Reads the `WIDTHxHEIGHT` of an idx `size` value.
fn parse_size_value(v: &[char]) -> (r: Option<(u32, u32)>)
    ensures
        r == size_of_value(v@),
{
    let n = v.len();
    match find_char_exec(v, 0, 'x') {
        None => None,
        Some(k) => {
            let ws = slice_subrange(v, 0, k);
            let hs = slice_subrange(v, k + 1, n);
            proof {
                assert(ws@ =~= v@.take(k as int));
                assert(hs@ =~= v@.skip(k + 1));
            }
            match (parse_u32_exec(ws), parse_u32_exec(hs)) {
                (Some(w), Some(h)) => Some((w, h)),
                _ => None,
            }
        },
    }
}

/// The running palette as the scan's model sees it.
pub open spec fn opt_pal_view(p: &Option<Vec<Rgba>>) -> Option<Seq<Rgba>> {
    match p {
        Some(v) => Some(v@),
        None => None,
    }
}

/// A found position seen from a suffix: searching the suffix finds the same
/// character, shifted.
proof fn lemma_find_char_shift(s: Seq<char>, i: int, j: int, c: char)
    requires
        0 <= i <= j <= s.len(),
    ensures
        find_char(s, j, c) == -1 ==> find_char(s.skip(i), j - i, c) == -1,
        find_char(s, j, c) != -1 ==> find_char(s.skip(i), j - i, c) == find_char(s, j, c) - i,
    decreases s.len() - j,
{
    if j >= s.len() {
    } else {
        assert(s.skip(i)[j - i] == s[j]);
        if s[j] == c {
        } else {
            lemma_find_char_shift(s, i, j + 1, c);
        }
    }
}

/// Folds one idx line into the running size and palette, as `idx_line`
/// states it.
fn idx_line_exec(line: &[char], size: Option<(u32, u32)>, pal: Option<Vec<Rgba>>) -> (r: Result<
    (Option<(u32, u32)>, Option<Vec<Rgba>>),
    SubError,
>)
    requires
        opt_pal_view(&pal) matches Some(p) ==> p.len() == 16,
    ensures
        match r {
            Ok(t) => idx_line(line@, size, opt_pal_view(&pal)) matches Ok(t2) && t2.0 == t.0
                && t2.1 == opt_pal_view(&t.1) && (opt_pal_view(&t.1) matches Some(p) ==> p.len()
                == 16),
            Err(e) => idx_line(line@, size, opt_pal_view(&pal)) matches Err(e2) && e == e2,
        },
{
    let n = line.len();
    if n > 0 && line[0] == '#' {
        return Ok((size, pal));
    }
    match find_char_exec(line, 0, ':') {
        None => Ok((size, pal)),
        Some(kc) => {
            let name = slice_subrange(line, 0, kc);
            let raw_value = slice_subrange(line, kc + 1, n);
            let value = trim_exec(raw_value);
            proof {
                assert(name@ =~= line@.take(kc as int));
                assert(raw_value@ =~= line@.skip(kc + 1));
            }
            if seq_eq_lit(name, "size") {
                match parse_size_value(value.as_slice()) {
                    Some(wh) => Ok((Some(wh), pal)),
                    None => Err(SubError::MalformedIdx),
                }
            } else if seq_eq_lit(name, "palette") {
                match parse_palette_value(value.as_slice()) {
                    Some(p) => Ok((size, Some(p))),
                    None => Err(SubError::MalformedIdx),
                }
            } else {
                Ok((size, pal))
            }
        },
    }
}

/// Reads the idx sidecar held in a track's codec-private data: its `size`
/// and its sixteen-colour `palette`, as `idx_spec` lays it down.
#[verifier::rlimit(100)]
pub fn parse_idx(data: &[u8]) -> (r: Result<(u32, u32, Vec<Rgba>), SubError>)
    ensures
        match r {
            Ok((w, h, pal)) => idx_spec(data@) matches Ok(t) && t.0 == w && t.1 == h && t.2
                == pal@ && pal@.len() == 16,
            Err(e) => idx_spec(data@) matches Err(e2) && e == e2,
        },
{
    let text_s = utf8_lossy(data);
    let tv = str_chars(text_s.as_str());
    let v = tv.as_slice();
    let n = v.len();
    let ghost text = lossy_of(data@);
    let mut size_e: Option<(u32, u32)> = None;
    let mut pal_e: Option<Vec<Rgba>> = None;
    let mut i: usize = 0;
    proof {
        assert(text.skip(0) =~= text);
    }
    loop
        invariant
            text == lossy_of(data@),
            v@ == text,
            n == text.len(),
            i <= n,
            idx_scan(text, None, None) == idx_scan(
                text.skip(i as int),
                size_e,
                opt_pal_view(&pal_e),
            ),
            opt_pal_view(&pal_e) matches Some(p) ==> p.len() == 16,
        decreases n - i,
    {
        if i >= n {
            proof {
                assert(text.skip(i as int) =~= Seq::<char>::empty());
            }
            match (size_e, pal_e) {
                (Some(wh), Some(p)) => {
                    return Ok((wh.0, wh.1, p));
                },
                _ => {
                    return Err(SubError::MalformedIdx);
                },
            }
        }
        let ghost suffix = text.skip(i as int);
        let k_opt = find_char_exec(v, i, '\n');
        proof {
            lemma_find_char_shift(text, i as int, i as int, '\n');
        }
        let (line_end, next_i): (usize, usize) = match k_opt {
            Some(k) => {
                if k > i && v[k - 1] == '\r' {
                    (k - 1, k + 1)
                } else {
                    (k, k + 1)
                }
            },
            None => (n, n),
        };
        let line = slice_subrange(v, i, line_end);
        proof {
            match k_opt {
                Some(k) => {
                    let ks = k - i;
                    assert(find_char(suffix, 0, '\n') == ks);
                    assert(suffix.take(ks as int) =~= text.subrange(i as int, k as int));
                    assert(line@ =~= strip_cr(suffix.take(ks as int)));
                },
                None => {
                    assert(find_char(suffix, 0, '\n') == -1);
                    assert(line@ =~= suffix);
                },
            }
        }
        let ghost size0 = size_e;
        let ghost pal0 = opt_pal_view(&pal_e);
        let stepped = idx_line_exec(line, size_e, pal_e);
        match stepped {
            Err(e) => {
                return Err(e);
            },
            Ok((s2, p2)) => {
                size_e = s2;
                pal_e = p2;
            },
        }
        match k_opt {
            Some(k) => {
                proof {
                    assert(suffix.skip(k - i + 1) =~= text.skip(k + 1));
                }
                i = next_i;
            },
            None => {
                match (size_e, pal_e) {
                    (Some(wh), Some(p)) => {
                        return Ok((wh.0, wh.1, p));
                    },
                    _ => {
                        return Err(SubError::MalformedIdx);
                    },
                }
            },
        }
    }
}

/// Decodes one subpicture block into a bitmap, if its command sequences
/// carry an image; the bitmap is BGRA with four bytes per pixel.
pub fn parse_block(data: &[u8], palette: &[Rgba]) -> (r: Result<Option<Bitmap>, SubError>)
    requires
        palette@.len() == 16,
    ensures
        match r {
            Ok(Some(b)) => {
                &&& b.wf()
                &&& spu_block(data@, palette@) matches Ok(Some(t)) && t.0 == b.pixels@ && t.1
                    == b.width && t.2 == b.height
            },
            Ok(None) => spu_block(data@, palette@) matches Ok(o) && o is None,
            Err(e) => spu_block(data@, palette@) matches Err(e2) && e == e2,
        },
{
    match decode_block(data, palette) {
        Ok(Some((bytes, w, h))) => Ok(Some(Bitmap::new(w, h, bytes))),
        Ok(None) => Ok(None),
        Err(e) => Err(e),
    }
}

/// The byte stream whose every row is one fill command of colour `c`:
/// two bytes per row, the four nibbles `0,0,0,c`.
pub open spec fn fill_rows(c: u8, height: int) -> Seq<u8> {
    Seq::new(
        (2 * height) as nat,
        |i: int|
            if i % 2 == 0 {
                0u8
            } else {
                c
            },
    )
}

proof fn lemma_fill_decode_from(c: u8, width: int, height: int, pal: Seq<Rgba>, r: int)
    requires
        0 <= c < 4,
        1 <= width,
        0 <= r <= height,
        pal.len() == 4,
    ensures
        vob_decode_from(fill_rows(c, height), 4 * r, r * width, width * height, width, pal)
            == Some(Seq::new(((height - r) * width) as nat, |i: int| pal[3 - c])),
    decreases height - r,
{
    let data = fill_rows(c, height);
    let total = width * height;
    let count = r * width;
    if r == height {
        assert(count == total) by (nonlinear_arith)
            requires
                count == r * width && total == width * height && r == height,
        ;
        assert((height - r) * width == 0) by (nonlinear_arith)
            requires
                r == height,
        ;
        assert(Seq::new(((height - r) * width) as nat, |i: int| pal[3 - c])
            =~= Seq::<Rgba>::empty());
    } else {
        assert(count < total && count + width <= total && (count + width) == (r + 1) * width) by (
        nonlinear_arith)
            requires
                count == r * width && total == width * height && 0 <= r < height && width >= 1,
        ;
        assert(nibble_at(data, 4 * r) == 0 && nibble_at(data, 4 * r + 1) == 0 && nibble_at(
            data,
            4 * r + 2,
        ) == 0 && nibble_at(data, 4 * r + 3) == c) by {
            assert(data[4 * r / 2] == 0);
            assert(data[(4 * r + 1) / 2] == 0);
            assert(data[(4 * r + 2) / 2] == c);
            assert(data[(4 * r + 3) / 2] == c);
            assert(c / 16 == 0 && c % 16 == c);
        }
        assert(4 * r + 3 < 2 * data.len());
        assert(vob_token(data, 4 * r) == Some(
            VobToken::Fill { color: c as int, next: 4 * r + 4 },
        ));
        assert(count % width == 0 && (count + width) % width == 0) by (nonlinear_arith)
            requires
                count == r * width && width >= 1,
        ;
        assert(round_up_even(4 * r + 4) == 4 * r + 4);
        lemma_fill_decode_from(c, width, height, pal, r + 1);
        assert(4 * (r + 1) == 4 * r + 4);
        let run_seq = Seq::new(width as nat, |i: int| pal[3 - c]);
        let rest = Seq::new(((height - r - 1) * width) as nat, |i: int| pal[3 - c]);
        assert((height - (r + 1)) * width == (height - r - 1) * width);
        assert(((height - r) * width) == width + (height - r - 1) * width) by (nonlinear_arith);
        assert(run_seq + rest =~= Seq::new(((height - r) * width) as nat, |i: int| pal[3 - c]));
        assert(vob_decode_from(data, 4 * r, count, total, width, pal) == Some(run_seq + rest));
    }
}

/// The fill-command round trip: a stream whose every row is one fill of
/// colour `c` decodes to an image whose every pixel is `palette[3 − c]`,
/// the documented index reversal.
pub proof fn lemma_fill_rows_decode(c: u8, width: int, height: int, pal: Seq<Rgba>)
    requires
        0 <= c < 4,
        1 <= width,
        0 <= height,
        pal.len() == 4,
    ensures
        vob_decode_from(fill_rows(c, height), 0, 0, width * height, width, pal) == Some(
            Seq::new((width * height) as nat, |i: int| pal[3 - c]),
        ),
{
    lemma_fill_decode_from(c, width, height, pal, 0);
    assert(height * width == width * height) by (nonlinear_arith);
    assert(Seq::new((height * width) as nat, |i: int| pal[3 - c]) =~= Seq::new(
        (width * height) as nat,
        |i: int| pal[3 - c],
    ));
}

/// The two interlaced fields of one decoded subpicture cover its height
/// exactly: the even field decodes one line per output row `2i`, the odd
/// field one per row `2i+1`, and their line counts — the ceiling and the
/// floor of half the height — always sum to the height.
pub proof fn lemma_fields_cover_height(img: Seq<u8>, palette: Seq<Rgba>, st: SpuState)
    requires
        spu_decode_arm(img, palette, st) is Ok,
    ensures
        (match (st.imgptrs, st.colors, st.alphas, st.size) {
            (Some(ptrs), Some(cols), Some(als), Some(size)) => {
                let f = ptrs.0 as int;
                let s2 = ptrs.1 as int;
                let w = size.0 as int;
                let h = size.1 as int;
                let even = img.subrange(f - 4, s2 - 4);
                let odd = img.subrange(s2 - 4, img.len() as int);
                let sub = subpal_of(palette, cols, als);
                let e = (h + 1) / 2;
                let o = h / 2;
                &&& vob_decode_from(even, 0, 0, w * e, w, sub) matches Some(ep) && ep.len() == w
                    * e
                &&& vob_decode_from(odd, 0, 0, w * o, w, sub) matches Some(op) && op.len() == w
                    * o
                &&& e + o == h
            },
            _ => false,
        }),
{
    match (st.imgptrs, st.colors, st.alphas, st.size) {
        (Some(ptrs), Some(cols), Some(als), Some(size)) => {
            let f = ptrs.0 as int;
            let s2 = ptrs.1 as int;
            let w = size.0 as int;
            let h = size.1 as int;
            let even = img.subrange(f - 4, s2 - 4);
            let odd = img.subrange(s2 - 4, img.len() as int);
            let sub = subpal_of(palette, cols, als);
            let e = (h + 1) / 2;
            let o = h / 2;
            lemma_vob_decode_len(even, 0, 0, w * e, w, sub);
            lemma_vob_decode_len(odd, 0, 0, w * o, w, sub);
            assert(w * e >= 0 && w * o >= 0) by (nonlinear_arith)
                requires
                    w >= 0 && e >= 0 && o >= 0,
            ;
        },
        _ => {},
    }
}

} // verus!
