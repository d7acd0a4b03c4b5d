use vstd::prelude::*;
use crate::bitmap::{Bitmap, Rgba};
use crate::bytes::ByteCursor;
use crate::errors::SubError;

verus! {

/// The presentation-graphics segment kinds the pipeline knows.
#[derive(Clone, Copy, Debug, PartialEq, Eq, Structural)]
pub enum SegmentType {
    PaletteDef,
    ObjDataDef,
    PresentationComp,
    WindowDef,
    EndDisplaySet,
}

/// The wire value of each segment kind.
pub open spec fn seg_type_of(b: u8) -> Option<SegmentType> {
    if b == 0x14 {
        Some(SegmentType::PaletteDef)
    } else if b == 0x15 {
        Some(SegmentType::ObjDataDef)
    } else if b == 0x16 {
        Some(SegmentType::PresentationComp)
    } else if b == 0x17 {
        Some(SegmentType::WindowDef)
    } else if b == 0x80 {
        Some(SegmentType::EndDisplaySet)
    } else {
        None
    }
}

/// One palette entry as it stands on the wire: YCbCr with alpha.
#[derive(Clone, Copy, Debug, PartialEq, Eq, Structural)]
pub struct PaletteEntry {
    pub palette_entry_id: u8,
    pub luminance: u8,
    pub color_difference_red: u8,
    pub color_difference_blue: u8,
    pub alpha: u8,
}

/// A palette entry converted to sRGB.
#[derive(Clone, Copy, Debug, PartialEq, Eq, Structural)]
pub struct ConvertedPaletteEntry {
    pub id: u8,
    pub color: Rgba,
}

/// A 24-bit length read from three bytes.
#[derive(Clone, Copy, Debug, PartialEq, Eq, Structural)]
pub struct ObjectDataLength(pub u32);

/// The header of an object-data segment.
#[derive(Clone, Copy, Debug, PartialEq, Eq, Structural)]
pub struct ObjectDef {
    pub id: u16,
    pub version: u8,
    pub last_seq_in_flag: u8,
    pub object_data_length: ObjectDataLength,
    pub width: u16,
    pub height: u16,
}

/// One converted channel: the ITU-R BT.601 sum in thousandths, divided out
/// and clamped to a byte.
pub open spec fn clamp_channel(v: int) -> u8 {
    if v < 0 {
        0
    } else if v / 1000 > 255 {
        255
    } else {
        (v / 1000) as u8
    }
}

/// The BT.601 conversion of one palette entry, with the `Y−16`, `Cb−128`,
/// `Cr−128` offsets wrapping as bytes.
pub open spec fn converted_color(e: PaletteEntry) -> ConvertedPaletteEntry {
    let y = (e.luminance - 16) % 256;
    let cb = (e.color_difference_blue - 128) % 256;
    let cr = (e.color_difference_red - 128) % 256;
    ConvertedPaletteEntry {
        id: e.palette_entry_id,
        color: Rgba {
            r: clamp_channel(1164 * y + 1793 * cr),
            g: clamp_channel(1164 * y - 213 * cb - 533 * cr),
            b: clamp_channel(1164 * y + 2112 * cb),
            a: e.alpha,
        },
    }
}

/// Converts one YCbCr palette entry to sRGB by the fixed BT.601 matrix,
/// kept exact in thousandths.
#[verifier::rlimit(50)]
pub fn convert_palette_color(entry: &PaletteEntry) -> (r: ConvertedPaletteEntry)
    ensures
        r == converted_color(*entry),
{
    let y = entry.luminance.wrapping_sub(16) as i32;
    let cb = entry.color_difference_blue.wrapping_sub(128) as i32;
    let cr = entry.color_difference_red.wrapping_sub(128) as i32;
    proof {
        assert(y == (entry.luminance - 16) % 256);
        assert(cb == (entry.color_difference_blue - 128) % 256);
        assert(cr == (entry.color_difference_red - 128) % 256);
        assert(0 <= y <= 255 && 0 <= cb <= 255 && 0 <= cr <= 255);
    }
    let rv = clamp_exec(1164 * y + 1793 * cr);
    let gv = clamp_exec(1164 * y - 213 * cb - 533 * cr);
    let bv = clamp_exec(1164 * y + 2112 * cb);
    ConvertedPaletteEntry {
        id: entry.palette_entry_id,
        color: Rgba { r: rv, g: gv, b: bv, a: entry.alpha },
    }
}

fn clamp_exec(v: i32) -> (r: u8)
    requires
        -1000000 <= v <= 1000000,
    ensures
        r == clamp_channel(v as int),
{
    if v < 0 {
        0
    } else {
        let d = v / 1000;
        if d > 255 {
            255
        } else {
            d as u8
        }
    }
}

/// The palette entries of a palette-definition body, converted; the
/// two-byte header comes first and the entries must fill the body exactly.
pub open spec fn palette_entries(body: Seq<u8>, i: int) -> Option<Seq<ConvertedPaletteEntry>>
    decreases body.len() - i,
{
    if i == body.len() {
        Some(Seq::empty())
    } else if i + 5 <= body.len() {
        match palette_entries(body, i + 5) {
            None => None,
            Some(rest) => Some(
                seq![
                    converted_color(
                        PaletteEntry {
                            palette_entry_id: body[i],
                            luminance: body[i + 1],
                            color_difference_red: body[i + 2],
                            color_difference_blue: body[i + 3],
                            alpha: body[i + 4],
                        },
                    ),
                ] + rest,
            ),
        }
    } else {
        None
    }
}

/// The converted palette a palette-definition segment carries.
pub open spec fn palette_def_spec(body: Seq<u8>) -> Option<Seq<ConvertedPaletteEntry>> {
    if body.len() < 2 {
        None
    } else {
        palette_entries(body, 2)
    }
}

/// Reads a palette-definition segment body: the two-byte header, then
/// five-byte entries until the body ends, each converted to sRGB.
pub fn read_palette_def_segment(body: &[u8]) -> (r: Result<Vec<ConvertedPaletteEntry>, SubError>)
    ensures
        match r {
            Ok(pal) => palette_def_spec(body@) == Some(pal@),
            Err(e) => palette_def_spec(body@) is None && e == SubError::MalformedSegment,
        },
{
    let n = body.len();
    if n < 2 {
        return Err(SubError::MalformedSegment);
    }
    let mut acc: Vec<ConvertedPaletteEntry> = Vec::new();
    let mut i: usize = 2;
    while i < n
        invariant
            n == body@.len(),
            2 <= i <= n,
            (match palette_entries(body@, i as int) {
                Some(rest) => palette_def_spec(body@) == Some(acc@ + rest),
                None => palette_def_spec(body@) is None,
            }),
        decreases n - i,
    {
        if n - i < 5 {
            return Err(SubError::MalformedSegment);
        }
        let e = PaletteEntry {
            palette_entry_id: body[i],
            luminance: body[i + 1],
            color_difference_red: body[i + 2],
            color_difference_blue: body[i + 3],
            alpha: body[i + 4],
        };
        let c = convert_palette_color(&e);
        acc.push(c);
        proof {
            match palette_entries(body@, i + 5) {
                Some(rest) => {
                    assert(acc@ + rest =~= acc@.drop_last() + (seq![c] + rest));
                },
                None => {},
            }
        }
        i = i + 5;
    }
    proof {
        assert(palette_entries(body@, i as int) == Some(Seq::<ConvertedPaletteEntry>::empty()));
        assert(acc@ + Seq::<ConvertedPaletteEntry>::empty() =~= acc@);
    }
    Ok(acc)
}

/// The run-length lines of an object body from byte `i`: a nonzero byte is
/// one pixel of that colour; a zero byte starts a coded run or, with a zero
/// code byte, ends the line. A line left open at the end of the body is
/// dropped.
pub open spec fn pgs_lines(
    body: Seq<u8>,
    i: int,
    cur: Seq<(u8, u16)>,
    acc: Seq<Seq<(u8, u16)>>,
) -> Option<Seq<Seq<(u8, u16)>>>
    decreases body.len() - i,
{
    if i >= body.len() {
        Some(acc)
    } else {
        let b = body[i];
        if b != 0 {
            pgs_lines(body, i + 1, cur.push((b, 1u16)), acc)
        } else if i + 2 > body.len() {
            None
        } else {
            let d = body[i + 1];
            if d == 0 {
                pgs_lines(body, i + 2, Seq::empty(), acc.push(cur))
            } else {
                let code = d / 64;
                let num = d % 64;
                if code == 0 {
                    pgs_lines(body, i + 2, cur.push((0u8, num as u16)), acc)
                } else if code == 1 {
                    if i + 3 <= body.len() {
                        pgs_lines(
                            body,
                            i + 3,
                            cur.push((0u8, (num * 256 + body[i + 2]) as u16)),
                            acc,
                        )
                    } else {
                        None
                    }
                } else if code == 2 {
                    if i + 3 <= body.len() {
                        pgs_lines(body, i + 3, cur.push((body[i + 2], num as u16)), acc)
                    } else {
                        None
                    }
                } else {
                    if i + 4 <= body.len() {
                        pgs_lines(
                            body,
                            i + 4,
                            cur.push((body[i + 3], (num * 256 + body[i + 2]) as u16)),
                            acc,
                        )
                    } else {
                        None
                    }
                }
            }
        }
    }
}

/// The header and run-length lines an object-data segment carries.
pub open spec fn object_def_spec(body: Seq<u8>) -> Option<(ObjectDef, Seq<Seq<(u8, u16)>>)> {
    if body.len() < 11 {
        None
    } else {
        let od = ObjectDef {
            id: crate::vob::be16(body, 0) as u16,
            version: body[2],
            last_seq_in_flag: body[3],
            object_data_length: ObjectDataLength(
                (body[4] * 0x10000 + body[5] * 0x100 + body[6]) as u32,
            ),
            width: crate::vob::be16(body, 7) as u16,
            height: crate::vob::be16(body, 9) as u16,
        };
        match pgs_lines(body, 11, Seq::empty(), Seq::empty()) {
            None => None,
            Some(lines) => Some((od, lines)),
        }
    }
}

/// The run-length lines a vector of lines stands for.
pub open spec fn lines_view(acc: Seq<Vec<(u8, u16)>>) -> Seq<Seq<(u8, u16)>> {
    Seq::new(acc.len(), |i: int| acc[i]@)
}

/// Reads an object-data segment body: the eleven-byte header, then the
/// run-length lines, each terminated by a zero pair.
pub fn read_object_def_segment(body: &[u8]) -> (r: Result<
    (ObjectDef, Vec<Vec<(u8, u16)>>),
    SubError,
>)
    ensures
        match r {
            Ok((od, lines)) => object_def_spec(body@) == Some((od, lines_view(lines@))),
            Err(e) => object_def_spec(body@) is None && e == SubError::MalformedSegment,
        },
{
    let n = body.len();
    if n < 11 {
        return Err(SubError::MalformedSegment);
    }
    let id: u16 = (body[0] as u16) * 256 + (body[1] as u16);
    let version = body[2];
    let last_seq_in_flag = body[3];
    let dl: u32 = (body[4] as u32) * 0x10000 + (body[5] as u32) * 0x100 + (body[6] as u32);
    let width: u16 = (body[7] as u16) * 256 + (body[8] as u16);
    let height: u16 = (body[9] as u16) * 256 + (body[10] as u16);
    let od = ObjectDef {
        id,
        version,
        last_seq_in_flag,
        object_data_length: ObjectDataLength(dl),
        width,
        height,
    };
    let mut cur: Vec<(u8, u16)> = Vec::new();
    let mut acc: Vec<Vec<(u8, u16)>> = Vec::new();
    let mut i: usize = 11;
    proof {
        assert(cur@ =~= Seq::<(u8, u16)>::empty());
        assert(lines_view(acc@) =~= Seq::<Seq<(u8, u16)>>::empty());
    }
    while i < n
        invariant
            n == body@.len(),
            11 <= i <= n,
            pgs_lines(body@, 11, Seq::empty(), Seq::empty()) == pgs_lines(
                body@,
                i as int,
                cur@,
                lines_view(acc@),
            ),
        decreases n - i,
    {
        let b = body[i];
        if b != 0 {
            cur.push((b, 1u16));
            i = i + 1;
        } else if n - i < 2 {
            return Err(SubError::MalformedSegment);
        } else {
            let d = body[i + 1];
            if d == 0 {
                let ghost cur0 = cur@;
                let ghost acc0 = acc@;
                let done = cur;
                cur = Vec::new();
                acc.push(done);
                proof {
                    assert(cur@ =~= Seq::<(u8, u16)>::empty());
                    assert(lines_view(acc@) =~= lines_view(acc0).push(cur0));
                }
                i = i + 2;
            } else {
                let code = d / 64;
                let num = d % 64;
                if code == 0 {
                    cur.push((0u8, num as u16));
                    i = i + 2;
                } else if code == 1 {
                    if n - i < 3 {
                        return Err(SubError::MalformedSegment);
                    }
                    cur.push((0u8, (num as u16) * 256 + (body[i + 2] as u16)));
                    i = i + 3;
                } else if code == 2 {
                    if n - i < 3 {
                        return Err(SubError::MalformedSegment);
                    }
                    cur.push((body[i + 2], num as u16));
                    i = i + 3;
                } else {
                    if n - i < 4 {
                        return Err(SubError::MalformedSegment);
                    }
                    cur.push((body[i + 3], (num as u16) * 256 + (body[i + 2] as u16)));
                    i = i + 4;
                }
            }
        }
    }
    proof {
        assert(pgs_lines(body@, i as int, cur@, lines_view(acc@)) == Some(lines_view(acc@)));
    }
    Ok((od, acc))
}

/// The colour a palette id selects: the first entry with that id, or
/// transparent black when none carries it.
pub open spec fn find_palette(pal: Seq<ConvertedPaletteEntry>, id: u8, i: int) -> Rgba
    decreases pal.len() - i,
{
    if i < 0 || i >= pal.len() {
        Rgba { r: 0, g: 0, b: 0, a: 0 }
    } else if pal[i].id == id {
        pal[i].color
    } else {
        find_palette(pal, id, i + 1)
    }
}

/// The first entry with this id, as `find_palette` names it.
fn find_palette_exec(pal: &[ConvertedPaletteEntry], id: u8) -> (r: Rgba)
    ensures
        r == find_palette(pal@, id, 0),
{
    let n = pal.len();
    let mut i: usize = 0;
    while i < n
        invariant
            n == pal@.len(),
            i <= n,
            find_palette(pal@, id, 0) == find_palette(pal@, id, i as int),
        decreases n - i,
    {
        if pal[i].id == id {
            return pal[i].color;
        }
        i = i + 1;
    }
    Rgba { r: 0, g: 0, b: 0, a: 0 }
}

/// A run of `n` copies of one colour, as BGRA bytes.
pub open spec fn pixel_run(color: Rgba, n: int) -> Seq<u8> {
    Seq::new((n * 4) as nat, |k: int| color.bgra()[k % 4])
}

/// The BGRA bytes of one decoded row.
pub open spec fn row_pixels(line: Seq<(u8, u16)>, pal: Seq<ConvertedPaletteEntry>) -> Seq<u8>
    decreases line.len(),
{
    if line.len() == 0 {
        Seq::empty()
    } else {
        row_pixels(line.drop_last(), pal) + pixel_run(
            find_palette(pal, line.last().0, 0),
            line.last().1 as int,
        )
    }
}

/// The pixels a row's runs cover.
pub open spec fn run_sum(line: Seq<(u8, u16)>) -> int
    decreases line.len(),
{
    if line.len() == 0 {
        0int
    } else {
        run_sum(line.drop_last()) + line.last().1
    }
}

pub proof fn lemma_row_pixels_len(line: Seq<(u8, u16)>, pal: Seq<ConvertedPaletteEntry>)
    ensures
        row_pixels(line, pal).len() == 4 * run_sum(line),
        run_sum(line) >= 0,
    decreases line.len(),
{
    if line.len() > 0 {
        lemma_row_pixels_len(line.drop_last(), pal);
    }
}

/// All zero bytes: the transparent black the decoder leaves where an object
/// carries fewer rows than its height.
pub open spec fn zero_bytes(n: int) -> Seq<u8> {
    Seq::new(n as nat, |k: int| 0u8)
}

/// The BGRA image of the rows from `r` down: each decoded row must cover
/// the width exactly; rows past the last decoded line stay transparent; the
/// decoder stops once `height` rows are filled.
pub open spec fn rows_bytes(
    lines: Seq<Seq<(u8, u16)>>,
    pal: Seq<ConvertedPaletteEntry>,
    width: int,
    height: int,
    r: int,
) -> Option<Seq<u8>>
    decreases height - r,
{
    if r >= height {
        Some(Seq::empty())
    } else if r >= lines.len() {
        Some(zero_bytes((height - r) * width * 4))
    } else if run_sum(lines[r]) != width {
        None
    } else {
        match rows_bytes(lines, pal, width, height, r + 1) {
            None => None,
            Some(rest) => Some(row_pixels(lines[r], pal) + rest),
        }
    }
}

/// The whole object image, when every decoded row fits the width.
pub open spec fn pgs_image_bytes(
    lines: Seq<Seq<(u8, u16)>>,
    pal: Seq<ConvertedPaletteEntry>,
    width: int,
    height: int,
) -> Option<Seq<u8>> {
    rows_bytes(lines, pal, width, height, 0)
}

/// Every row a well-formed object decodes covers its width exactly.
pub proof fn lemma_pgs_rows_cover_width(
    lines: Seq<Seq<(u8, u16)>>,
    pal: Seq<ConvertedPaletteEntry>,
    width: int,
    height: int,
    r: int,
)
    requires
        pgs_image_bytes(lines, pal, width, height) is Some,
        0 <= r < height,
        r < lines.len(),
    ensures
        run_sum(lines[r]) == width,
{
    lemma_rows_bytes_cover(lines, pal, width, height, 0, r);
}

proof fn lemma_rows_bytes_cover(
    lines: Seq<Seq<(u8, u16)>>,
    pal: Seq<ConvertedPaletteEntry>,
    width: int,
    height: int,
    from: int,
    r: int,
)
    requires
        rows_bytes(lines, pal, width, height, from) is Some,
        from <= r < height,
        r < lines.len(),
    ensures
        run_sum(lines[r]) == width,
    decreases r - from,
{
    if from < r {
        lemma_rows_bytes_cover(lines, pal, width, height, from + 1, r);
    }
}

/// A decoded image holds exactly `width · height` pixels of four bytes.
pub proof fn lemma_rows_bytes_len(
    lines: Seq<Seq<(u8, u16)>>,
    pal: Seq<ConvertedPaletteEntry>,
    width: int,
    height: int,
    r: int,
)
    requires
        width >= 0,
        rows_bytes(lines, pal, width, height, r) is Some,
    ensures
        rows_bytes(lines, pal, width, height, r).unwrap().len() == if r < height {
            (height - r) * width * 4
        } else {
            0
        },
    decreases height - r,
{
    if r >= height {
    } else if r >= lines.len() {
    } else if run_sum(lines[r]) != width {
    } else {
        lemma_rows_bytes_len(lines, pal, width, height, r + 1);
        lemma_row_pixels_len(lines[r], pal);
        assert((height - r) * width * 4 == width * 4 + (height - (r + 1)) * width * 4) by (
        nonlinear_arith);
    }
}

/// More runs never cover fewer pixels.
proof fn lemma_run_sum_grows(line: Seq<(u8, u16)>, j: int)
    requires
        0 <= j <= line.len(),
    ensures
        run_sum(line) >= run_sum(line.take(j)),
        run_sum(line) >= 0,
    decreases line.len(),
{
    if line.len() == 0 {
        assert(line.take(j) =~= line);
    } else {
        lemma_run_sum_grows(line.drop_last(), if j <= line.len() - 1 {
            j
        } else {
            line.len() - 1
        });
        if j <= line.len() - 1 {
            assert(line.drop_last().take(j) =~= line.take(j));
        } else {
            assert(line.take(j) =~= line);
        }
    }
}

/// The pixels a row's runs cover, capped at one above the width so the sum
/// fits a machine word.
fn row_sum_exec(line: &[(u8, u16)], width: usize) -> (r: bool)
    requires
        width <= 0xFFFF,
    ensures
        r == (run_sum(line@) == width),
{
    let n = line.len();
    let mut sum: u64 = 0;
    let mut j: usize = 0;
    while j < n
        invariant
            width <= 0xFFFF,
            n == line@.len(),
            j <= n,
            sum <= 0x1_FFFF,
            sum == run_sum(line@.take(j as int)),
        decreases n - j,
    {
        let cnt = line[j].1;
        proof {
            assert(line@.take(j + 1).drop_last() =~= line@.take(j as int));
            assert(line@.take(j + 1).last() == line@[j as int]);
        }
        let next: u64 = sum + (cnt as u64);
        if next > 0x1_FFFF {
            proof {
                assert(run_sum(line@.take(j + 1)) == next);
                lemma_run_sum_grows(line@, j + 1);
            }
            return false;
        }
        sum = next;
        j = j + 1;
    }
    proof {
        assert(line@.take(n as int) =~= line@);
    }
    sum == width as u64
}

/// Decodes one object's run-length lines into a BGRA bitmap through the
/// last palette: every decoded row must cover the width exactly, rows past
/// the last line stay transparent, and the decoder stops at `height` rows.
#[verifier::rlimit(100)]
pub fn decode_image(
    object_def: &ObjectDef,
    color_data_lines: &Vec<Vec<(u8, u16)>>,
    palette_data: &Vec<ConvertedPaletteEntry>,
) -> (r: Result<Bitmap, SubError>)
    requires
        object_def.width * object_def.height * 4 <= 0x0400_0000,
    ensures
        match r {
            Ok(b) => {
                &&& b.wf()
                &&& b.width == object_def.width
                &&& b.height == object_def.height
                &&& pgs_image_bytes(
                    lines_view(color_data_lines@),
                    palette_data@,
                    object_def.width as int,
                    object_def.height as int,
                ) == Some(b.pixels@)
            },
            Err(e) => pgs_image_bytes(
                lines_view(color_data_lines@),
                palette_data@,
                object_def.width as int,
                object_def.height as int,
            ) is None && e == SubError::MalformedSegment,
        },
{
    let w: usize = object_def.width as usize;
    let h: usize = object_def.height as usize;
    let ghost lines = lines_view(color_data_lines@);
    let ghost pal = palette_data@;
    let mut pixels: Vec<u8> = Vec::new();
    let mut r: usize = 0;
    while r < h
        invariant
            w == object_def.width,
            h == object_def.height,
            w * h * 4 <= 0x0400_0000,
            lines == lines_view(color_data_lines@),
            pal == palette_data@,
            r <= h,
            (match rows_bytes(lines, pal, w as int, h as int, r as int) {
                Some(rest) => pgs_image_bytes(lines, pal, w as int, h as int) == Some(
                    pixels@ + rest,
                ),
                None => pgs_image_bytes(lines, pal, w as int, h as int) is None,
            }),
            pixels@.len() == r * w * 4,
        decreases h - r,
    {
        proof {
            assert(r * w * 4 + (h - r) * w * 4 == h * w * 4 && h * w * 4 == w * h * 4) by (
            nonlinear_arith);
        }
        if r >= color_data_lines.len() {
            // remaining rows stay transparent black
            let rest_rows: usize = h - r;
            let to_fill: usize = rest_rows * w * 4;
            let ghost base = pixels@;
            let mut k: usize = 0;
            while k < to_fill
                invariant
                    k <= to_fill,
                    pixels@.len() == base.len() + k,
                    pixels@ == base + zero_bytes(k as int),
                decreases to_fill - k,
            {
                pixels.push(0);
                proof {
                    assert(pixels@ =~= base + zero_bytes(k + 1));
                }
                k = k + 1;
            }
            proof {
                assert(rows_bytes(lines, pal, w as int, h as int, r as int) == Some(
                    zero_bytes((h - r) * w * 4),
                ));
                lemma_rows_bytes_len(lines, pal, w as int, h as int, 0);
            }
            return Ok(Bitmap::new(w, h, pixels));
        }
        let line = &color_data_lines[r];
        proof {
            assert(line@ == lines[r as int]);
        }
        if !row_sum_exec(line.as_slice(), w) {
            return Err(SubError::MalformedSegment);
        }
        let ghost base = pixels@;
        let nruns = line.len();
        let mut j: usize = 0;
        while j < nruns
            invariant
                nruns == line@.len(),
                j <= nruns,
                pal == palette_data@,
                line@ == lines[r as int],
                r < lines.len(),
                pixels@ == base + row_pixels(line@.take(j as int), pal),
            decreases nruns - j,
        {
            let (cid, cnt) = line[j];
            let color = find_palette_exec(palette_data.as_slice(), cid);
            let ghost before_run = pixels@;
            let mut k: usize = 0;
            while k < cnt as usize
                invariant
                    k <= cnt,
                    pixels@ == before_run + pixel_run(color, k as int),
                decreases cnt - k,
            {
                pixels.push(color.b);
                pixels.push(color.g);
                pixels.push(color.r);
                pixels.push(color.a);
                proof {
                    assert(pixels@ =~= before_run + pixel_run(color, k + 1));
                }
                k = k + 1;
            }
            proof {
                assert(line@.take(j + 1).drop_last() =~= line@.take(j as int));
                assert(line@.take(j + 1).last() == line@[j as int]);
                assert(pixels@ =~= base + row_pixels(line@.take(j + 1), pal));
            }
            j = j + 1;
        }
        proof {
            assert(line@.take(nruns as int) =~= line@);
            lemma_row_pixels_len(line@, pal);
            assert(pixels@.len() == r * w * 4 + w * 4);
            assert(r * w * 4 + w * 4 == (r + 1) * w * 4) by (nonlinear_arith);
            match rows_bytes(lines, pal, w as int, h as int, r + 1) {
                Some(rest) => {
                    assert(base + (row_pixels(line@, pal) + rest) =~= pixels@ + rest);
                },
                None => {},
            }
        }
        r = r + 1;
    }
    proof {
        assert(rows_bytes(lines, pal, w as int, h as int, h as int) == Some(
            Seq::<u8>::empty(),
        ));
        assert(pixels@ + Seq::<u8>::empty() =~= pixels@);
        assert(h * w * 4 == w * h * 4) by (nonlinear_arith);
    }
    Ok(Bitmap::new(w, h, pixels))
}

/// Walks the segments of one block: `{type, length, body}` triples. A
/// palette definition becomes the last palette; the first object decoded
/// through a seen palette wins; an object before any palette is skipped; an
/// empty length is allowed only on the end-of-display-set mark. An image
/// too large for this machine's buffers is malformed.
pub open spec fn pgs_scan(
    data: Seq<u8>,
    p: int,
    last_palette: Option<Seq<ConvertedPaletteEntry>>,
) -> Result<Option<(Seq<u8>, int, int)>, SubError>
    decreases data.len() - p,
{
    if p >= data.len() {
        Ok(None)
    } else if p + 3 > data.len() {
        Err(SubError::MalformedSegment)
    } else {
        match seg_type_of(data[p]) {
            None => Err(SubError::MalformedSegment),
            Some(ty) => {
                let len = crate::vob::be16(data, p + 1);
                if len == 0 {
                    if ty is EndDisplaySet {
                        pgs_scan(data, p + 3, last_palette)
                    } else {
                        Err(SubError::MalformedSegment)
                    }
                } else if p + 3 + len > data.len() {
                    Err(SubError::MalformedSegment)
                } else {
                    let body = data.subrange(p + 3, p + 3 + len);
                    if ty is PaletteDef {
                        match palette_def_spec(body) {
                            None => Err(SubError::MalformedSegment),
                            Some(pal) => pgs_scan(data, p + 3 + len, Some(pal)),
                        }
                    } else if ty is ObjDataDef {
                        match object_def_spec(body) {
                            None => Err(SubError::MalformedSegment),
                            Some(odl) => match last_palette {
                                None => pgs_scan(data, p + 3 + len, last_palette),
                                Some(pal) => {
                                    let w = odl.0.width as int;
                                    let h = odl.0.height as int;
                                    if w * h * 4 > 0x0400_0000 {
                                        Err(SubError::MalformedSegment)
                                    } else {
                                        match pgs_image_bytes(odl.1, pal, w, h) {
                                            None => Err(SubError::MalformedSegment),
                                            Some(bytes) => Ok(Some((bytes, w, h))),
                                        }
                                    }
                                },
                            },
                        }
                    } else {
                        pgs_scan(data, p + 3 + len, last_palette)
                    }
                }
            },
        }
    }
}

/// The last palette as the scan's model sees it.
pub open spec fn opt_cpal_view(p: &Option<Vec<ConvertedPaletteEntry>>) -> Option<
    Seq<ConvertedPaletteEntry>,
> {
    match p {
        Some(v) => Some(v@),
        None => None,
    }
}

/// The segment kind a type byte names.
fn seg_type_exec(b: u8) -> (r: Option<SegmentType>)
    ensures
        r == seg_type_of(b),
{
    if b == 0x14 {
        Some(SegmentType::PaletteDef)
    } else if b == 0x15 {
        Some(SegmentType::ObjDataDef)
    } else if b == 0x16 {
        Some(SegmentType::PresentationComp)
    } else if b == 0x17 {
        Some(SegmentType::WindowDef)
    } else if b == 0x80 {
        Some(SegmentType::EndDisplaySet)
    } else {
        None
    }
}

/// Walks one block's presentation-graphics segments and decodes the first
/// object an already-seen palette colours, as `pgs_scan` lays it down.
#[verifier::rlimit(100)]
pub fn parse_segments(data: &[u8]) -> (r: Result<Option<Bitmap>, SubError>)
    ensures
        match r {
            Ok(Some(b)) => {
                &&& b.wf()
                &&& pgs_scan(data@, 0, None) matches Ok(Some(t)) && t.0 == b.pixels@ && t.1
                    == b.width && t.2 == b.height
            },
            Ok(None) => pgs_scan(data@, 0, None) matches Ok(o) && o is None,
            Err(e) => pgs_scan(data@, 0, None) matches Err(e2) && e == e2,
        },
{
    let mut c = ByteCursor::new(data);
    let mut last_palette: Option<Vec<ConvertedPaletteEntry>> = None;
    loop
        invariant
            c.data@ == data@,
            c.wf(),
            pgs_scan(data@, c.pos as int, opt_cpal_view(&last_palette)) == pgs_scan(
                data@,
                0,
                None,
            ),
        decreases data@.len() - c.pos,
    {
        if c.is_at_end() {
            return Ok(None);
        }
        let ty_b = match c.read_u8() {
            Some(v) => v,
            None => {
                proof {
                    assert(false);
                }
                return Err(SubError::MalformedSegment);
            },
        };
        let ty = match seg_type_exec(ty_b) {
            Some(t) => t,
            None => {
                return Err(SubError::MalformedSegment);
            },
        };
        let len = match c.read_u16_be() {
            Some(v) => v,
            None => {
                return Err(SubError::MalformedSegment);
            },
        };
        if len == 0 {
            match ty {
                SegmentType::EndDisplaySet => {
                    continue ;
                },
                _ => {
                    return Err(SubError::MalformedSegment);
                },
            }
        }
        let body = match c.take(len as usize) {
            Some(b) => b,
            None => {
                return Err(SubError::MalformedSegment);
            },
        };
        match ty {
            SegmentType::PaletteDef => {
                match read_palette_def_segment(body) {
                    Ok(pal) => {
                        last_palette = Some(pal);
                    },
                    Err(e) => {
                        return Err(e);
                    },
                }
            },
            SegmentType::ObjDataDef => {
                let (od, lines) = match read_object_def_segment(body) {
                    Ok(t) => t,
                    Err(e) => {
                        return Err(e);
                    },
                };
                match &last_palette {
                    None => {
                        // an object before any palette is skipped
                    },
                    Some(pal) => {
                        proof {
                            assert(od.width * od.height * 4 <= 0xFFFF * 0xFFFF * 4) by (
                            nonlinear_arith)
                                requires
                                    od.width <= 0xFFFF && od.height <= 0xFFFF,
                            ;
                        }
                        let w64: u64 = (od.width as u64) * (od.height as u64) * 4;
                        if w64 > 0x0400_0000 {
                            return Err(SubError::MalformedSegment);
                        }
                        match decode_image(&od, &lines, pal) {
                            Ok(b) => {
                                return Ok(Some(b));
                            },
                            Err(e) => {
                                return Err(e);
                            },
                        }
                    },
                }
            },
            _ => {},
        }
    }
}

} // verus!
