use vstd::prelude::*;
use crate::bytes::ByteCursor;

verus! {

/// The tag ids of the container subset the pipeline reads.
pub const ID_SEGMENT: u64 = 0x18538067;

pub const ID_TRACKS: u64 = 0x1654AE6B;

pub const ID_TRACK_ENTRY: u64 = 0xAE;

pub const ID_TRACK_TYPE: u64 = 0x83;

pub const ID_TRACK_NUMBER: u64 = 0xD7;

pub const ID_LANGUAGE: u64 = 0x22B59C;

pub const ID_LANGUAGE_IETF: u64 = 0x22B59D;

pub const ID_CODEC_ID: u64 = 0x86;

pub const ID_CODEC_PRIVATE: u64 = 0x63A2;

pub const ID_CLUSTER: u64 = 0x1F43B675;

pub const ID_BLOCK_GROUP: u64 = 0xA0;

pub const ID_BLOCK: u64 = 0xA1;

pub const ID_SIMPLE_BLOCK: u64 = 0xA3;

/// The big-endian value of `n` bytes at `p`.
pub open spec fn be_at(data: Seq<u8>, p: int, n: int) -> int
    decreases n,
{
    if n <= 0 {
        0
    } else {
        be_at(data, p, n - 1) * 256 + data[p + n - 1]
    }
}

/// How many bytes a tag id's first byte announces; ids run to four bytes.
pub open spec fn id_len(b0: u8) -> int {
    if b0 >= 0x80 {
        1
    } else if b0 >= 0x40 {
        2
    } else if b0 >= 0x20 {
        3
    } else if b0 >= 0x10 {
        4
    } else {
        0
    }
}

/// A tag id read at `p`, marker bits kept, with the position after it.
pub open spec fn read_id(data: Seq<u8>, p: int) -> Option<(u64, int)> {
    if p < 0 || p >= data.len() {
        None
    } else {
        let n = id_len(data[p]);
        if n == 0 || p + n > data.len() {
            None
        } else {
            Some((be_at(data, p, n) as u64, p + n))
        }
    }
}

/// How many bytes a length's first byte announces; lengths run to eight.
pub open spec fn size_len(b0: u8) -> int {
    if b0 >= 0x80 {
        1
    } else if b0 >= 0x40 {
        2
    } else if b0 >= 0x20 {
        3
    } else if b0 >= 0x10 {
        4
    } else if b0 >= 0x08 {
        5
    } else if b0 >= 0x04 {
        6
    } else if b0 >= 0x02 {
        7
    } else if b0 >= 0x01 {
        8
    } else {
        0
    }
}

/// The marker bit's weight within an `n`-byte variable-length integer.
pub open spec fn size_marker(n: int) -> int {
    if n == 1 {
        0x80
    } else if n == 2 {
        0x4000
    } else if n == 3 {
        0x20_0000
    } else if n == 4 {
        0x1000_0000
    } else if n == 5 {
        0x08_0000_0000
    } else if n == 6 {
        0x0400_0000_0000
    } else if n == 7 {
        0x02_0000_0000_0000
    } else {
        0x0100_0000_0000_0000
    }
}

/// The all-ones value of an `n`-byte length, which marks an unknown size.
pub open spec fn size_all_ones(n: int) -> int {
    size_marker(n) - 1
}

/// A variable-length value at `p` with its marker stripped, and the
/// position after it.
pub open spec fn read_vnum(data: Seq<u8>, p: int) -> Option<(u64, int)> {
    if p < 0 || p >= data.len() {
        None
    } else {
        let n = size_len(data[p]);
        if n == 0 || p + n > data.len() {
            None
        } else {
            Some(((be_at(data, p, n) - size_marker(n)) as u64, p + n))
        }
    }
}

/// A data length at `p`: `Unknown` when every value bit is set.
pub enum SizeVal {
    Known(u64),
    Unknown,
}

pub open spec fn read_size(data: Seq<u8>, p: int) -> Option<(SizeVal, int)> {
    match read_vnum(data, p) {
        None => None,
        Some((v, p2)) => if v == size_all_ones(size_len(data[p])) {
            Some((SizeVal::Unknown, p2))
        } else {
            Some((SizeVal::Known(v), p2))
        },
    }
}

/// Reads a tag id, marker bits kept, as `read_id` lays it down.
pub fn read_vint_id(c: &mut ByteCursor) -> (r: Option<u64>)
    requires
        old(c).wf(),
    ensures
        final(c).data@ == old(c).data@,
        final(c).wf(),
        match r {
            Some(v) => read_id(old(c).data@, old(c).pos as int) matches Some(t) && t.0 == v
                && t.1 == final(c).pos as int && old(c).pos < final(c).pos <= old(
                c,
            ).data@.len() && final(c).pos <= old(c).pos + 4,
            None => read_id(old(c).data@, old(c).pos as int) is None,
        },
{
    let b0 = match c.read_u8() {
        Some(b) => b,
        None => {
            return None;
        },
    };
    let n: usize = if b0 >= 0x80 {
        1
    } else if b0 >= 0x40 {
        2
    } else if b0 >= 0x20 {
        3
    } else if b0 >= 0x10 {
        4
    } else {
        return None;
    };
    let ghost data = c.data@;
    let ghost p = old(c).pos as int;
    proof {
        assert(be_at(data, p, 0) == 0);
        assert(be_at(data, p, 1) == b0);
    }
    let mut val: u64 = b0 as u64;
    let mut k: usize = 1;
    while k < n
        invariant
            data == old(c).data@,
            p == old(c).pos,
            c.data@ == data,
            c.wf(),
            1 <= k <= n <= 4,
            0 <= p,
            p + k <= data.len(),
            c.pos == p + k,
            data[p] == b0,
            id_len(b0) == n,
            val == be_at(data, p, k as int),
            val < pow256(k as int),
        decreases n - k,
    {
        let b = match c.read_u8() {
            Some(b) => b,
            None => {
                proof {
                    assert(p + n > data.len());
                }
                return None;
            },
        };
        val = val * 256 + (b as u64);
        k = k + 1;
    }
    Some(val)
}

/// Reads a marker-stripped variable-length value, as `read_vnum` lays it
/// down.
pub fn read_vint_num(c: &mut ByteCursor) -> (r: Option<u64>)
    requires
        old(c).wf(),
    ensures
        final(c).data@ == old(c).data@,
        final(c).wf(),
        match r {
            Some(v) => read_vnum(old(c).data@, old(c).pos as int) matches Some(t) && t.0 == v
                && t.1 == final(c).pos as int && old(c).pos < final(c).pos <= old(
                c,
            ).data@.len() && final(c).pos <= old(c).pos + 8,
            None => read_vnum(old(c).data@, old(c).pos as int) is None,
        },
{
    let b0 = match c.read_u8() {
        Some(b) => b,
        None => {
            return None;
        },
    };
    let n: usize = if b0 >= 0x80 {
        1
    } else if b0 >= 0x40 {
        2
    } else if b0 >= 0x20 {
        3
    } else if b0 >= 0x10 {
        4
    } else if b0 >= 0x08 {
        5
    } else if b0 >= 0x04 {
        6
    } else if b0 >= 0x02 {
        7
    } else if b0 >= 0x01 {
        8
    } else {
        return None;
    };
    let ghost data = c.data@;
    let ghost p = old(c).pos as int;
    let marker: u64 = if n == 1 {
        0x80
    } else if n == 2 {
        0x4000
    } else if n == 3 {
        0x20_0000
    } else if n == 4 {
        0x1000_0000
    } else if n == 5 {
        0x08_0000_0000
    } else if n == 6 {
        0x0400_0000_0000
    } else if n == 7 {
        0x02_0000_0000_0000
    } else {
        0x0100_0000_0000_0000
    };
    proof {
        assert(be_at(data, p, 0) == 0);
        assert(be_at(data, p, 1) == b0);
    }
    let mut val: u64 = b0 as u64;
    let mut k: usize = 1;
    while k < n
        invariant
            data == old(c).data@,
            p == old(c).pos,
            c.data@ == data,
            c.wf(),
            1 <= k <= n <= 8,
            0 <= p,
            p + k <= data.len(),
            c.pos == p + k,
            data[p] == b0,
            size_len(b0) == n,
            marker == size_marker(n as int),
            val == be_at(data, p, k as int),
            val < pow256(k as int),
        decreases n - k,
    {
        let b = match c.read_u8() {
            Some(b) => b,
            None => {
                proof {
                    assert(p + n > data.len());
                }
                return None;
            },
        };
        val = val * 256 + (b as u64);
        k = k + 1;
    }
    proof {
        assert(marker == size_marker(n as int));
        assert(be_at(data, p, n as int) >= size_marker(n as int)) by {
            lemma_be_at_marker(data, p, n as int);
        }
    }
    Some(val - marker)
}

/// The leading byte's announced weight bounds the whole value from below
/// and above.
proof fn lemma_be_at_marker(data: Seq<u8>, p: int, n: int)
    requires
        1 <= n <= 8,
        0 <= p,
        p + n <= data.len(),
        size_len(data[p]) == n,
    ensures
        be_at(data, p, n) >= size_marker(n),
        be_at(data, p, n) < 2 * size_marker(n),
    decreases n,
{
    let b0 = data[p];
    lemma_be_at_first(data, p, n);
    if n == 1 {
    } else if n == 2 {
        assert(be_at(data, p, n) >= b0 * 0x100 && be_at(data, p, n) < (b0 + 1) * 0x100);
    } else if n == 3 {
        assert(be_at(data, p, n) >= b0 * 0x1_0000 && be_at(data, p, n) < (b0 + 1) * 0x1_0000);
    } else if n == 4 {
        assert(be_at(data, p, n) >= b0 * 0x100_0000 && be_at(data, p, n) < (b0 + 1)
            * 0x100_0000);
    } else if n == 5 {
        assert(be_at(data, p, n) >= b0 * 0x1_0000_0000 && be_at(data, p, n) < (b0 + 1)
            * 0x1_0000_0000);
    } else if n == 6 {
        assert(be_at(data, p, n) >= b0 * 0x100_0000_0000 && be_at(data, p, n) < (b0 + 1)
            * 0x100_0000_0000);
    } else if n == 7 {
        assert(be_at(data, p, n) >= b0 * 0x1_0000_0000_0000 && be_at(data, p, n) < (b0 + 1)
            * 0x1_0000_0000_0000);
    } else {
        assert(be_at(data, p, n) >= b0 * 0x100_0000_0000_0000 && be_at(data, p, n) < (b0 + 1)
            * 0x100_0000_0000_0000);
    }
}

/// `be_at` grows from the first byte by whole byte shifts.
proof fn lemma_be_at_first(data: Seq<u8>, p: int, n: int)
    requires
        1 <= n <= 8,
        0 <= p,
        p + n <= data.len(),
    ensures
        be_at(data, p, n) >= data[p] * pow256(n - 1),
        be_at(data, p, n) < (data[p] + 1) * pow256(n - 1),
    decreases n,
{
    if n == 1 {
    } else {
        lemma_be_at_first(data, p, n - 1);
        assert(be_at(data, p, n) == be_at(data, p, n - 1) * 256 + data[p + n - 1]);
        assert(pow256(n - 1) == pow256(n - 2) * 256);
        assert(be_at(data, p, n - 1) * 256 >= (data[p] * pow256(n - 2)) * 256) by (
        nonlinear_arith)
            requires
                be_at(data, p, n - 1) >= data[p] * pow256(n - 2),
        ;
        assert((data[p] * pow256(n - 2)) * 256 == data[p] * (pow256(n - 2) * 256)) by (
        nonlinear_arith);
        assert(be_at(data, p, n - 1) * 256 <= ((data[p] + 1) * pow256(n - 2) - 1) * 256) by (
        nonlinear_arith)
            requires
                be_at(data, p, n - 1) < (data[p] + 1) * pow256(n - 2),
        ;
        assert(((data[p] + 1) * pow256(n - 2) - 1) * 256 == (data[p] + 1) * (pow256(n - 2) * 256)
            - 256) by (nonlinear_arith);
    }
}

/// Powers of 256 up to the eight bytes a length can span.
pub open spec fn pow256(n: int) -> int {
    if n <= 0 {
        1
    } else if n == 1 {
        0x100
    } else if n == 2 {
        0x1_0000
    } else if n == 3 {
        0x100_0000
    } else if n == 4 {
        0x1_0000_0000
    } else if n == 5 {
        0x100_0000_0000
    } else if n == 6 {
        0x1_0000_0000_0000
    } else if n == 7 {
        0x100_0000_0000_0000
    } else {
        0x1_0000_0000_0000_0000
    }
}

/// Reads a data length, telling the all-ones unknown marking apart, as
/// `read_size` lays it down.
pub fn read_vint_size(c: &mut ByteCursor) -> (r: Option<SizeVal>)
    requires
        old(c).wf(),
    ensures
        final(c).data@ == old(c).data@,
        final(c).wf(),
        match r {
            Some(sv) => read_size(old(c).data@, old(c).pos as int) matches Some(t) && t.0 == sv
                && t.1 == final(c).pos as int && old(c).pos < final(c).pos <= old(
                c,
            ).data@.len(),
            None => read_size(old(c).data@, old(c).pos as int) is None,
        },
{
    if c.position() >= c.data.len() {
        return None;
    }
    let b0 = c.data[c.position()];
    let all_ones: u64 = if b0 >= 0x80 {
        0x7F
    } else if b0 >= 0x40 {
        0x3FFF
    } else if b0 >= 0x20 {
        0x1F_FFFF
    } else if b0 >= 0x10 {
        0x0FFF_FFFF
    } else if b0 >= 0x08 {
        0x07_FFFF_FFFF
    } else if b0 >= 0x04 {
        0x03FF_FFFF_FFFF
    } else if b0 >= 0x02 {
        0x01_FFFF_FFFF_FFFF
    } else if b0 >= 0x01 {
        0xFF_FFFF_FFFF_FFFF
    } else {
        return None;
    };
    proof {
        assert(all_ones == size_all_ones(size_len(b0)));
    }
    match read_vint_num(c) {
        None => None,
        Some(v) => {
            if v == all_ones {
                Some(SizeVal::Unknown)
            } else {
                Some(SizeVal::Known(v))
            }
        },
    }
}

} // verus!
