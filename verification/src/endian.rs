//! Byte-order-aware emission and reading of fixed-width integers.
//!
//! Offset-index sections store their entries and header fields as 2-, 4- or
//! 8-byte integers in the byte order of the object being processed.  The
//! spec functions below give the exact byte sequences; the executable
//! functions are proved against them, and the round-trip lemmas show that
//! reading an emitted field back yields the value that was written.

use vstd::prelude::*;

verus! {

/// Byte order used for every multi-byte integer field of an offset-index
/// section.
#[derive(Clone, Copy, Debug, PartialEq, Eq, Structural)]
pub enum Endianness {
    Little,
    Big,
}

pub open spec fn u16_le_bytes(v: u16) -> Seq<u8> {
    seq![(v & 0xff) as u8, ((v >> 8) & 0xff) as u8]
}

pub open spec fn u16_bytes(e: Endianness, v: u16) -> Seq<u8> {
    match e {
        Endianness::Little => u16_le_bytes(v),
        Endianness::Big => seq![((v >> 8) & 0xff) as u8, (v & 0xff) as u8],
    }
}

pub open spec fn u32_le_bytes(v: u32) -> Seq<u8> {
    seq![
        (v & 0xff) as u8,
        ((v >> 8) & 0xff) as u8,
        ((v >> 16) & 0xff) as u8,
        ((v >> 24) & 0xff) as u8,
    ]
}

pub open spec fn u32_bytes(e: Endianness, v: u32) -> Seq<u8> {
    match e {
        Endianness::Little => u32_le_bytes(v),
        Endianness::Big => seq![
            ((v >> 24) & 0xff) as u8,
            ((v >> 16) & 0xff) as u8,
            ((v >> 8) & 0xff) as u8,
            (v & 0xff) as u8,
        ],
    }
}

pub open spec fn u64_le_bytes(v: u64) -> Seq<u8> {
    seq![
        (v & 0xff) as u8,
        ((v >> 8) & 0xff) as u8,
        ((v >> 16) & 0xff) as u8,
        ((v >> 24) & 0xff) as u8,
        ((v >> 32) & 0xff) as u8,
        ((v >> 40) & 0xff) as u8,
        ((v >> 48) & 0xff) as u8,
        ((v >> 56) & 0xff) as u8,
    ]
}

pub open spec fn u64_bytes(e: Endianness, v: u64) -> Seq<u8> {
    match e {
        Endianness::Little => u64_le_bytes(v),
        Endianness::Big => seq![
            ((v >> 56) & 0xff) as u8,
            ((v >> 48) & 0xff) as u8,
            ((v >> 40) & 0xff) as u8,
            ((v >> 32) & 0xff) as u8,
            ((v >> 24) & 0xff) as u8,
            ((v >> 16) & 0xff) as u8,
            ((v >> 8) & 0xff) as u8,
            (v & 0xff) as u8,
        ],
    }
}

/// Value encoded by a 2-byte field, read in the given byte order.
pub open spec fn u16_of(e: Endianness, s: Seq<u8>) -> u16
    recommends
        s.len() == 2,
{
    match e {
        Endianness::Little => (s[0] as u16) | ((s[1] as u16) << 8),
        Endianness::Big => (s[1] as u16) | ((s[0] as u16) << 8),
    }
}

/// Value encoded by a 4-byte field, read in the given byte order.
pub open spec fn u32_of(e: Endianness, s: Seq<u8>) -> u32
    recommends
        s.len() == 4,
{
    match e {
        Endianness::Little => (s[0] as u32) | ((s[1] as u32) << 8) | ((s[2] as u32) << 16)
            | ((s[3] as u32) << 24),
        Endianness::Big => (s[3] as u32) | ((s[2] as u32) << 8) | ((s[1] as u32) << 16) | ((
        s[0] as u32) << 24),
    }
}

/// Value encoded by an 8-byte field, read in the given byte order.
pub open spec fn u64_of(e: Endianness, s: Seq<u8>) -> u64
    recommends
        s.len() == 8,
{
    match e {
        Endianness::Little => (s[0] as u64) | ((s[1] as u64) << 8) | ((s[2] as u64) << 16) | ((
        s[3] as u64) << 24) | ((s[4] as u64) << 32) | ((s[5] as u64) << 40) | ((s[6] as u64) << 48)
            | ((s[7] as u64) << 56),
        Endianness::Big => (s[7] as u64) | ((s[6] as u64) << 8) | ((s[5] as u64) << 16) | ((
        s[4] as u64) << 24) | ((s[3] as u64) << 32) | ((s[2] as u64) << 40) | ((s[1] as u64) << 48)
            | ((s[0] as u64) << 56),
    }
}

pub fn push_u16(out: &mut Vec<u8>, e: Endianness, v: u16)
    ensures
        final(out)@ == old(out)@ + u16_bytes(e, v),
{
    let b0 = (v & 0xff) as u8;
    let b1 = ((v >> 8) & 0xff) as u8;
    match e {
        Endianness::Little => {
            out.push(b0);
            out.push(b1);
        },
        Endianness::Big => {
            out.push(b1);
            out.push(b0);
        },
    }
    proof {
        assert(out@ =~= old(out)@ + u16_bytes(e, v));
    }
}

pub fn push_u32(out: &mut Vec<u8>, e: Endianness, v: u32)
    ensures
        final(out)@ == old(out)@ + u32_bytes(e, v),
{
    let b0 = (v & 0xff) as u8;
    let b1 = ((v >> 8) & 0xff) as u8;
    let b2 = ((v >> 16) & 0xff) as u8;
    let b3 = ((v >> 24) & 0xff) as u8;
    match e {
        Endianness::Little => {
            out.push(b0);
            out.push(b1);
            out.push(b2);
            out.push(b3);
        },
        Endianness::Big => {
            out.push(b3);
            out.push(b2);
            out.push(b1);
            out.push(b0);
        },
    }
    proof {
        assert(out@ =~= old(out)@ + u32_bytes(e, v));
    }
}

pub fn push_u64(out: &mut Vec<u8>, e: Endianness, v: u64)
    ensures
        final(out)@ == old(out)@ + u64_bytes(e, v),
{
    let b0 = (v & 0xff) as u8;
    let b1 = ((v >> 8) & 0xff) as u8;
    let b2 = ((v >> 16) & 0xff) as u8;
    let b3 = ((v >> 24) & 0xff) as u8;
    let b4 = ((v >> 32) & 0xff) as u8;
    let b5 = ((v >> 40) & 0xff) as u8;
    let b6 = ((v >> 48) & 0xff) as u8;
    let b7 = ((v >> 56) & 0xff) as u8;
    match e {
        Endianness::Little => {
            out.push(b0);
            out.push(b1);
            out.push(b2);
            out.push(b3);
            out.push(b4);
            out.push(b5);
            out.push(b6);
            out.push(b7);
        },
        Endianness::Big => {
            out.push(b7);
            out.push(b6);
            out.push(b5);
            out.push(b4);
            out.push(b3);
            out.push(b2);
            out.push(b1);
            out.push(b0);
        },
    }
    proof {
        assert(out@ =~= old(out)@ + u64_bytes(e, v));
    }
}

pub fn read_u32_at(b: &[u8], pos: usize, e: Endianness) -> (r: u32)
    requires
        pos + 4 <= b@.len(),
    ensures
        r == u32_of(e, b@.subrange(pos as int, pos as int + 4)),
{
    let b0 = b[pos];
    let b1 = b[pos + 1];
    let b2 = b[pos + 2];
    let b3 = b[pos + 3];
    proof {
        let s = b@.subrange(pos as int, pos as int + 4);
        assert(s[0] == b0 && s[1] == b1 && s[2] == b2 && s[3] == b3);
    }
    match e {
        Endianness::Little => (b0 as u32) | ((b1 as u32) << 8) | ((b2 as u32) << 16) | ((
        b3 as u32) << 24),
        Endianness::Big => (b3 as u32) | ((b2 as u32) << 8) | ((b1 as u32) << 16) | ((b0 as u32)
            << 24),
    }
}

pub fn read_u64_at(b: &[u8], pos: usize, e: Endianness) -> (r: u64)
    requires
        pos + 8 <= b@.len(),
    ensures
        r == u64_of(e, b@.subrange(pos as int, pos as int + 8)),
{
    let b0 = b[pos];
    let b1 = b[pos + 1];
    let b2 = b[pos + 2];
    let b3 = b[pos + 3];
    let b4 = b[pos + 4];
    let b5 = b[pos + 5];
    let b6 = b[pos + 6];
    let b7 = b[pos + 7];
    proof {
        let s = b@.subrange(pos as int, pos as int + 8);
        assert(s[0] == b0 && s[1] == b1 && s[2] == b2 && s[3] == b3);
        assert(s[4] == b4 && s[5] == b5 && s[6] == b6 && s[7] == b7);
    }
    match e {
        Endianness::Little => (b0 as u64) | ((b1 as u64) << 8) | ((b2 as u64) << 16) | ((
        b3 as u64) << 24) | ((b4 as u64) << 32) | ((b5 as u64) << 40) | ((b6 as u64) << 48) | ((
        b7 as u64) << 56),
        Endianness::Big => (b7 as u64) | ((b6 as u64) << 8) | ((b5 as u64) << 16) | ((b4 as u64)
            << 24) | ((b3 as u64) << 32) | ((b2 as u64) << 40) | ((b1 as u64) << 48) | ((b0 as u64)
            << 56),
    }
}

/// Reading a 2-byte field back yields the value it was written from.
pub proof fn lemma_u16_round_trip(e: Endianness, v: u16)
    ensures
        u16_of(e, u16_bytes(e, v)) == v,
{
    assert(((v & 0xff) as u8 as u16) | ((((v >> 8) & 0xff) as u8 as u16) << 8) == v)
        by (bit_vector);
}

/// Reading a 4-byte field back yields the value it was written from.
pub proof fn lemma_u32_round_trip(e: Endianness, v: u32)
    ensures
        u32_of(e, u32_bytes(e, v)) == v,
{
    assert(((v & 0xff) as u8 as u32) | ((((v >> 8) & 0xff) as u8 as u32) << 8) | ((((v >> 16)
        & 0xff) as u8 as u32) << 16) | ((((v >> 24) & 0xff) as u8 as u32) << 24) == v)
        by (bit_vector);
}

/// Reading an 8-byte field back yields the value it was written from.
pub proof fn lemma_u64_round_trip(e: Endianness, v: u64)
    ensures
        u64_of(e, u64_bytes(e, v)) == v,
{
    assert(((v & 0xff) as u8 as u64) | ((((v >> 8) & 0xff) as u8 as u64) << 8) | ((((v >> 16)
        & 0xff) as u8 as u64) << 16) | ((((v >> 24) & 0xff) as u8 as u64) << 24) | ((((v >> 32)
        & 0xff) as u8 as u64) << 32) | ((((v >> 40) & 0xff) as u8 as u64) << 40) | ((((v >> 48)
        & 0xff) as u8 as u64) << 48) | ((((v >> 56) & 0xff) as u8 as u64) << 56) == v)
        by (bit_vector);
}

} // verus!
