//! Rebuilding one object's offset-index section against the merged pool.
//!
//! `remap_str_offsets_section` walks the entries of a local offset-index
//! section, fetches the string each entry locates in the local string
//! table, interns it into the shared pool, and emits an output section of
//! the same shape — same optional header, same entry width and count —
//! whose entries are offsets into the merged buffer instead.
//!
//! `remap_model` is the mathematical description of that walk: it gives,
//! for every input, either the exact output bytes and the pool contents
//! after the call, or the error raised and where the pool stopped.  The
//! executable rebuilder is proved to agree with it everywhere, and the
//! lemmas below derive the positional-fidelity, entry-count and
//! header-round-trip laws from it.

use vstd::arithmetic::div_mod::lemma_fundamental_div_mod;
use vstd::prelude::*;

use crate::cstr::cstr_from;
use crate::cstr::is_utf8;
use crate::cstr::lemma_cstr_no_nul;
use crate::cstr::read_cstr;
use crate::cstr::utf8_ok;
use crate::endian::push_u16;
use crate::endian::push_u32;
use crate::endian::push_u64;
use crate::endian::read_u32_at;
use crate::endian::read_u64_at;
use crate::endian::lemma_u16_round_trip;
use crate::endian::lemma_u32_round_trip;
use crate::endian::lemma_u64_round_trip;
use crate::endian::u16_bytes;
use crate::endian::u16_of;
use crate::endian::u32_bytes;
use crate::endian::u32_of;
use crate::endian::u64_bytes;
use crate::endian::u64_of;
use crate::endian::Endianness;
use crate::error::Error;
use crate::pool::all_no_nul;
use crate::pool::distinct_strs;
use crate::pool::insert_view;
use crate::pool::lemma_insert_view_props;
use crate::pool::lemma_pool_locates;
use crate::pool::lemma_pool_offset_prefix;
use crate::pool::lemma_prefix_trans;
use crate::pool::pool_bytes;
use crate::pool::pool_offset;
use crate::pool::PackageStringTable;

verus! {

/// The two on-disk integer widths: 4-byte offsets or 8-byte offsets.
#[derive(Clone, Copy, Debug, PartialEq, Eq, Structural)]
pub enum Format {
    Dwarf32,
    Dwarf64,
}

/// Width in bytes of one offset-index entry.
pub open spec fn entry_width(f: Format) -> int {
    match f {
        Format::Dwarf32 => 4,
        Format::Dwarf64 => 8,
    }
}

/// Size in bytes of the standardized header for the given width.
pub open spec fn header_size(f: Format) -> int {
    match f {
        Format::Dwarf32 => 8,
        Format::Dwarf64 => 16,
    }
}

/// Where the entries begin: after the header when one is in use.
pub open spec fn base_offset(f: Format, std_header: bool) -> int {
    if std_header {
        header_size(f)
    } else {
        0
    }
}

/// Whether the header's length field can be emitted at all: the section
/// must be at least as large as its header, and for the narrow format the
/// remaining length must fit its 4-byte field.
pub open spec fn header_fits(f: Format, std_header: bool, section_size: u64) -> bool {
    std_header ==> {
        &&& section_size >= header_size(f)
        &&& (f == Format::Dwarf32 ==> section_size - 8 <= u32::MAX)
    }
}

/// The emitted header: a unit-length field holding the section size less
/// the header itself (for the wide format, a 4-byte escape value followed
/// by an 8-byte length), a 2-byte version field of 5, and 2 zero bytes of
/// padding.
pub open spec fn header_bytes(f: Format, e: Endianness, section_size: u64) -> Seq<u8> {
    match f {
        Format::Dwarf32 => u32_bytes(e, (section_size - 8) as u32) + u16_bytes(e, 5u16)
            + u16_bytes(e, 0u16),
        Format::Dwarf64 => u32_bytes(e, 0xffff_ffffu32) + u64_bytes(e, (section_size - 16) as u64)
            + u16_bytes(e, 5u16) + u16_bytes(e, 0u16),
    }
}

/// What precedes the entries in the output: the header, or nothing.
pub open spec fn out_prefix(f: Format, e: Endianness, std_header: bool, section_size: u64) -> Seq<
    u8,
> {
    if std_header {
        header_bytes(f, e, section_size)
    } else {
        Seq::empty()
    }
}

/// Entry count declared by the section size: the data region divided by
/// the entry width, truncating.
pub open spec fn num_entries(f: Format, std_header: bool, section_size: u64) -> int {
    (section_size - base_offset(f, std_header)) / entry_width(f)
}

/// Whether entry `i` lies within the local offset-index section.
pub open spec fn entry_in_bounds(offs: Seq<u8>, f: Format, std_header: bool, i: int) -> bool {
    base_offset(f, std_header) + (i + 1) * entry_width(f) <= offs.len()
}

/// The value of entry `i` of an offset-index section.
pub open spec fn entry_val(offs: Seq<u8>, e: Endianness, f: Format, std_header: bool, i: int) -> u64
    recommends
        entry_in_bounds(offs, f, std_header, i),
{
    let pos = base_offset(f, std_header) + i * entry_width(f);
    match f {
        Format::Dwarf32 => u32_of(e, offs.subrange(pos, pos + 4)) as u64,
        Format::Dwarf64 => u64_of(e, offs.subrange(pos, pos + 8)),
    }
}

/// The string entry `i` locates in the local string table: `None` when the
/// entry is out of bounds, the offset decodes no terminated string, or the
/// bytes are not valid text.
pub open spec fn entry_str(
    tab: Seq<u8>,
    offs: Seq<u8>,
    e: Endianness,
    f: Format,
    std_header: bool,
    i: int,
) -> Option<Seq<u8>> {
    if !entry_in_bounds(offs, f, std_header, i) {
        None
    } else {
        match cstr_from(tab, entry_val(offs, e, f, std_header, i) as int) {
            Some(s) => if is_utf8(s) {
                Some(s)
            } else {
                None
            },
            None => None,
        }
    }
}

/// An output entry: the merged-pool offset in the selected width.
pub open spec fn offset_bytes(f: Format, e: Endianness, p: int) -> Seq<u8> {
    match f {
        Format::Dwarf32 => u32_bytes(e, p as u32),
        Format::Dwarf64 => u64_bytes(e, p as u64),
    }
}

/// What a rebuild yields: the pool contents and the output bytes, or the
/// error raised and the pool contents where the walk stopped.
pub enum RemapOutcome {
    Done { strs: Seq<Seq<u8>>, out: Seq<u8> },
    Failed { err: Error, strs: Seq<Seq<u8>> },
}

/// The entry walk, starting at entry `i` with `k` entries left, pool
/// contents `v` and output bytes `out` so far.
pub open spec fn remap_loop(
    tab: Seq<u8>,
    offs: Seq<u8>,
    e: Endianness,
    f: Format,
    std_header: bool,
    v: Seq<Seq<u8>>,
    out: Seq<u8>,
    i: int,
    k: nat,
) -> RemapOutcome
    decreases k,
{
    if k == 0 {
        RemapOutcome::Done { strs: v, out }
    } else if !entry_in_bounds(offs, f, std_header, i) {
        RemapOutcome::Failed { err: Error::OffsetAtIndex(i as u64), strs: v }
    } else {
        let o = entry_val(offs, e, f, std_header, i);
        match cstr_from(tab, o as int) {
            None => RemapOutcome::Failed { err: Error::StrAtOffset(o), strs: v },
            Some(s) => if !is_utf8(s) {
                RemapOutcome::Failed { err: Error::StrAtOffset(o), strs: v }
            } else {
                let v2 = insert_view(v, s);
                let p = pool_offset(v2, s);
                if f == Format::Dwarf32 && p > u32::MAX {
                    RemapOutcome::Failed { err: Error::FieldOverflow, strs: v2 }
                } else {
                    remap_loop(
                        tab,
                        offs,
                        e,
                        f,
                        std_header,
                        v2,
                        out + offset_bytes(f, e, p),
                        i + 1,
                        (k - 1) as nat,
                    )
                }
            },
        }
    }
}

/// The exact outcome of rebuilding one offset-index section against a pool
/// holding `v0`.
pub open spec fn remap_model(
    tab: Seq<u8>,
    offs: Seq<u8>,
    section_size: u64,
    e: Endianness,
    f: Format,
    std_header: bool,
    v0: Seq<Seq<u8>>,
) -> RemapOutcome {
    if !header_fits(f, std_header, section_size) {
        RemapOutcome::Failed { err: Error::FieldOverflow, strs: v0 }
    } else {
        remap_loop(
            tab,
            offs,
            e,
            f,
            std_header,
            v0,
            out_prefix(f, e, std_header, section_size),
            0,
            num_entries(f, std_header, section_size) as nat,
        )
    }
}

#[verifier::rlimit(100)]
#[verifier::spinoff_prover]
proof fn lemma_remap_loop_props(
    tab: Seq<u8>,
    offs: Seq<u8>,
    e: Endianness,
    f: Format,
    std_header: bool,
    v: Seq<Seq<u8>>,
    out: Seq<u8>,
    i: int,
    k: nat,
)
    requires
        distinct_strs(v),
        all_no_nul(v),
        remap_loop(tab, offs, e, f, std_header, v, out, i, k) is Done,
    ensures
        ({
            let m = remap_loop(tab, offs, e, f, std_header, v, out, i, k);
            m matches RemapOutcome::Done { strs, out: outf } ==> {
                &&& v.is_prefix_of(strs)
                &&& distinct_strs(strs)
                &&& all_no_nul(strs)
                &&& out.is_prefix_of(outf)
                &&& outf.len() == out.len() + k * entry_width(f)
                &&& forall|j: int|
                    i <= j < i + k ==> {
                        let os = #[trigger] entry_str(tab, offs, e, f, std_header, j);
                        &&& os is Some
                        &&& strs.contains(os.unwrap())
                        &&& 0 <= pool_offset(strs, os.unwrap())
                        &&& (f == Format::Dwarf32 ==> pool_offset(strs, os.unwrap()) <= u32::MAX)
                        &&& outf.subrange(
                            out.len() + (j - i) * entry_width(f),
                            out.len() + (j - i + 1) * entry_width(f),
                        ) == offset_bytes(f, e, pool_offset(strs, os.unwrap()))
                    }
            }
        }),
    decreases k,
{
    let m = remap_loop(tab, offs, e, f, std_header, v, out, i, k);
    let w = entry_width(f);
    if k == 0 {
        assert(v =~= v.subrange(0, v.len() as int));
        assert(out =~= out.subrange(0, out.len() as int));
    } else {
        assert(entry_in_bounds(offs, f, std_header, i));
        let o = entry_val(offs, e, f, std_header, i);
        assert(cstr_from(tab, o as int) is Some);
        let s = cstr_from(tab, o as int).unwrap();
        assert(is_utf8(s));
        let v2 = insert_view(v, s);
        let p = pool_offset(v2, s);
        assert(!(f == Format::Dwarf32 && p > u32::MAX));
        let out2 = out + offset_bytes(f, e, p);
        assert(m == remap_loop(tab, offs, e, f, std_header, v2, out2, i + 1, (k - 1) as nat));
        lemma_cstr_no_nul(tab, o as int);
        lemma_insert_view_props(v, s);
        lemma_remap_loop_props(tab, offs, e, f, std_header, v2, out2, i + 1, (k - 1) as nat);
        match m {
            RemapOutcome::Done { strs, out: outf } => {
                lemma_prefix_trans(v, v2, strs);
                assert(out.is_prefix_of(out2)) by {
                    assert(out =~= out2.subrange(0, out.len() as int));
                }
                lemma_prefix_trans(out, out2, outf);
                assert(offset_bytes(f, e, p).len() == w);
                assert((k - 1) as int * w + w == k as int * w) by (nonlinear_arith);
                lemma_pool_offset_prefix(v2, strs, s);
                assert(entry_str(tab, offs, e, f, std_header, i) == Some(s));
                assert forall|j: int| i <= j < i + k implies {
                    let os = #[trigger] entry_str(tab, offs, e, f, std_header, j);
                    &&& os is Some
                    &&& strs.contains(os.unwrap())
                    &&& 0 <= pool_offset(strs, os.unwrap())
                    &&& (f == Format::Dwarf32 ==> pool_offset(strs, os.unwrap()) <= u32::MAX)
                    &&& outf.subrange(
                        out.len() + (j - i) * w,
                        out.len() + (j - i + 1) * w,
                    ) == offset_bytes(f, e, pool_offset(strs, os.unwrap()))
                } by {
                    if j == i {
                        assert(outf.subrange(out.len() + 0 * w, out.len() + 1 * w) =~= offset_bytes(
                            f,
                            e,
                            p,
                        )) by {
                            assert forall|t: int| 0 <= t < w implies outf.subrange(
                                out.len() + 0 * w,
                                out.len() + 1 * w,
                            )[t] == offset_bytes(f, e, p)[t] by {
                                assert(outf[out.len() + t] == out2[out.len() + t]);
                            }
                        }
                    } else {
                        assert(out2.len() + (j - (i + 1)) * w == out.len() + (j - i) * w) by (
                        nonlinear_arith)
                            requires
                                out2.len() == out.len() + w,
                        ;
                        assert(out2.len() + (j - (i + 1) + 1) * w == out.len() + (j - i + 1) * w)
                            by (nonlinear_arith)
                            requires
                                out2.len() == out.len() + w,
                        ;
                    }
                }
            },
            RemapOutcome::Failed { .. } => {},
        }
    }
}

/// Entry-count preservation, and the header's place in the output: a
/// successful rebuild emits exactly the declared number of entries after
/// the optional header, no more and no fewer.
pub proof fn lemma_entry_count(
    tab: Seq<u8>,
    offs: Seq<u8>,
    section_size: u64,
    e: Endianness,
    f: Format,
    std_header: bool,
    v0: Seq<Seq<u8>>,
)
    requires
        distinct_strs(v0),
        all_no_nul(v0),
    ensures
        ({
            let m = remap_model(tab, offs, section_size, e, f, std_header, v0);
            m matches RemapOutcome::Done { strs, out } ==> {
                &&& out.len() == base_offset(f, std_header) + num_entries(f, std_header, section_size)
                    * entry_width(f)
                &&& std_header ==> out.subrange(0, header_size(f)) == header_bytes(
                    f,
                    e,
                    section_size,
                )
            }
        }),
{
    let m = remap_model(tab, offs, section_size, e, f, std_header, v0);
    if m is Done {
        let pre = out_prefix(f, e, std_header, section_size);
        assert(pre.len() == base_offset(f, std_header));
        lemma_remap_loop_props(
            tab,
            offs,
            e,
            f,
            std_header,
            v0,
            pre,
            0,
            num_entries(f, std_header, section_size) as nat,
        );
        match m {
            RemapOutcome::Done { strs, out } => {
                if std_header {
                    assert(out.subrange(0, header_size(f)) =~= header_bytes(f, e, section_size))
                        by {
                        assert forall|t: int| 0 <= t < header_size(f) implies out.subrange(
                            0,
                            header_size(f),
                        )[t] == header_bytes(f, e, section_size)[t] by {
                            assert(out[t] == pre[t]);
                        }
                    }
                }
            },
            RemapOutcome::Failed { .. } => {},
        }
    }
}

/// Positional fidelity: when a rebuild succeeds, entry `i` of the output
/// section — read back with the same width, byte order and header layout —
/// locates in the merged buffer exactly the string that entry `i` of the
/// input section locates in the local string table.
pub proof fn lemma_positional_fidelity(
    tab: Seq<u8>,
    offs: Seq<u8>,
    section_size: u64,
    e: Endianness,
    f: Format,
    std_header: bool,
    v0: Seq<Seq<u8>>,
)
    requires
        distinct_strs(v0),
        all_no_nul(v0),
        ({
            let m = remap_model(tab, offs, section_size, e, f, std_header, v0);
            m matches RemapOutcome::Done { strs, out } ==> pool_bytes(strs).len() <= u64::MAX
        }),
    ensures
        ({
            let m = remap_model(tab, offs, section_size, e, f, std_header, v0);
            m matches RemapOutcome::Done { strs, out } ==> forall|i: int|
                0 <= i < num_entries(f, std_header, section_size) ==> {
                    let os = #[trigger] entry_str(tab, offs, e, f, std_header, i);
                    &&& os is Some
                    &&& cstr_from(tab, entry_val(offs, e, f, std_header, i) as int) == Some(
                        os.unwrap(),
                    )
                    &&& entry_in_bounds(out, f, std_header, i)
                    &&& entry_val(out, e, f, std_header, i) as int == pool_offset(
                        strs,
                        os.unwrap(),
                    )
                    &&& cstr_from(pool_bytes(strs), entry_val(out, e, f, std_header, i) as int)
                        == Some(os.unwrap())
                }
        }),
{
    let m = remap_model(tab, offs, section_size, e, f, std_header, v0);
    if m is Done {
        let pre = out_prefix(f, e, std_header, section_size);
        let base = base_offset(f, std_header);
        let w = entry_width(f);
        let n = num_entries(f, std_header, section_size);
        assert(pre.len() == base);
        lemma_remap_loop_props(tab, offs, e, f, std_header, v0, pre, 0, n as nat);
        match m {
            RemapOutcome::Done { strs, out } => {
                assert forall|i: int| 0 <= i < n implies {
                    let os = #[trigger] entry_str(tab, offs, e, f, std_header, i);
                    &&& os is Some
                    &&& cstr_from(tab, entry_val(offs, e, f, std_header, i) as int) == Some(
                        os.unwrap(),
                    )
                    &&& entry_in_bounds(out, f, std_header, i)
                    &&& entry_val(out, e, f, std_header, i) as int == pool_offset(
                        strs,
                        os.unwrap(),
                    )
                    &&& cstr_from(pool_bytes(strs), entry_val(out, e, f, std_header, i) as int)
                        == Some(os.unwrap())
                } by {
                    let os = entry_str(tab, offs, e, f, std_header, i);
                    let s = os.unwrap();
                    let p = pool_offset(strs, s);
                    lemma_pool_locates(strs, s);
                    assert((i + 1) * w <= n * w) by (nonlinear_arith)
                        requires
                            i + 1 <= n,
                            w > 0,
                    ;
                    assert(entry_in_bounds(out, f, std_header, i));
                    assert(base + (i - 0) * w == base + i * w);
                    assert(out.subrange(base + i * w, base + (i + 1) * w) == offset_bytes(
                        f,
                        e,
                        p,
                    ));
                    match f {
                        Format::Dwarf32 => {
                            lemma_u32_round_trip(e, p as u32);
                            assert(entry_val(out, e, f, std_header, i) == p as u32 as u64);
                        },
                        Format::Dwarf64 => {
                            lemma_u64_round_trip(e, p as u64);
                            assert(entry_val(out, e, f, std_header, i) == p as u64);
                        },
                    }
                }
            },
            RemapOutcome::Failed { .. } => {},
        }
    }
}

/// A merged-pool offset that does not fit the narrow entry field aborts
/// the rebuild with a field-overflow error instead of truncating: shown
/// here for the first entry, whose string the pool places beyond the
/// 4-byte range.
pub proof fn lemma_narrow_offset_overflow(
    tab: Seq<u8>,
    offs: Seq<u8>,
    section_size: u64,
    e: Endianness,
    std_header: bool,
    v0: Seq<Seq<u8>>,
)
    requires
        header_fits(Format::Dwarf32, std_header, section_size),
        num_entries(Format::Dwarf32, std_header, section_size) > 0,
        entry_str(tab, offs, e, Format::Dwarf32, std_header, 0) is Some,
        ({
            let s = entry_str(tab, offs, e, Format::Dwarf32, std_header, 0).unwrap();
            pool_offset(insert_view(v0, s), s) > u32::MAX
        }),
    ensures
        ({
            let s = entry_str(tab, offs, e, Format::Dwarf32, std_header, 0).unwrap();
            remap_model(tab, offs, section_size, e, Format::Dwarf32, std_header, v0)
                == RemapOutcome::Failed { err: Error::FieldOverflow, strs: insert_view(v0, s) }
        }),
{
    let s = entry_str(tab, offs, e, Format::Dwarf32, std_header, 0).unwrap();
    assert(entry_in_bounds(offs, Format::Dwarf32, std_header, 0));
    assert(cstr_from(tab, entry_val(offs, e, Format::Dwarf32, std_header, 0) as int) == Some(s));
    assert(is_utf8(s));
}

/// Header round-trip: re-reading the emitted header — unit length plus
/// header size — reproduces the declared section size, and the version and
/// padding fields hold 5 and 0.
pub proof fn lemma_header_round_trip(f: Format, e: Endianness, section_size: u64)
    requires
        header_fits(f, true, section_size),
    ensures
        ({
            let hb = header_bytes(f, e, section_size);
            &&& match f {
                Format::Dwarf32 => u32_of(e, hb.subrange(0, 4)) as int + 8 == section_size,
                Format::Dwarf64 => {
                    &&& u32_of(e, hb.subrange(0, 4)) == 0xffff_ffffu32
                    &&& u64_of(e, hb.subrange(4, 12)) as int + 16 == section_size
                },
            }
            &&& u16_of(e, hb.subrange(header_size(f) - 4, header_size(f) - 2)) == 5
            &&& u16_of(e, hb.subrange(header_size(f) - 2, header_size(f))) == 0
        }),
{
    let hb = header_bytes(f, e, section_size);
    match f {
        Format::Dwarf32 => {
            assert(hb.subrange(0, 4) =~= u32_bytes(e, (section_size - 8) as u32));
            assert(hb.subrange(4, 6) =~= u16_bytes(e, 5u16));
            assert(hb.subrange(6, 8) =~= u16_bytes(e, 0u16));
            lemma_u32_round_trip(e, (section_size - 8) as u32);
            lemma_u16_round_trip(e, 5u16);
            lemma_u16_round_trip(e, 0u16);
        },
        Format::Dwarf64 => {
            assert(hb.subrange(0, 4) =~= u32_bytes(e, 0xffff_ffffu32));
            assert(hb.subrange(4, 12) =~= u64_bytes(e, (section_size - 16) as u64));
            assert(hb.subrange(12, 14) =~= u16_bytes(e, 5u16));
            assert(hb.subrange(14, 16) =~= u16_bytes(e, 0u16));
            lemma_u32_round_trip(e, 0xffff_ffffu32);
            lemma_u64_round_trip(e, (section_size - 16) as u64);
            lemma_u16_round_trip(e, 5u16);
            lemma_u16_round_trip(e, 0u16);
        },
    }
}

impl PackageStringTable {
    /// Adds the strings referenced by a local offset-index section to the
    /// pool and returns an equivalent section whose entries are offsets
    /// into the merged buffer.
    ///
    /// `debug_str` and `debug_str_offsets` are the object's local string
    /// table and local offset-index section; `section_size` is the latter's
    /// declared total byte length, header included.  When `std_package_header`
    /// is set, the standardized header is emitted and the entries of both
    /// sections begin after it; otherwise the sections are bare entries.
    /// The outcome — output bytes, pool growth, and any error — is exactly
    /// `remap_model`; on failure the pool keeps the strings interned before
    /// the failing entry.
    pub fn remap_str_offsets_section(
        &mut self,
        debug_str: &[u8],
        debug_str_offsets: &[u8],
        section_size: u64,
        endian: Endianness,
        format: Format,
        std_package_header: bool,
    ) -> (r: Result<Vec<u8>, Error>)
        requires
            old(self).wf(),
        ensures
            final(self).wf(),
            old(self)@.is_prefix_of(final(self)@),
            ({
                let m = remap_model(
                    debug_str@,
                    debug_str_offsets@,
                    section_size,
                    endian,
                    format,
                    std_package_header,
                    old(self)@,
                );
                &&& (m matches RemapOutcome::Done { strs, out } ==> final(self)@ == strs && (
                r matches Ok(b) && b@ == out))
                &&& (m matches RemapOutcome::Failed { err, strs } ==> final(self)@ == strs && (
                r matches Err(e2) && e2 == err))
            }),
    {
        let ghost v0 = self@;
        let ghost m = remap_model(
            debug_str@,
            debug_str_offsets@,
            section_size,
            endian,
            format,
            std_package_header,
            v0,
        );
        proof {
            assert(v0.is_prefix_of(v0)) by {
                assert(v0 =~= v0.subrange(0, v0.len() as int));
            }
        }
        let width: u64 = match format {
            Format::Dwarf32 => 4,
            Format::Dwarf64 => 8,
        };
        let mut out: Vec<u8> = Vec::new();
        if std_package_header {
            match format {
                Format::Dwarf32 => {
                    if section_size < 8 || section_size - 8 > u32::MAX as u64 {
                        return Err(Error::FieldOverflow);
                    }
                    push_u32(&mut out, endian, (section_size - 8) as u32);
                },
                Format::Dwarf64 => {
                    if section_size < 16 {
                        return Err(Error::FieldOverflow);
                    }
                    push_u32(&mut out, endian, 0xffff_ffffu32);
                    push_u64(&mut out, endian, section_size - 16);
                },
            }
            push_u16(&mut out, endian, 5);
            push_u16(&mut out, endian, 0);
        }
        proof {
            assert(header_fits(format, std_package_header, section_size));
            assert(out@ =~= out_prefix(format, endian, std_package_header, section_size));
        }
        let base: u64 = if std_package_header {
            2 * width
        } else {
            0
        };
        let n: u64 = (section_size - base) / width;
        proof {
            assert(n as int == num_entries(format, std_package_header, section_size));
        }
        let mut i: u64 = 0;
        while i < n
            invariant
                self.wf(),
                v0 == old(self)@,
                v0.is_prefix_of(self@),
                i <= n,
                width as int == entry_width(format),
                base as int == base_offset(format, std_package_header),
                n as int == num_entries(format, std_package_header, section_size),
                base <= section_size,
                header_fits(format, std_package_header, section_size),
                m == remap_model(
                    debug_str@,
                    debug_str_offsets@,
                    section_size,
                    endian,
                    format,
                    std_package_header,
                    v0,
                ),
                out@.len() == base as int + i as int * width as int,
                remap_loop(
                    debug_str@,
                    debug_str_offsets@,
                    endian,
                    format,
                    std_package_header,
                    self@,
                    out@,
                    i as int,
                    (n - i) as nat,
                ) == m,
            decreases n - i,
        {
            proof {
                lemma_fundamental_div_mod(section_size as int - base as int, width as int);
                assert((i as int + 1) * width as int <= n as int * width as int) by (
                nonlinear_arith)
                    requires
                        i as int + 1 <= n as int,
                        width as int > 0,
                ;
                assert(n as int * width as int <= section_size as int - base as int);
            }
            let pos = base + i * width;
            let ghost gi = i as int;
            let ghost gpos = base as int + gi * width as int;
            if (debug_str_offsets.len() as u64) < pos + width {
                proof {
                    assert(!entry_in_bounds(debug_str_offsets@, format, std_package_header, gi));
                    assert(m == RemapOutcome::Failed {
                        err: Error::OffsetAtIndex(i),
                        strs: self@,
                    });
                }
                return Err(Error::OffsetAtIndex(i));
            }
            let val: u64 = match format {
                Format::Dwarf32 => read_u32_at(debug_str_offsets, pos as usize, endian) as u64,
                Format::Dwarf64 => read_u64_at(debug_str_offsets, pos as usize, endian),
            };
            proof {
                assert(entry_in_bounds(debug_str_offsets@, format, std_package_header, gi));
                assert(val == entry_val(debug_str_offsets@, endian, format, std_package_header, gi));
            }
            let sv = match read_cstr(debug_str, val) {
                Some(sv) => sv,
                None => {
                    proof {
                        assert(m == RemapOutcome::Failed {
                            err: Error::StrAtOffset(val),
                            strs: self@,
                        });
                    }
                    return Err(Error::StrAtOffset(val));
                },
            };
            if !utf8_ok(sv.as_slice()) {
                proof {
                    assert(m == RemapOutcome::Failed {
                        err: Error::StrAtOffset(val),
                        strs: self@,
                    });
                }
                return Err(Error::StrAtOffset(val));
            }
            proof {
                lemma_cstr_no_nul(debug_str@, val as int);
                self.lemma_wf_props();
                lemma_insert_view_props(self@, sv@);
            }
            let ghost v_prev = self@;
            let off = self.get_or_insert(sv.as_slice());
            proof {
                lemma_prefix_trans(v0, v_prev, self@);
            }
            let ghost out_prev = out@;
            match format {
                Format::Dwarf32 => {
                    if off.0 > u32::MAX as usize {
                        proof {
                            assert(m == RemapOutcome::Failed {
                                err: Error::FieldOverflow,
                                strs: self@,
                            });
                        }
                        return Err(Error::FieldOverflow);
                    }
                    push_u32(&mut out, endian, off.0 as u32);
                },
                Format::Dwarf64 => {
                    push_u64(&mut out, endian, off.0 as u64);
                },
            }
            proof {
                let p = pool_offset(self@, sv@);
                assert(off.0 as int == p);
                assert(out@ == out_prev + offset_bytes(format, endian, p));
                assert(remap_loop(
                    debug_str@,
                    debug_str_offsets@,
                    endian,
                    format,
                    std_package_header,
                    self@,
                    out@,
                    gi + 1,
                    (n - i - 1) as nat,
                ) == m);
            }
            i = i + 1;
        }
        proof {
            assert(m == RemapOutcome::Done { strs: self@, out: out@ });
        }
        Ok(out)
    }
}

} // verus!
