use dwp_strings::Endianness;
use dwp_strings::Error;
use dwp_strings::Format;
use dwp_strings::PackageStringTable;

#[test]
fn scenario_narrow_no_header() {
    let mut pool = PackageStringTable::new();
    let tab = b"x\0y\0";
    let offs = vec![0, 0, 0, 0, 2, 0, 0, 0];
    let out = pool
        .remap_str_offsets_section(tab, &offs, 8, Endianness::Little, Format::Dwarf32, false)
        .unwrap();
    assert_eq!(out, vec![0, 0, 0, 0, 2, 0, 0, 0]);
    assert_eq!(pool.finish(), b"x\0y\0".to_vec());
}

#[test]
fn scenario_wide_with_header() {
    let mut pool = PackageStringTable::new();
    let tab = b"x\0y\0";
    // Input section: a 16-byte header followed by two 8-byte entries 0 and 2.
    let mut offs = vec![0xff, 0xff, 0xff, 0xff];
    offs.extend_from_slice(&16u64.to_le_bytes());
    offs.extend_from_slice(&5u16.to_le_bytes());
    offs.extend_from_slice(&0u16.to_le_bytes());
    offs.extend_from_slice(&0u64.to_le_bytes());
    offs.extend_from_slice(&2u64.to_le_bytes());
    let out = pool
        .remap_str_offsets_section(tab, &offs, 32, Endianness::Little, Format::Dwarf64, true)
        .unwrap();
    assert_eq!(out.len(), 32);
    // Escape value, 8-byte unit length 32 - 16 = 16, version 5, padding 0.
    assert_eq!(&out[0..4], &[0xff, 0xff, 0xff, 0xff]);
    assert_eq!(&out[4..12], &16u64.to_le_bytes());
    assert_eq!(&out[12..14], &5u16.to_le_bytes());
    assert_eq!(&out[14..16], &0u16.to_le_bytes());
    assert_eq!(&out[16..24], &0u64.to_le_bytes());
    assert_eq!(&out[24..32], &2u64.to_le_bytes());
}

#[test]
fn narrow_header_round_trip() {
    let mut pool = PackageStringTable::new();
    let tab = b"x\0y\0";
    // Input section: an 8-byte header followed by two 4-byte entries 0 and 2.
    let mut offs = vec![0u8; 8];
    offs.extend_from_slice(&0u32.to_le_bytes());
    offs.extend_from_slice(&2u32.to_le_bytes());
    let out = pool
        .remap_str_offsets_section(tab, &offs, 16, Endianness::Little, Format::Dwarf32, true)
        .unwrap();
    assert_eq!(out.len(), 16);
    // Re-reading the unit length and adding the header size gives back the
    // declared section size.
    let unit_length = u32::from_le_bytes(out[0..4].try_into().unwrap());
    assert_eq!(unit_length as u64 + 8, 16);
    assert_eq!(u16::from_le_bytes(out[4..6].try_into().unwrap()), 5);
    assert_eq!(u16::from_le_bytes(out[6..8].try_into().unwrap()), 0);
    assert_eq!(&out[8..12], &0u32.to_le_bytes());
    assert_eq!(&out[12..16], &2u32.to_le_bytes());
}

#[test]
fn positional_fidelity_across_objects() {
    let mut pool = PackageStringTable::new();
    let tab1 = b"x\0y\0";
    let offs1 = vec![0, 0, 0, 0, 2, 0, 0, 0];
    let out1 = pool
        .remap_str_offsets_section(tab1, &offs1, 8, Endianness::Little, Format::Dwarf32, false)
        .unwrap();
    assert_eq!(out1, vec![0, 0, 0, 0, 2, 0, 0, 0]);
    // The second object shares "y" and adds "z": its entries must point at
    // the already-assigned offset of "y" and the fresh offset of "z".
    let tab2 = b"y\0z\0";
    let offs2 = vec![0, 0, 0, 0, 2, 0, 0, 0];
    let out2 = pool
        .remap_str_offsets_section(tab2, &offs2, 8, Endianness::Little, Format::Dwarf32, false)
        .unwrap();
    assert_eq!(out2, vec![2, 0, 0, 0, 4, 0, 0, 0]);
    let merged = pool.finish();
    assert_eq!(merged, b"x\0y\0z\0".to_vec());
    // Each rebuilt entry locates, in the merged table, the same string the
    // local entry located in its local table.
    for (entry, expected) in [(2usize, b'y'), (4usize, b'z')] {
        let end = merged[entry..].iter().position(|&b| b == 0).unwrap();
        assert_eq!(merged[entry..entry + end], [expected]);
    }
}

#[test]
fn entry_count_is_preserved_and_truncating() {
    let mut pool = PackageStringTable::new();
    let tab = b"x\0y\0";
    // Ten bytes hold two full 4-byte entries; the trailing two bytes are
    // not an entry.
    let offs = vec![0, 0, 0, 0, 2, 0, 0, 0, 9, 9];
    let out = pool
        .remap_str_offsets_section(tab, &offs, 10, Endianness::Little, Format::Dwarf32, false)
        .unwrap();
    assert_eq!(out.len(), 8);
}

#[test]
fn zero_entries_yield_empty_output() {
    let mut pool = PackageStringTable::new();
    let out = pool
        .remap_str_offsets_section(b"x\0", &[], 0, Endianness::Little, Format::Dwarf32, false)
        .unwrap();
    assert_eq!(out, Vec::<u8>::new());
    assert_eq!(pool.buffer_len(), 0);
}

#[test]
fn big_endian_entries() {
    let mut pool = PackageStringTable::new();
    let tab = b"x\0y\0";
    let offs = vec![0, 0, 0, 0, 0, 0, 0, 2];
    let out = pool
        .remap_str_offsets_section(tab, &offs, 8, Endianness::Big, Format::Dwarf32, false)
        .unwrap();
    assert_eq!(out, vec![0, 0, 0, 0, 0, 0, 0, 2]);
}

#[test]
fn entry_out_of_bounds_is_reported_with_its_index() {
    let mut pool = PackageStringTable::new();
    let tab = b"x\0";
    // The declared size promises two entries but only one is present.
    let offs = vec![0, 0, 0, 0];
    let r = pool.remap_str_offsets_section(tab, &offs, 8, Endianness::Little, Format::Dwarf32, false);
    assert_eq!(r, Err(Error::OffsetAtIndex(1)));
}

#[test]
fn string_offset_out_of_range_is_reported() {
    let mut pool = PackageStringTable::new();
    let tab = b"x\0";
    let offs = vec![10, 0, 0, 0];
    let r = pool.remap_str_offsets_section(tab, &offs, 4, Endianness::Little, Format::Dwarf32, false);
    assert_eq!(r, Err(Error::StrAtOffset(10)));
}

#[test]
fn unterminated_string_is_reported() {
    let mut pool = PackageStringTable::new();
    let tab = b"ab";
    let offs = vec![0, 0, 0, 0];
    let r = pool.remap_str_offsets_section(tab, &offs, 4, Endianness::Little, Format::Dwarf32, false);
    assert_eq!(r, Err(Error::StrAtOffset(0)));
}

#[test]
fn invalid_utf8_is_reported() {
    let mut pool = PackageStringTable::new();
    let tab = &[0xff, 0x00];
    let offs = vec![0, 0, 0, 0];
    let r = pool.remap_str_offsets_section(tab, &offs, 4, Endianness::Little, Format::Dwarf32, false);
    assert_eq!(r, Err(Error::StrAtOffset(0)));
}

#[test]
fn narrow_unit_length_overflow_is_reported() {
    let mut pool = PackageStringTable::new();
    let section_size = (u32::MAX as u64) + 9;
    let r = pool.remap_str_offsets_section(
        b"x\0",
        &[],
        section_size,
        Endianness::Little,
        Format::Dwarf32,
        true,
    );
    assert_eq!(r, Err(Error::FieldOverflow));
}

#[test]
fn section_smaller_than_header_is_reported() {
    let mut pool = PackageStringTable::new();
    let narrow = pool.remap_str_offsets_section(
        b"x\0",
        &[],
        4,
        Endianness::Little,
        Format::Dwarf32,
        true,
    );
    assert_eq!(narrow, Err(Error::FieldOverflow));
    let wide = pool.remap_str_offsets_section(
        b"x\0",
        &[],
        8,
        Endianness::Little,
        Format::Dwarf64,
        true,
    );
    assert_eq!(wide, Err(Error::FieldOverflow));
}

#[test]
fn pool_keeps_strings_interned_before_a_failure() {
    let mut pool = PackageStringTable::new();
    let tab = b"x\0";
    // Entry 0 is fine, entry 1 lies out of bounds: the rebuild fails, but
    // "x" stays interned and keeps its offset.
    let offs = vec![0, 0, 0, 0];
    let r = pool.remap_str_offsets_section(tab, &offs, 8, Endianness::Little, Format::Dwarf32, false);
    assert_eq!(r, Err(Error::OffsetAtIndex(1)));
    assert_eq!(pool.get_or_insert(b"x").0, 0);
    assert_eq!(pool.buffer_len(), 2);
}
