use roc_devlink::elf::{find_needed_library, read_le, write_le, DynamicError};
use roc_devlink::plan::{
    copy_shifted, plan_padding, relocation_value, remove_program_header, shift_dynamic_entries,
    shift_section_headers, shift_symbol_values, write_load_segment, PlanError, RelocationKind,
    ShiftPlan,
};

fn put_ph(bytes: &mut Vec<u8>, at: usize, p_type: u64, offset: u64, vaddr: u64, size: u64, align: u64) {
    write_le(bytes, at, 4, p_type);
    write_le(bytes, at + 8, 8, offset);
    write_le(bytes, at + 16, 8, vaddr);
    write_le(bytes, at + 24, 8, vaddr);
    write_le(bytes, at + 32, 8, size);
    write_le(bytes, at + 40, 8, size);
    write_le(bytes, at + 48, 8, align);
}

/// Program headers at 64: the header table, the first load at offset zero, a second load.
fn host_headers(first_load_size: u64) -> Vec<u8> {
    let mut bytes = vec![0u8; 64 + 4 * 56];
    put_ph(&mut bytes, 64, 6, 64, 0x40_0040, 3 * 56, 8);
    put_ph(&mut bytes, 64 + 56, 1, 0, 0x40_0000, first_load_size, 0x1000);
    put_ph(&mut bytes, 64 + 112, 1, 0x1000, 0x40_1000, 0x200, 0x1000);
    bytes
}

#[test]
fn padding_plan_grows_first_load_and_header_table() {
    let mut bytes = host_headers(0x800);
    let plan = plan_padding(&mut bytes, 64, 3, 56).unwrap();
    assert_eq!(
        plan,
        ShiftPlan { added_data: 56, shift_start: 0x40_0000 + 232, shift_end: 0x40_1000, first_load_aligned_size: 0x1000 }
    );
    // header table segment
    assert_eq!(read_le(&bytes, 64 + 32, 8), 3 * 56 + 56);
    assert_eq!(read_le(&bytes, 64 + 40, 8), 3 * 56 + 56);
    // first load
    assert_eq!(read_le(&bytes, 64 + 56 + 32, 8), 0x838);
    assert_eq!(read_le(&bytes, 64 + 56 + 40, 8), 0x838);
    // the second load lies past the window and stays
    assert_eq!(read_le(&bytes, 64 + 112 + 8, 8), 0x1000);
    assert_eq!(read_le(&bytes, 64 + 112 + 16, 8), 0x40_1000);
}

#[test]
fn padding_plan_needs_room_in_alignment() {
    let mut bytes = host_headers(0xFF0);
    assert_eq!(plan_padding(&mut bytes, 64, 3, 56), Err(PlanError::NotEnoughPadding));
}

#[test]
fn padding_plan_needs_a_first_load() {
    let mut bytes = vec![0u8; 64 + 2 * 56];
    put_ph(&mut bytes, 64, 6, 64, 0x40_0040, 56, 8);
    assert_eq!(plan_padding(&mut bytes, 64, 1, 56), Err(PlanError::NoFirstLoad));
}

#[test]
fn note_header_is_stolen() {
    let mut bytes = vec![0u8; 64 + 4 * 56];
    put_ph(&mut bytes, 64, 6, 64, 0x40_0040, 4 * 56, 8);
    put_ph(&mut bytes, 64 + 56, 4, 0x300, 0x40_0300, 0x20, 4);
    put_ph(&mut bytes, 64 + 112, 1, 0, 0x40_0000, 0x800, 0x1000);
    put_ph(&mut bytes, 64 + 168, 1, 0x1000, 0x40_1000, 0x100, 0x1000);
    let before = bytes.clone();
    remove_program_header(&mut bytes, 64, 4, 1);
    assert_eq!(bytes[64..120], before[64..120]);
    assert_eq!(bytes[120..176], before[176..232]);
    assert_eq!(bytes[176..232], before[232..288]);
    assert!(bytes[232..288].iter().all(|b| *b == 0));
    // the offsets and addresses of the kept headers are unchanged
    assert_eq!(read_le(&bytes, 120 + 16, 8), 0x40_0000);
    assert_eq!(read_le(&bytes, 176 + 8, 8), 0x1000);
}

#[test]
fn dynamic_addresses_in_window_move() {
    let plan = ShiftPlan { added_data: 56, shift_start: 0x1000, shift_end: 0x2000, first_load_aligned_size: 0x2000 };
    let mut bytes = vec![0u8; 4 * 16];
    // DT_STRTAB in the window, DT_NEEDED (a string offset), DT_SYMTAB past the window, DT_GNU_HASH in it
    for (i, (tag, val)) in [(5u64, 0x1100u64), (1, 0x1100), (6, 0x2000), (0x6fff_fef5, 0x1ff0)].iter().enumerate() {
        write_le(&mut bytes, 16 * i, 8, *tag);
        write_le(&mut bytes, 16 * i + 8, 8, *val);
    }
    shift_dynamic_entries(&mut bytes, 0, 4, plan);
    let vals: Vec<u64> = (0..4).map(|i| read_le(&bytes, 16 * i + 8, 8)).collect();
    assert_eq!(vals, vec![0x1138, 0x1100, 0x2000, 0x2028]);
}

#[test]
fn symbol_values_in_window_move() {
    let plan = ShiftPlan { added_data: 56, shift_start: 0x1000, shift_end: 0x2000, first_load_aligned_size: 0x2000 };
    let mut bytes = vec![0u8; 3 * 24];
    write_le(&mut bytes, 8, 8, 0xfff);
    write_le(&mut bytes, 24 + 8, 8, 0x1000);
    write_le(&mut bytes, 48 + 8, 8, 0x1fff);
    shift_symbol_values(&mut bytes, 0, 3, plan);
    assert_eq!(read_le(&bytes, 8, 8), 0xfff);
    assert_eq!(read_le(&bytes, 32, 8), 0x1038);
    assert_eq!(read_le(&bytes, 56, 8), 0x2037);
}

#[test]
fn section_headers_in_window_move() {
    let plan = ShiftPlan { added_data: 56, shift_start: 0x40_0100, shift_end: 0x40_1000, first_load_aligned_size: 0x1000 };
    let mut bytes = vec![0u8; 2 * 64];
    write_le(&mut bytes, 0x10, 8, 0x40_0200);
    write_le(&mut bytes, 0x18, 8, 0x200);
    write_le(&mut bytes, 64 + 0x10, 8, 0x40_1000);
    write_le(&mut bytes, 64 + 0x18, 8, 0x1000);
    shift_section_headers(&mut bytes, 0, 2, 0x100, plan);
    assert_eq!(read_le(&bytes, 0x10, 8), 0x40_0238);
    assert_eq!(read_le(&bytes, 0x18, 8), 0x238);
    assert_eq!(read_le(&bytes, 64 + 0x10, 8), 0x40_1000);
    assert_eq!(read_le(&bytes, 64 + 0x18, 8), 0x1000);
}

#[test]
fn new_segment_header_is_loadable() {
    let mut bytes = vec![0xFFu8; 2 * 56];
    write_load_segment(&mut bytes, 0, 1, 0x5010, 0x40_6010, 0x300, 0x1000);
    assert_eq!(read_le(&bytes, 56, 4), 1);
    assert_eq!(read_le(&bytes, 56 + 4, 4), 7);
    assert_eq!(read_le(&bytes, 56 + 8, 8), 0x5010);
    assert_eq!(read_le(&bytes, 56 + 16, 8), 0x40_6010);
    assert_eq!(read_le(&bytes, 56 + 24, 8), 0x40_6010);
    assert_eq!(read_le(&bytes, 56 + 32, 8), 0x300);
    assert_eq!(read_le(&bytes, 56 + 40, 8), 0x300);
    assert_eq!(read_le(&bytes, 56 + 48, 8), 0x1000);
    assert!(bytes[..56].iter().all(|b| *b == 0xFF));
    // its offset and address agree modulo the alignment
    assert_eq!(0x5010 % 0x1000, 0x40_6010 % 0x1000);
}

#[test]
fn needed_library_is_found_by_name() {
    let dynstr = b"\0libc.so.6\0libapp.so\0".to_vec();
    let mut exec = vec![0u8; 8];
    for (tag, val) in [(1u64, 1u64), (1, 11), (5, 0x400), (0, 0)] {
        exec.extend_from_slice(&tag.to_le_bytes());
        exec.extend_from_slice(&val.to_le_bytes());
    }
    assert_eq!(find_needed_library(&exec, 8, &dynstr, &b"libapp.so".to_vec()), Ok((1, 3)));
    assert_eq!(find_needed_library(&exec, 8, &dynstr, &b"libc.so.6".to_vec()), Ok((0, 3)));
    assert_eq!(
        find_needed_library(&exec, 8, &dynstr, &b"libapp".to_vec()),
        Err(DynamicError::LibraryNotNeeded)
    );
    assert_eq!(
        find_needed_library(&exec[..40].to_vec(), 8, &dynstr, &b"libapp.so".to_vec()),
        Err(DynamicError::TableOutOfFile)
    );
}

#[test]
fn got_relative_relocation_points_at_slot() {
    // target at segment offset 0x40, slot right after the text at 0x120, site at 0x10 of a section at 0x100
    let got = relocation_value(RelocationKind::GotRelative, 0x40, 0x10, 0x100, -4, 0x60_0000, 0x120);
    assert_eq!(got, Some(0x120 - (0x10 + 0x100) - 4));
    let rel = relocation_value(RelocationKind::Relative, 0x40, 0x10, 0x100, -4, 0x60_0000, 0);
    assert_eq!(rel, Some(0x40 - 0x110 - 4));
    let abs = relocation_value(RelocationKind::Absolute, 0x40, 0x10, 0x100, 0, 0x60_0000, 0);
    assert_eq!(abs, Some(0x60_0040));
    assert_eq!(relocation_value(RelocationKind::Other, 0, 0, 0, 0, 0, 0), None);
}

#[test]
fn first_load_bytes_shift_up() {
    let exec: Vec<u8> = (0u8..32).collect();
    let mut out = vec![0xEEu8; 32];
    out[..8].copy_from_slice(&exec[..8]);
    copy_shifted(&mut out, &exec, 8, 4, 16);
    assert_eq!(out[..8], exec[..8]);
    assert_eq!(out[8..12], [0xEE; 4]);
    assert_eq!(out[12..16], exec[8..12]);
    assert_eq!(out[16..], exec[16..]);
}

#[test]
fn header_survey_finds_note_load_and_end() {
    let mut bytes = vec![0u8; 64 + 4 * 56];
    put_ph(&mut bytes, 64, 6, 64, 0x40_0040, 4 * 56, 8);
    put_ph(&mut bytes, 64 + 56, 4, 0x300, 0x40_0300, 0x20, 4);
    put_ph(&mut bytes, 64 + 112, 1, 0, 0x40_0000, 0x800, 0x1000);
    put_ph(&mut bytes, 64 + 168, 0x6474_e551, 0, 0, 0x10_0000, 16);
    let survey = roc_devlink::plan::survey_program_headers(&bytes, 64, 4).unwrap();
    assert_eq!(survey.note_index, Some(1));
    assert_eq!(survey.load_align, Some(0x1000));
    assert_eq!(survey.end_vaddr, 0x40_0800);
}

#[test]
fn section_end_is_the_highest() {
    let mut bytes = vec![0u8; 3 * 64];
    write_le(&mut bytes, 0x10, 8, 0x40_0000);
    write_le(&mut bytes, 0x20, 8, 0x100);
    write_le(&mut bytes, 64 + 0x10, 8, 0x40_2000);
    write_le(&mut bytes, 64 + 0x20, 8, 0x80);
    assert_eq!(roc_devlink::plan::sections_end_vaddr(&bytes, 0, 3), Some(0x40_2080));
    write_le(&mut bytes, 128 + 0x10, 8, u64::MAX);
    write_le(&mut bytes, 128 + 0x20, 8, 1);
    assert_eq!(roc_devlink::plan::sections_end_vaddr(&bytes, 0, 3), None);
}

#[test]
fn new_section_header_fields() {
    let mut bytes = vec![0xAAu8; 64 + 8];
    roc_devlink::plan::write_section_header(&mut bytes, 4, 6, 0x40_6000, 0x5100, 0x80);
    assert_eq!(read_le(&bytes, 4, 4), 0);
    assert_eq!(read_le(&bytes, 8, 4), 1);
    assert_eq!(read_le(&bytes, 4 + 8, 8), 6);
    assert_eq!(read_le(&bytes, 4 + 0x10, 8), 0x40_6000);
    assert_eq!(read_le(&bytes, 4 + 0x18, 8), 0x5100);
    assert_eq!(read_le(&bytes, 4 + 0x20, 8), 0x80);
    assert_eq!(read_le(&bytes, 4 + 0x30, 8), 16);
    assert_eq!(bytes[..4], [0xAA; 4]);
    assert_eq!(bytes[68..], [0xAA; 4]);
}

#[test]
fn call_in_shifted_window_reaches_app_function() {
    // a near call whose next instruction is at 0x40_0305, inside the window that moved by 56 bytes
    let plan = ShiftPlan { added_data: 56, shift_start: 0x40_00E8, shift_end: 0x40_1000, first_load_aligned_size: 0x1000 };
    let recorded = roc_devlink::elf::SurgeryEntry { file_offset: 0x301, virtual_offset: 0x40_0305, size: 4 };
    let site = roc_devlink::plan::shifted_site(recorded, 0xE8, plan);
    assert_eq!(site.file_offset, 0x301 + 56);
    assert_eq!(site.virtual_offset, 0x40_0305 + 56);
    let mut exec = vec![0u8; 0x1000];
    let virt = 0x40_9000u64;
    roc_devlink::elf::patch_surgery_site(&mut exec, site, virt).unwrap();
    let at = site.file_offset as usize;
    let disp = i32::from_le_bytes([exec[at], exec[at + 1], exec[at + 2], exec[at + 3]]);
    assert_eq!(disp as i64, virt as i64 - (0x40_0305 + 56));
}

#[test]
fn sites_outside_the_window_stay() {
    let plan = ShiftPlan { added_data: 56, shift_start: 0x40_00E8, shift_end: 0x40_1000, first_load_aligned_size: 0x1000 };
    let recorded = roc_devlink::elf::SurgeryEntry { file_offset: 0x1201, virtual_offset: 0x40_1205, size: 4 };
    assert_eq!(roc_devlink::plan::shifted_site(recorded, 0xE8, plan), recorded);
    let none = ShiftPlan { added_data: 0, shift_start: 0, shift_end: 0, first_load_aligned_size: 0 };
    let mut bytes = vec![0u8; 64];
    write_le(&mut bytes, 0x10, 8, 0x40_0200);
    write_le(&mut bytes, 0x18, 8, 0x200);
    let before = bytes.clone();
    shift_section_headers(&mut bytes, 0, 1, 0xE8, none);
    assert_eq!(bytes, before);
}

#[test]
fn padding_plan_rejects_a_misaligned_move() {
    let mut bytes = host_headers(0x800);
    // a segment inside the window whose alignment the move would break
    put_ph(&mut bytes, 64 + 168, 1, 0x400, 0x40_0400, 0x10, 0x100);
    let before = bytes.clone();
    assert_eq!(plan_padding(&mut bytes, 64, 3, 56), Err(PlanError::MisalignedSegment { index: 3 }));
    assert_eq!(bytes, before);
}

#[test]
fn padding_plan_moves_headers_in_the_window() {
    let mut bytes = host_headers(0x800);
    put_ph(&mut bytes, 64 + 168, 7, 0x400, 0x40_0400, 0x10, 8);
    let plan = plan_padding(&mut bytes, 64, 3, 56).unwrap();
    assert_eq!(plan.shift_start, 0x40_0000 + 232);
    assert_eq!(read_le(&bytes, 64 + 168 + 8, 8), 0x438);
    assert_eq!(read_le(&bytes, 64 + 168 + 16, 8), 0x40_0438);
    assert_eq!(read_le(&bytes, 64 + 168 + 24, 8), 0x40_0438);
    assert_eq!(read_le(&bytes, 64 + 168 + 32, 8), 0x10);
}

#[test]
fn section_at_the_dropped_padding_is_found() {
    let mut bytes = vec![0u8; 2 * 64];
    write_le(&mut bytes, 0x18, 8, 0x100);
    write_le(&mut bytes, 0x20, 8, 0x80);
    write_le(&mut bytes, 64 + 0x18, 8, 0x400);
    write_le(&mut bytes, 64 + 0x20, 8, 0x10);
    assert!(roc_devlink::plan::section_reaches_point(&bytes, 0, 2, 0x180));
    assert!(roc_devlink::plan::section_reaches_point(&bytes, 0, 2, 0x400));
    assert!(!roc_devlink::plan::section_reaches_point(&bytes, 0, 2, 0x200));
}
