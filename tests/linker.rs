use roc_devlink::elf::{
    aligned_offset, new_segment_vaddr, patch_plt_entry, patch_surgery_site, read_le,
    remove_dynamic_entry, write_le, SurgeryEntry, SurgeryError,
};
use roc_devlink::scan::{read_instruction, RawInst, classify_instruction, find_surgery_sites, DecodedInst, OperandClass, ScanStep};

#[test]
fn offsets_align_to_sixteen() {
    assert_eq!(aligned_offset(0), 0);
    assert_eq!(aligned_offset(1), 16);
    assert_eq!(aligned_offset(0x1234), 0x1240);
    assert_eq!(aligned_offset(0x1240), 0x1240);
}

#[test]
fn segment_address_matches_file_offset_modulo_alignment() {
    assert_eq!(new_segment_vaddr(0x5010, 0x40_3000, 0x1000), 0x40_3010);
    assert_eq!(new_segment_vaddr(0x5010, 0x40_3020, 0x1000), 0x40_4010);
    assert_eq!(new_segment_vaddr(0x5010, 0x40_3010, 0x1000), 0x40_3010);
}

#[test]
fn little_endian_round_trip() {
    let mut bytes = vec![0xAAu8; 12];
    write_le(&mut bytes, 2, 8, 0x0102_0304_0506_0708);
    assert_eq!(bytes[..], [0xAA, 0xAA, 8, 7, 6, 5, 4, 3, 2, 1, 0xAA, 0xAA]);
    assert_eq!(read_le(&bytes, 2, 8), 0x0102_0304_0506_0708);
    assert_eq!(read_le(&bytes, 2, 2), 0x0708);
}

#[test]
fn surgery_writes_displacement_to_app_function() {
    let mut exec = vec![0xE8u8, 0, 0, 0, 0, 0x90];
    let site = SurgeryEntry { file_offset: 1, virtual_offset: 0x40_1005, size: 4 };
    assert_eq!(patch_surgery_site(&mut exec, site, 0x50_0000), Ok(()));
    let disp = i32::from_le_bytes([exec[1], exec[2], exec[3], exec[4]]);
    assert_eq!(disp as i64, 0x50_0000 - 0x40_1005);
    assert_eq!((exec[0], exec[5]), (0xE8, 0x90));
}

#[test]
fn surgery_backwards_displacement_is_negative() {
    let mut exec = vec![0u8; 8];
    let site = SurgeryEntry { file_offset: 2, virtual_offset: 0x50_0010, size: 4 };
    patch_surgery_site(&mut exec, site, 0x40_0000).unwrap();
    let disp = i32::from_le_bytes([exec[2], exec[3], exec[4], exec[5]]);
    assert_eq!(disp as i64, 0x40_0000 - 0x50_0010);
}

#[test]
fn surgery_rejects_other_widths() {
    let mut exec = vec![0u8; 8];
    let site = SurgeryEntry { file_offset: 2, virtual_offset: 0x10, size: 1 };
    assert_eq!(
        patch_surgery_site(&mut exec, site, 0x40),
        Err(SurgeryError::UnsupportedSurgerySize { size: 1 })
    );
    assert_eq!(exec, vec![0u8; 8]);
}

#[test]
fn plt_entry_becomes_direct_jump() {
    let mut exec = vec![0xFFu8; 40];
    patch_plt_entry(&mut exec, 8, 0x40_1020, 0x40_9000);
    assert_eq!(exec[8], 0xE9);
    let disp = i32::from_le_bytes([exec[9], exec[10], exec[11], exec[12]]);
    assert_eq!(disp as i64, 0x40_9000 - (0x40_1020 + 5));
    assert!(exec[13..24].iter().all(|b| *b == 0x90));
    assert_eq!(exec[7], 0xFF);
    assert_eq!(exec[24], 0xFF);
}

fn dyn_entry(tag: u64, val: u64) -> Vec<u8> {
    let mut e = tag.to_le_bytes().to_vec();
    e.extend_from_slice(&val.to_le_bytes());
    e
}

#[test]
fn dummy_library_entry_leaves_dynamic_table() {
    let mut exec = vec![0x55u8; 4];
    exec.extend(dyn_entry(1, 0x10));
    exec.extend(dyn_entry(1, 0x20));
    exec.extend(dyn_entry(5, 0x400));
    exec.extend(dyn_entry(0, 0));
    remove_dynamic_entry(&mut exec, 4, 1, 3);
    let tags: Vec<u64> = (0..3).map(|i| read_le(&exec, 4 + 16 * i, 8)).collect();
    assert_eq!(tags, vec![1, 5, 0]);
    assert_eq!(read_le(&exec, 4 + 8, 8), 0x10);
    assert_eq!(read_le(&exec, 4 + 16 + 8, 8), 0x400);
    assert_eq!(exec[..4], [0x55; 4]);
}

#[test]
fn near_call_to_plt_entry_is_a_surgery_site() {
    // call rel32 to 0x1010, then a call to elsewhere, then nop
    let text = vec![0xE8, 0x0B, 0, 0, 0, 0xE8, 0x00, 0x10, 0, 0, 0x90];
    let (sites, indirect) = find_surgery_sites(&text, 0x1000, 0x200, &vec![0x2000, 0x1010]).unwrap();
    assert!(!indirect);
    assert_eq!(sites, vec![(1, SurgeryEntry { file_offset: 0x201, virtual_offset: 0x1005, size: 4 })]);
}

#[test]
fn short_jump_to_plt_entry_is_refused() {
    // jmp rel8 to 0x1012: in 64-bit code its displacement kind is not one surgery rewrites
    let text = vec![0xEB, 0x10];
    let r = find_surgery_sites(&text, 0x1000, 0x40, &vec![0x1012]);
    assert_eq!(r, Err(roc_devlink::scan::ScanError::UnknownBranchWidth { ip: 0x1000 }));
}

#[test]
fn short_jump_elsewhere_is_skipped() {
    let text = vec![0xEB, 0x10, 0x90];
    let (sites, indirect) = find_surgery_sites(&text, 0x1000, 0x40, &vec![0x2000]).unwrap();
    assert!(sites.is_empty());
    assert!(!indirect);
}

#[test]
fn indirect_call_is_reported() {
    // call qword ptr [rax]
    let text = vec![0xFF, 0x10];
    let (sites, indirect) = find_surgery_sites(&text, 0x1000, 0, &vec![0x1010]).unwrap();
    assert!(sites.is_empty());
    assert!(indirect);
}

#[test]
fn far_branch_fails_the_scan() {
    let inst = DecodedInst { len: 7, operand: OperandClass::FarBranch, near_target: 0, branch_width: 0, indirect: false };
    match classify_instruction(inst, 3, 0x1000, 0, &vec![]) {
        ScanStep::Fail { error } => assert_eq!(error, roc_devlink::scan::ScanError::FarBranch { ip: 0x1003 }),
        other => panic!("unexpected step {:?}", other),
    }
}

#[test]
fn patched_call_reaches_app_function() {
    // a near call at 0x1000 to the linkage-table entry at 0x1010, then surgery
    let mut exec = vec![0u8; 0x200];
    exec.extend_from_slice(&[0xE8, 0x0B, 0, 0, 0]);
    let text = exec[0x200..].to_vec();
    let (sites, _) = find_surgery_sites(&text, 0x1000, 0x200, &vec![0x1010]).unwrap();
    let virt = 0x9_0000u64;
    patch_surgery_site(&mut exec, sites[0].1, virt).unwrap();
    let disp = i32::from_le_bytes([exec[0x201], exec[0x202], exec[0x203], exec[0x204]]);
    assert_eq!(0x1005i64 + disp as i64, virt as i64);
}

#[test]
fn only_roc_exports_are_app_functions() {
    let names = vec![b"roc_main".to_vec(), b"main".to_vec(), b"roc_".to_vec(), b"ro".to_vec(), b"roc_fx_log".to_vec()];
    assert_eq!(
        roc_devlink::exports::roc_names(&names),
        vec![b"roc_main".to_vec(), b"roc_".to_vec(), b"roc_fx_log".to_vec()]
    );
}

#[test]
fn unreadable_library_has_no_app_functions() {
    assert_eq!(roc_devlink::exports::roc_application_functions(&b"roc_main".to_vec()), None);
    assert_eq!(roc_devlink::exports::roc_application_functions(&vec![]), None);
}

#[test]
fn host_roc_functions_and_memory_aliases() {
    let syms = vec![
        (Some(b"roc_alloc".to_vec()), 0x1000u64, true),
        (Some(b"roc_memcpy".to_vec()), 0x2000, true),
        (Some(b"roc_undefined".to_vec()), 0, false),
        (Some(b"main".to_vec()), 0x3000, true),
        (None, 0x4000, true),
        (Some(b"roc_memset".to_vec()), 0x5000, true),
    ];
    assert_eq!(
        roc_devlink::exports::roc_function_addresses(&syms),
        vec![
            (b"roc_alloc".to_vec(), 0x1000),
            (b"memcpy".to_vec(), 0x2000),
            (b"roc_memcpy".to_vec(), 0x2000),
            (b"memset".to_vec(), 0x5000),
            (b"roc_memset".to_vec(), 0x5000),
        ]
    );
}

#[test]
fn unreadable_executable_has_no_host_functions() {
    assert_eq!(roc_devlink::exports::host_function_addresses(&b"roc_alloc".to_vec()), None);
}

#[test]
fn relocation_values_by_width() {
    let mut exec = vec![0xAAu8; 12];
    assert_eq!(roc_devlink::elf::write_relocation(&mut exec, 2, 32, -8), Ok(()));
    assert_eq!(exec[2..6], (-8i32).to_le_bytes());
    assert_eq!(exec[6], 0xAA);
    assert_eq!(roc_devlink::elf::write_relocation(&mut exec, 2, 64, 0x60_0040), Ok(()));
    assert_eq!(exec[2..10], 0x60_0040i64.to_le_bytes());
    assert_eq!(
        roc_devlink::elf::write_relocation(&mut exec, 2, 16, 1),
        Err(SurgeryError::UnsupportedRelocationSize { size: 16 })
    );
}

#[test]
fn dynamic_symbol_points_at_app_function() {
    let mut exec = vec![0x11u8; 8 + 2 * 24];
    roc_devlink::elf::patch_dynamic_symbol(&mut exec, 8, 1, 27, 0x40_7000, 0x42);
    let sym = 8 + 24;
    assert_eq!(read_le(&exec, sym + 6, 2), 27);
    assert_eq!(read_le(&exec, sym + 8, 8), 0x40_7000);
    assert_eq!(read_le(&exec, sym + 16, 8), 0x42);
    assert_eq!(exec[sym..sym + 6], [0x11; 6]);
    assert_eq!(exec[8..sym], [0x11; 24]);
}

#[test]
fn decoded_instruction_is_read_by_width_table() {
    let raw = RawInst {
        len: 5,
        op0_kind: Some(2),
        op_code_op0_kind: Some(99),
        near_target: 0x1010,
        call_far_indirect: false,
        call_near_indirect: false,
        jmp_far_indirect: false,
        jmp_near_indirect: false,
    };
    let inst = read_instruction(raw);
    assert_eq!(inst.operand, OperandClass::NearBranch);
    assert_eq!(inst.branch_width, 4);
    assert!(!inst.indirect);
    let short = read_instruction(RawInst { op_code_op0_kind: Some(97), ..raw });
    assert_eq!(short.branch_width, 0);
    let far = read_instruction(RawInst { op0_kind: Some(5), jmp_near_indirect: true, ..raw });
    assert_eq!(far.operand, OperandClass::FarBranch);
    assert!(far.indirect);
    let none = read_instruction(RawInst { op0_kind: None, op_code_op0_kind: None, ..raw });
    assert_eq!((none.operand, none.branch_width), (OperandClass::Other, 0));
}

#[test]
fn jump_slots_of_app_functions_give_plt_entries() {
    // relocations 0 and 2 name app symbols 7 and 9; relocation 1 a host symbol
    let targets = vec![Some(7u64), Some(3), Some(9), None];
    let entries = roc_devlink::scan::plt_entries(&targets, &vec![9, 7], 0x1020, 0x2020);
    assert_eq!(
        entries,
        vec![
            roc_devlink::scan::PltEntry { symbol: 1, file_offset: 0x2030, vaddr: 0x1030 },
            roc_devlink::scan::PltEntry { symbol: 0, file_offset: 0x2050, vaddr: 0x1050 },
        ]
    );
}
