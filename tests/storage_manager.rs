use roc_devlink::stack_arena::StackArena;
use roc_devlink::storage::{
    new_storage_manager, CallConv, Inst, IntWidth, Layout, Param, RegStorage, StackStorage,
    Storage, StorageManager, UnionLayout, FloatWidth,
};

const RBX: u8 = 3;

/// Sixteen general registers, handed out from the end of the list; a few are callee saved.
fn sixteen_reg_cc() -> CallConv {
    CallConv {
        general_default_free_regs: (0..16).collect(),
        float_default_free_regs: (0..16).collect(),
        general_callee_saved_regs: vec![RBX, 12, 13, 15],
        float_callee_saved_regs: vec![],
    }
}

fn manager() -> StorageManager {
    let mut m = new_storage_manager(sixteen_reg_cc());
    m.reset();
    m
}

#[test]
fn seventeenth_claim_spills_first_symbol() {
    let mut m = manager();
    let mut buf = Vec::new();
    for sym in 0..17u64 {
        m.claim_general_reg(&mut buf, sym);
    }
    assert_eq!(
        m.get_storage_for_sym(0),
        Storage::Stack(StackStorage::Primitive { base_offset: -8, reg: None })
    );
    assert_eq!(m.stack_size(), 8);
    // the first claim took the register at the top of the free list
    assert_eq!(m.get_storage_for_sym(16), Storage::Reg(RegStorage::General(15)));
    assert_eq!(buf, vec![Inst::MovBase32Reg64 { offset: -8, src: 15 }]);
}

#[test]
fn callee_saved_registers_are_recorded_once() {
    let mut m = manager();
    let mut buf = Vec::new();
    m.claim_general_reg(&mut buf, 1);
    assert_eq!(m.general_used_callee_saved_regs(), vec![15]);
    m.free_symbol(1);
    m.claim_general_reg(&mut buf, 2);
    assert_eq!(m.general_used_callee_saved_regs(), vec![15]);
}

#[test]
fn struct_field_shares_the_struct_area() {
    let mut m = manager();
    let mut buf = Vec::new();
    let (x, y, s, f) = (1u64, 2u64, 3u64, 4u64);
    m.claim_general_reg(&mut buf, x);
    m.claim_general_reg(&mut buf, y);
    let fields = vec![Layout::Int(IntWidth::I64), Layout::Int(IntWidth::I64)];
    m.create_struct(&mut buf, s, &fields, &vec![x, y]);
    let base = match m.get_storage_for_sym(s) {
        Storage::Stack(StackStorage::Complex { base_offset, size }) => {
            assert_eq!(size, 16);
            base_offset
        }
        other => panic!("struct not on the stack: {:?}", other),
    };
    assert_eq!(base, -16);
    assert_eq!(
        buf[buf.len() - 2..],
        [
            Inst::MovBase32Reg64 { offset: -16, src: 15 },
            Inst::MovBase32Reg64 { offset: -8, src: 14 }
        ]
    );
    m.load_field_at_index(f, s, 1, &fields);
    assert_eq!(
        m.get_storage_for_sym(f),
        Storage::Stack(StackStorage::ReferencedPrimitive { base_offset: base + 8, size: 8, sign_extend: false })
    );
    m.free_symbol(s);
    assert!(m.free_stack_chunks().is_empty());
    m.free_symbol(f);
    assert_eq!(m.free_stack_chunks(), vec![(base, 16)]);
}

#[test]
fn small_signed_field_loads_with_sign_extension() {
    let mut m = manager();
    let mut buf = Vec::new();
    let s = 10u64;
    m.claim_stack_area(s, 8);
    let fields = vec![Layout::Int(IntWidth::U8), Layout::Int(IntWidth::I16)];
    m.load_field_at_index(11, s, 1, &fields);
    assert_eq!(
        m.get_storage_for_sym(11),
        Storage::Stack(StackStorage::ReferencedPrimitive { base_offset: -7, size: 2, sign_extend: true })
    );
    let r = m.load_to_general_reg(&mut buf, 11);
    assert_eq!(buf, vec![Inst::MovsxReg64Base32 { dst: r, offset: -7, size: 2 }]);
    assert_eq!(m.get_storage_for_sym(11), Storage::Reg(RegStorage::General(r)));
}

#[test]
fn union_tag_id_follows_the_data() {
    let mut m = manager();
    let mut buf = Vec::new();
    m.claim_stack_area(1, 24);
    let layout = UnionLayout::NonRecursive { data_size: 24, data_alignment: 8, tag_id: IntWidth::U8 };
    m.load_union_tag_id(&mut buf, 2, 1, layout);
    assert_eq!(
        m.get_storage_for_sym(2),
        Storage::Stack(StackStorage::ReferencedPrimitive { base_offset: -24 + 16, size: 1, sign_extend: false })
    );
    assert_eq!(m.stack_offset_and_size(2), (-8, 1));
}

#[test]
fn jump_spills_value_in_parameter_register() {
    let mut m = manager();
    let mut buf = Vec::new();
    let (jp, p, v, a) = (100u64, 1u64, 2u64, 3u64);
    let params = vec![Param { symbol: p, borrow: false, layout: Layout::Int(IntWidth::I64) }];
    m.setup_joinpoint(&mut buf, jp, &params);
    assert_eq!(m.get_storage_for_sym(p), Storage::Reg(RegStorage::General(15)));
    m.free_symbol(p);
    m.claim_general_reg(&mut buf, v);
    assert_eq!(m.get_storage_for_sym(v), Storage::Reg(RegStorage::General(15)));
    m.claim_general_reg(&mut buf, a);
    assert_eq!(m.get_storage_for_sym(a), Storage::Reg(RegStorage::General(14)));
    buf.clear();
    m.setup_jump(&mut buf, jp, &vec![a], &vec![Layout::Int(IntWidth::I64)]);
    assert_eq!(m.get_storage_for_sym(v), Storage::Stack(StackStorage::Primitive { base_offset: -8, reg: None }));
    assert_eq!(
        buf,
        vec![Inst::MovBase32Reg64 { offset: -8, src: 15 }, Inst::MovReg64Reg64 { dst: 15, src: 14 }]
    );
    // the join point keeps its parameters for later jumps
    m.free_symbol(jp);
}

#[test]
fn caller_saved_value_reloads_from_its_slot() {
    let mut m = manager();
    let mut buf = Vec::new();
    let r = m.claim_general_reg(&mut buf, 7);
    m.claim_general_reg(&mut buf, 8);
    assert_eq!(r, 15);
    // register 15 is callee saved, register 14 caller saved
    m.push_used_caller_saved_regs_to_stack(&mut buf);
    assert_eq!(m.get_storage_for_sym(7), Storage::Reg(RegStorage::General(15)));
    assert_eq!(m.get_storage_for_sym(8), Storage::Stack(StackStorage::Primitive { base_offset: -8, reg: None }));
    assert_eq!(buf, vec![Inst::MovBase32Reg64 { offset: -8, src: 14 }]);
    let r2 = m.load_to_general_reg(&mut buf, 8);
    assert_eq!(buf.last(), Some(&Inst::MovReg64Base32 { dst: r2, offset: -8 }));
}

#[test]
fn freeing_everything_leaves_one_chunk() {
    let mut m = manager();
    m.claim_stack_area(1, 12);
    m.claim_stack_area(2, 8);
    m.claim_stack_area(3, 24);
    assert_eq!(m.stack_size(), 48);
    m.free_symbol(2);
    m.free_symbol(1);
    m.free_symbol(3);
    assert_eq!(m.stack_size(), 48);
    assert_eq!(m.free_stack_chunks(), vec![(-48, 48)]);
}

#[test]
fn claim_reuses_best_fitting_chunk() {
    let mut arena = StackArena::new();
    let a = arena.claim_stack_size(16);
    let _b = arena.claim_stack_size(8);
    let c = arena.claim_stack_size(8);
    let _d = arena.claim_stack_size(8);
    assert_eq!((a, c), (-16, -32));
    arena.free_stack_chunk(a, 16);
    arena.free_stack_chunk(c, 8);
    assert_eq!(arena.free_stack_chunks, vec![(-32, 8), (-16, 16)]);
    // the eight-byte chunk fits best
    assert_eq!(arena.claim_stack_size(5), -32);
    assert_eq!(arena.free_stack_chunks, vec![(-16, 16)]);
    // a partial fit is cut from the low end
    assert_eq!(arena.claim_stack_size(8), -16);
    assert_eq!(arena.free_stack_chunks, vec![(-8, 8)]);
}

#[test]
fn claim_then_free_restores_free_list() {
    let mut arena = StackArena::new();
    let a = arena.claim_stack_size(24);
    let b = arena.claim_stack_size(8);
    arena.free_stack_chunk(a, 24);
    let before = arena.free_stack_chunks.clone();
    let c = arena.claim_stack_size(16);
    assert_eq!(c, a);
    arena.free_stack_chunk(c, 16);
    assert_eq!(arena.free_stack_chunks, before);
    assert_eq!(b, -32);
}

#[test]
fn touching_chunks_coalesce_in_either_order() {
    let mut one = StackArena::new();
    one.claim_stack_size(32);
    let mut two = StackArena::new();
    two.claim_stack_size(32);
    one.free_stack_chunk(-32, 8);
    one.free_stack_chunk(-24, 16);
    two.free_stack_chunk(-24, 16);
    two.free_stack_chunk(-32, 8);
    assert_eq!(one.free_stack_chunks, vec![(-32, 24)]);
    assert_eq!(one.free_stack_chunks, two.free_stack_chunks);
    one.free_stack_chunk(-8, 8);
    assert_eq!(one.free_stack_chunks, vec![(-32, 32)]);
}

#[test]
fn float_values_use_float_registers() {
    let mut m = manager();
    let mut buf = Vec::new();
    let f = m.claim_float_reg(&mut buf, 1);
    assert_eq!(m.get_storage_for_sym(1), Storage::Reg(RegStorage::Float(f)));
    m.create_struct(&mut buf, 2, &vec![Layout::Float(FloatWidth::F64)], &vec![1]);
    assert_eq!(buf.last(), Some(&Inst::MovBase32Freg64 { offset: -8, src: f }));
    assert!(m.is_stored_primitive(1));
    assert!(!m.is_stored_primitive(2));
}

#[test]
fn zero_sized_struct_has_no_data() {
    let mut m = manager();
    let mut buf = Vec::new();
    m.create_struct(&mut buf, 5, &vec![Layout::Composite { size: 0 }], &vec![6]);
    assert_eq!(m.get_storage_for_sym(5), Storage::NoData);
    assert!(buf.is_empty());
}

#[test]
fn specified_register_loads_copy_without_tracking() {
    let mut m = manager();
    let mut buf = Vec::new();
    let r = m.claim_general_reg(&mut buf, 1);
    m.load_to_specified_general_reg(&mut buf, 1, r);
    assert!(buf.is_empty());
    m.load_to_specified_general_reg(&mut buf, 1, 2);
    assert_eq!(buf, vec![Inst::MovReg64Reg64 { dst: 2, src: r }]);
    assert_eq!(m.get_storage_for_sym(1), Storage::Reg(RegStorage::General(r)));
}

#[test]
fn arguments_are_recorded_where_they_arrive() {
    let mut m = manager();
    m.general_reg_arg(1, 7);
    assert_eq!(m.get_storage_for_sym(1), Storage::Reg(RegStorage::General(7)));
    assert!(!m.general_free_regs.contains(&7));
    m.primitive_stack_arg(2, 16);
    assert_eq!(m.stack_offset_and_size(2), (16, 8));
    m.update_fn_call_stack_size(32);
    m.update_fn_call_stack_size(16);
    assert_eq!(m.fn_call_stack_size(), 32);
}

#[test]
fn temporary_register_returns_to_free_list() {
    let mut m = manager();
    let mut buf = Vec::new();
    m.with_tmp_general_reg(&mut buf, |r| vec![Inst::MovReg64Base32 { dst: r, offset: -8 }]);
    assert_eq!(buf, vec![Inst::MovReg64Base32 { dst: 15, offset: -8 }]);
    assert_eq!(m.general_free_regs.last(), Some(&15));
}
