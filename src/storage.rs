use std::collections::HashMap;
use vstd::prelude::*;

use crate::stack_arena::{
    any_fit, apart, can_free, chunk_end, chunk_start, chunks_wf, claim_result, freed, in_some_chunk,
    is_best_fit, is_insert_pos, lemma_claim_keeps_cover, lemma_freed_keeps_cover,
    lemma_full_cover_is_one_chunk, lemma_insert_pos_exists, lemma_insert_pos_unique, round8,
    taken_from, StackArena,
};

verus! {

broadcast use vstd::std_specs::hash::group_hash_axioms;

/// Identifier of a value during code generation.
pub type Symbol = u64;

/// A physical register: an index into the target's general or float register file.
#[derive(Copy, Clone, Debug, PartialEq, Eq, Structural)]
pub enum RegStorage {
    General(u8),
    Float(u8),
}

#[derive(Copy, Clone, Debug, PartialEq, Eq, Structural)]
pub enum StackStorage {
    /// An eight-byte scalar in an aligned slot, perhaps also cached in a register.
    Primitive { base_offset: i32, reg: Option<RegStorage> },
    /// A scalar inside a larger value; it is loaded with sign or zero extension.
    ReferencedPrimitive { base_offset: i32, size: u32, sign_extend: bool },
    /// Composite data (lists, records, unions, strings).
    Complex { base_offset: i32, size: u32 },
}

#[derive(Copy, Clone, Debug, PartialEq, Eq, Structural)]
pub enum Storage {
    Reg(RegStorage),
    Stack(StackStorage),
    NoData,
}

/// The machine operations that the manager asks of the assembler, in the
/// order that it asks for them. Offsets are relative to the base pointer.
#[derive(Copy, Clone, Debug, PartialEq, Eq, Structural)]
pub enum Inst {
    MovReg64Base32 { dst: u8, offset: i32 },
    MovBase32Reg64 { offset: i32, src: u8 },
    MovsxReg64Base32 { dst: u8, offset: i32, size: u8 },
    MovzxReg64Base32 { dst: u8, offset: i32, size: u8 },
    MovReg64Reg64 { dst: u8, src: u8 },
    MovFreg64Base32 { dst: u8, offset: i32 },
    MovBase32Freg64 { offset: i32, src: u8 },
    MovFreg64Freg64 { dst: u8, src: u8 },
}

/// The calling convention: the registers handed out, in the order of a stack
/// (the last one first), and the ones a callee must preserve. Every other
/// register is caller saved.
pub struct CallConv {
    pub general_default_free_regs: Vec<u8>,
    pub float_default_free_regs: Vec<u8>,
    pub general_callee_saved_regs: Vec<u8>,
    pub float_callee_saved_regs: Vec<u8>,
}

impl CallConv {
    pub open spec fn general_callee_saved_spec(&self, r: u8) -> bool {
        self.general_callee_saved_regs@.contains(r)
    }

    pub open spec fn float_callee_saved_spec(&self, r: u8) -> bool {
        self.float_callee_saved_regs@.contains(r)
    }

    pub fn general_callee_saved(&self, r: u8) -> (b: bool)
        ensures
            b == self.general_callee_saved_spec(r),
    {
        contains_reg(&self.general_callee_saved_regs, r)
    }

    pub fn float_callee_saved(&self, r: u8) -> (b: bool)
        ensures
            b == self.float_callee_saved_spec(r),
    {
        contains_reg(&self.float_callee_saved_regs, r)
    }
}

/// Whether `regs` holds `r`.
pub fn contains_reg(regs: &Vec<u8>, r: u8) -> (b: bool)
    ensures
        b == regs@.contains(r),
{
    let mut i: usize = 0;
    while i < regs.len()
        invariant
            i <= regs.len(),
            forall|j: int| 0 <= j < i ==> regs@[j] != r,
        decreases regs.len() - i,
    {
        if regs[i] == r {
            return true;
        }
        i = i + 1;
    }
    false
}

/// The register that a storage keeps its value in, if any.
pub open spec fn held_reg(st: Storage) -> Option<RegStorage> {
    match st {
        Storage::Reg(r) => Some(r),
        Storage::Stack(StackStorage::Primitive { reg, .. }) => reg,
        _ => None,
    }
}

/// Storage that lives inside a stack allocation and must be backed by one.
pub open spec fn needs_backing(st: Storage) -> bool {
    match st {
        Storage::Stack(StackStorage::Complex { .. }) => true,
        Storage::Stack(StackStorage::ReferencedPrimitive { .. }) => true,
        _ => false,
    }
}

pub open spec fn is_stack(st: Storage) -> bool {
    match st {
        Storage::Stack(_) => true,
        _ => false,
    }
}

/// `sym` holds a share of some stack allocation.
pub open spec fn backed(a: Seq<(Symbol, i32, u32)>, sym: Symbol) -> bool {
    exists|i: int| 0 <= i < a.len() && (#[trigger] a[i]).0 == sym
}

/// From allocations `a0` and free list `s0` to `a1` and `s1`, `sym` dropped
/// its share: its entry went, and its area returned to the free list unless
/// another value still holds a share of it.
pub open spec fn share_dropped(
    a0: Seq<(Symbol, i32, u32)>,
    s0: Seq<(i32, u32)>,
    sym: Symbol,
    a1: Seq<(Symbol, i32, u32)>,
    s1: Seq<(i32, u32)>,
) -> bool {
    exists|i: int|
        0 <= i < a0.len() && (#[trigger] a0[i]).0 == sym && a1 == a0.remove(i) && s1 == if exists|j: int|
            0 <= j < a1.len() && (#[trigger] a1[j]).1 == a0[i].1 {
            s0
        } else {
            freed(s0, a0[i].1 as int, a0[i].2 as int)
        }
}

/// Two allocation regions share no byte.
pub open spec fn regions_apart(b1: int, n1: int, b2: int, n2: int) -> bool {
    b1 + n1 <= b2 || b2 + n2 <= b1
}

/// The spill slot of a spilled value.
pub open spec fn spilled(base_offset: i32) -> Storage {
    Storage::Stack(StackStorage::Primitive { base_offset, reg: None })
}

/// Where a value in register `held` goes when the register is taken from it.
pub open spec fn after_spill(st: Storage, slot: i32) -> Storage {
    match st {
        Storage::Stack(StackStorage::Primitive { base_offset, .. }) => spilled(base_offset),
        _ => spilled(slot),
    }
}

/// The store that a spill of `r` to `slot` emits.
pub open spec fn spill_store(r: RegStorage, slot: i32) -> Inst {
    match r {
        RegStorage::General(g) => Inst::MovBase32Reg64 { offset: slot, src: g },
        RegStorage::Float(f) => Inst::MovBase32Freg64 { offset: slot, src: f },
    }
}

/// Byte `x` lies in a live stack area of `a`.
pub open spec fn in_some_alloc(a: Seq<(Symbol, i32, u32)>, x: int) -> bool {
    exists|i: int| 0 <= i < a.len() && (#[trigger] a[i]).1 <= x < a[i].1 + a[i].2
}

/// Every byte of the used frame `[-stack_size, 0)` is free or in a live area.
pub open spec fn covered(s: Seq<(i32, u32)>, stack_size: int, a: Seq<(Symbol, i32, u32)>) -> bool {
    forall|x: int| -stack_size <= x < 0 ==> #[trigger] in_some_chunk(s, x) || in_some_alloc(a, x)
}

/// Tracks where every value lives: registers, spill slots, and stack areas.
pub struct StorageManager {
    pub cc: CallConv,
    pub symbol_storage_map: HashMap<Symbol, Storage>,
    /// Each value that holds a share of a stack area, with that area
    /// `(base_offset, size)`. An area returns to the free list when its last
    /// share goes.
    pub allocations: Vec<(Symbol, i32, u32)>,
    pub join_param_map: HashMap<u64, Vec<Storage>>,
    pub general_free_regs: Vec<u8>,
    pub float_free_regs: Vec<u8>,
    pub general_used_regs: Vec<(u8, Symbol)>,
    pub float_used_regs: Vec<(u8, Symbol)>,
    pub general_used_callee_saved_regs: Vec<u8>,
    pub float_used_callee_saved_regs: Vec<u8>,
    pub frame: StackArena,
    pub fn_call_stack_size: u32,
}

impl StorageManager {
    pub open spec fn storage_of(&self, sym: Symbol) -> Storage {
        self.symbol_storage_map@[sym]
    }

    pub open spec fn has_storage(&self, sym: Symbol) -> bool {
        self.symbol_storage_map@.contains_key(sym)
    }

    /// Every share of a stack area: an aligned region of the used frame, free
    /// of the free list, held by a stored value, and either the same area as
    /// another share or apart from it.
    pub open spec fn allocations_wf(&self) -> bool {
        let a = self.allocations@;
        let s = self.frame.free_stack_chunks@;
        let size = self.frame.stack_size as int;
        &&& forall|i: int|
            0 <= i < a.len() ==> {
                &&& can_free(s, size, (#[trigger] a[i]).1 as int, a[i].2 as int)
                &&& self.has_storage(a[i].0)
                &&& is_stack(self.storage_of(a[i].0))
            }
        &&& forall|i: int, j: int|
            0 <= i < j < a.len() ==> {
                &&& (#[trigger] a[i]).0 != (#[trigger] a[j]).0
                &&& a[i].1 == a[j].1 ==> a[i].2 == a[j].2
                &&& a[i].1 != a[j].1 ==> regions_apart(
                    a[i].1 as int,
                    a[i].2 as int,
                    a[j].1 as int,
                    a[j].2 as int,
                )
            }
    }

    /// Each entry of a used-register table names a distinct stored value that
    /// keeps its value in that register.
    pub open spec fn used_wf(&self) -> bool {
        let g = self.general_used_regs@;
        let f = self.float_used_regs@;
        &&& forall|i: int|
            0 <= i < g.len() ==> self.has_storage((#[trigger] g[i]).1) && held_reg(
                self.storage_of(g[i].1),
            ) == Some(RegStorage::General(g[i].0))
        &&& forall|i: int|
            0 <= i < f.len() ==> self.has_storage((#[trigger] f[i]).1) && held_reg(
                self.storage_of(f[i].1),
            ) == Some(RegStorage::Float(f[i].0))
        &&& forall|i: int, j: int| 0 <= i < j < g.len() ==> (#[trigger] g[i]).1 != (#[trigger] g[j]).1
        &&& forall|i: int, j: int| 0 <= i < j < f.len() ==> (#[trigger] f[i]).1 != (#[trigger] f[j]).1
    }

    /// Every value inside a stack area holds a share of one.
    pub open spec fn backing_wf(&self) -> bool {
        forall|sym: Symbol|
            #[trigger] self.symbol_storage_map@.contains_key(sym) && needs_backing(
                self.symbol_storage_map@[sym],
            ) ==> backed(self.allocations@, sym)
    }

    /// No byte of the frame is lost: each is free or in a live area.
    pub open spec fn frame_covered(&self) -> bool {
        covered(self.frame.free_stack_chunks@, self.frame.stack_size as int, self.allocations@)
    }

    pub open spec fn wf(&self) -> bool {
        &&& self.frame.wf()
        &&& self.allocations_wf()
        &&& self.used_wf()
        &&& self.backing_wf()
        &&& self.frame_covered()
    }

    /// The frame can grow by `k` more bytes.
    pub open spec fn room(&self, k: int) -> bool {
        self.frame.stack_size + k <= i32::MAX
    }
}

/// A region taken by a claim leaves every other allocation apart from the
/// free list, and lies apart from it.
proof fn lemma_claim_keeps_apart(
    s: Seq<(i32, u32)>,
    size: int,
    s2: Seq<(i32, u32)>,
    size2: int,
    r: int,
    a: int,
    b: int,
    n: int,
)
    requires
        chunks_wf(s, size),
        can_free(s, size, b, n),
        size <= size2,
        a > 0,
        chunks_wf(s2, size2),
        a % 8 == 0,
        claim_result(s, size, a, r, s2, size2),
    ensures
        can_free(s2, size2, b, n),
        regions_apart(r, a, b, n),
{
    assert(round8(a) == a);
    if any_fit(s, a) {
        let p = choose|p: int| is_best_fit(s, a, p) && r == s[p].0 && s2 == taken_from(s, p, a) && size2 == size;
        assert(apart(s[p], b, n));
        assert forall|k: int| 0 <= k < s2.len() implies apart(#[trigger] s2[k], b, n) by {
            if s[p].1 == a {
                if k >= p {
                    assert(s2[k] == s[k + 1]);
                    assert(apart(s[k + 1], b, n));
                } else {
                    assert(apart(s[k], b, n));
                }
            } else if k == p {
                assert(chunk_start(s2[k]) == s[p].0 + a);
                assert(chunk_end(s2[k]) == chunk_end(s[p]));
            } else {
                assert(apart(s[k], b, n));
            }
        }
    }
}

/// A claim whose region becomes a new live area keeps the frame covered.
proof fn lemma_claim_push_covered(
    s: Seq<(i32, u32)>,
    size: int,
    a: Seq<(Symbol, i32, u32)>,
    amount: int,
    r: int,
    s2: Seq<(i32, u32)>,
    size2: int,
    a2: Seq<(Symbol, i32, u32)>,
    sym: Symbol,
)
    requires
        chunks_wf(s, size),
        covered(s, size, a),
        amount > 0,
        amount % 8 == 0,
        claim_result(s, size, amount, r, s2, size2),
        a2 == a.push((sym, r as i32, amount as u32)),
        -2147483648 <= r <= 2147483647,
        amount <= 0xffff_ffff,
    ensures
        covered(s2, size2, a2),
{
    assert(round8(amount) == amount);
    assert forall|x: int| -size2 <= x < 0 implies #[trigger] in_some_chunk(s2, x) || in_some_alloc(a2, x) by {
        if r <= x < r + amount {
            assert(a2[a.len() as int] == (sym, r as i32, amount as u32));
        } else if x < -size {
            lemma_claim_keeps_cover(s, size, amount, r, s2, size2, x);
        } else {
            assert(in_some_chunk(s, x) || in_some_alloc(a, x));
            if in_some_chunk(s, x) {
                lemma_claim_keeps_cover(s, size, amount, r, s2, size2, x);
            } else {
                let i = choose|i: int| 0 <= i < a.len() && (#[trigger] a[i]).1 <= x < a[i].1 + a[i].2;
                assert(a2[i] == a[i]);
            }
        }
    }
}

/// Releasing an area leaves every area apart from it apart from the free list.
proof fn lemma_free_keeps_apart(s: Seq<(i32, u32)>, size: int, o: int, m: int, b: int, n: int)
    requires
        chunks_wf(s, size),
        can_free(s, size, o, m),
        can_free(s, size, b, n),
        regions_apart(o, m, b, n),
    ensures
        can_free(freed(s, o, m), size, b, n),
{
    lemma_insert_pos_exists(s, size, o, m);
    let p = choose|p: int| is_insert_pos(s, o, p);
    lemma_insert_pos_unique(s, size, o, p);
    let t = freed(s, o, m);
    if p > 0 {
        assert(apart(s[p - 1], b, n));
    }
    if p < s.len() {
        assert(apart(s[p], b, n));
    }
    assert forall|k: int| 0 <= k < t.len() implies apart(#[trigger] t[k], b, n) by {
        if p > 0 && k < p - 1 {
            assert(apart(s[k], b, n));
        }
        if k > p + 1 {
            assert(apart(s[k - 1], b, n));
            if k < s.len() {
                assert(apart(s[k], b, n));
            }
        }
        if k == p + 1 {
            assert(apart(s[p], b, n));
            if k < s.len() {
                assert(apart(s[k], b, n));
            }
        }
    }
}

pub fn new_storage_manager(cc: CallConv) -> (r: StorageManager)
    ensures
        r.wf(),
        r.cc == cc,
        r.symbol_storage_map@.is_empty(),
        r.allocations@.len() == 0,
        r.general_free_regs@.len() == 0,
        r.float_free_regs@.len() == 0,
        r.frame.stack_size == 0,
{
    StorageManager {
        cc,
        symbol_storage_map: HashMap::new(),
        allocations: Vec::new(),
        join_param_map: HashMap::new(),
        general_free_regs: Vec::new(),
        float_free_regs: Vec::new(),
        general_used_regs: Vec::new(),
        float_used_regs: Vec::new(),
        general_used_callee_saved_regs: Vec::new(),
        float_used_callee_saved_regs: Vec::new(),
        frame: StackArena::new(),
        fn_call_stack_size: 0,
    }
}

/// A copy of `v`.
fn copy_regs(v: &Vec<u8>) -> (r: Vec<u8>)
    ensures
        r@ == v@,
{
    let mut r: Vec<u8> = Vec::new();
    let mut i: usize = 0;
    while i < v.len()
        invariant
            i <= v.len(),
            r@ == v@.subrange(0, i as int),
        decreases v.len() - i,
    {
        r.push(v[i]);
        i = i + 1;
        assert(r@ =~= v@.subrange(0, i as int));
    }
    assert(r@ =~= v@);
    r
}

impl StorageManager {
    /// Forgets every value and starts a new frame, with all default registers free.
    pub fn reset(&mut self)
        ensures
            final(self).wf(),
            final(self).cc == old(self).cc,
            final(self).symbol_storage_map@.is_empty(),
            final(self).join_param_map@.is_empty(),
            final(self).allocations@.len() == 0,
            final(self).general_free_regs@ == old(self).cc.general_default_free_regs@,
            final(self).float_free_regs@ == old(self).cc.float_default_free_regs@,
            final(self).general_used_regs@.len() == 0,
            final(self).float_used_regs@.len() == 0,
            final(self).general_used_callee_saved_regs@.len() == 0,
            final(self).float_used_callee_saved_regs@.len() == 0,
            final(self).frame.free_stack_chunks@.len() == 0,
            final(self).frame.stack_size == 0,
            final(self).fn_call_stack_size == 0,
    {
        self.symbol_storage_map.clear();
        self.allocations = Vec::new();
        self.join_param_map.clear();
        self.general_used_callee_saved_regs = Vec::new();
        self.general_used_regs = Vec::new();
        self.general_free_regs = copy_regs(&self.cc.general_default_free_regs);
        self.float_used_callee_saved_regs = Vec::new();
        self.float_used_regs = Vec::new();
        self.float_free_regs = copy_regs(&self.cc.float_default_free_regs);
        self.frame = StackArena::new();
        self.fn_call_stack_size = 0;
    }

    pub fn stack_size(&self) -> (r: u32)
        ensures
            r == self.frame.stack_size,
    {
        self.frame.stack_size
    }

    pub fn fn_call_stack_size(&self) -> (r: u32)
        ensures
            r == self.fn_call_stack_size,
    {
        self.fn_call_stack_size
    }

    /// The free chunks of the frame, sorted by offset.
    pub fn free_stack_chunks(&self) -> (r: Vec<(i32, u32)>)
        ensures
            r@ == self.frame.free_stack_chunks@,
    {
        let v = &self.frame.free_stack_chunks;
        let mut r: Vec<(i32, u32)> = Vec::new();
        let mut i: usize = 0;
        while i < v.len()
            invariant
                i <= v.len(),
                r@ == v@.subrange(0, i as int),
            decreases v.len() - i,
        {
            r.push(v[i]);
            i = i + 1;
            assert(r@ =~= v@.subrange(0, i as int));
        }
        assert(r@ =~= v@);
        r
    }

    pub fn general_used_callee_saved_regs(&self) -> (r: Vec<u8>)
        ensures
            r@ == self.general_used_callee_saved_regs@,
    {
        copy_regs(&self.general_used_callee_saved_regs)
    }

    pub fn float_used_callee_saved_regs(&self) -> (r: Vec<u8>)
        ensures
            r@ == self.float_used_callee_saved_regs@,
    {
        copy_regs(&self.float_used_callee_saved_regs)
    }

    /// The storage of `sym`, which must be known.
    pub fn get_storage_for_sym(&self, sym: Symbol) -> (r: Storage)
        requires
            self.has_storage(sym),
        ensures
            r == self.storage_of(sym),
    {
        *self.symbol_storage_map.get(&sym).unwrap()
    }

    /// Whether `sym` holds a value of one register or less.
    pub fn is_stored_primitive(&self, sym: Symbol) -> (r: bool)
        requires
            self.has_storage(sym),
        ensures
            r == match self.storage_of(sym) {
                Storage::Reg(_) => true,
                Storage::Stack(StackStorage::Primitive { .. }) => true,
                Storage::Stack(StackStorage::ReferencedPrimitive { .. }) => true,
                _ => false,
            },
    {
        match self.get_storage_for_sym(sym) {
            Storage::Reg(_) => true,
            Storage::Stack(StackStorage::Primitive { .. }) => true,
            Storage::Stack(StackStorage::ReferencedPrimitive { .. }) => true,
            _ => false,
        }
    }

    /// Moves the value of `sym` out of register `wanted` into its stack slot,
    /// taking a fresh eight-byte slot if it has none. The used-register tables
    /// must no longer name `sym`.
    #[verifier::rlimit(40)]
    fn free_to_stack(&mut self, buf: &mut Vec<Inst>, sym: Symbol, wanted: RegStorage)
        requires
            old(self).wf(),
            old(self).room(8),
            old(self).has_storage(sym),
            held_reg(old(self).storage_of(sym)) == Some(wanted),
            forall|i: int| 0 <= i < old(self).general_used_regs@.len() ==> (#[trigger] old(self).general_used_regs@[i]).1 != sym,
            forall|i: int| 0 <= i < old(self).float_used_regs@.len() ==> (#[trigger] old(self).float_used_regs@[i]).1 != sym,
        ensures
            final(self).wf(),
            final(self).frame.stack_size <= old(self).frame.stack_size + 8,
            exists|slot: i32|
                {
                    &&& final(self).symbol_storage_map@ == old(self).symbol_storage_map@.insert(
                        sym,
                        after_spill(old(self).storage_of(sym), slot),
                    )
                    &&& final(self).storage_of(sym) == spilled(slot)
                    &&& match old(self).storage_of(sym) {
                        Storage::Reg(_) => final(buf)@ == old(buf)@.push(spill_store(wanted, slot)),
                        _ => final(buf)@ == old(buf)@,
                    }
                },
            final(self).cc == old(self).cc,
            final(self).join_param_map@ == old(self).join_param_map@,
            final(self).general_free_regs@ == old(self).general_free_regs@,
            final(self).float_free_regs@ == old(self).float_free_regs@,
            final(self).general_used_regs@ == old(self).general_used_regs@,
            final(self).float_used_regs@ == old(self).float_used_regs@,
            final(self).general_used_callee_saved_regs@ == old(self).general_used_callee_saved_regs@,
            final(self).float_used_callee_saved_regs@ == old(self).float_used_callee_saved_regs@,
            final(self).fn_call_stack_size == old(self).fn_call_stack_size,
    {
        let storage = self.get_storage_for_sym(sym);
        match storage {
            Storage::Stack(StackStorage::Primitive { base_offset, reg: _ }) => {
                let new_storage = Storage::Stack(StackStorage::Primitive { base_offset, reg: None });
                self.symbol_storage_map.insert(sym, new_storage);
                proof {
                    assert(after_spill(storage, base_offset) == new_storage);
                    self.lemma_retarget_keeps_wf(*old(self), sym);
                }
            },
            _ => {
                let ghost s = self.frame.free_stack_chunks@;
                let ghost size = self.frame.stack_size as int;
                proof {
                    assert(round8(8) == 8);
                }
                let base_offset = self.frame.claim_stack_size(8);
                match wanted {
                    RegStorage::General(g) => buf.push(Inst::MovBase32Reg64 { offset: base_offset, src: g }),
                    RegStorage::Float(f) => buf.push(Inst::MovBase32Freg64 { offset: base_offset, src: f }),
                }
                let new_storage = Storage::Stack(StackStorage::Primitive { base_offset, reg: None });
                self.symbol_storage_map.insert(sym, new_storage);
                let ghost a0 = self.allocations@;
                self.allocations.push((sym, base_offset, 8));
                proof {
                    assert(after_spill(storage, base_offset) == new_storage);
                    let a = self.allocations@;
                    let s2 = self.frame.free_stack_chunks@;
                    let size2 = self.frame.stack_size as int;
                    assert forall|i: int| 0 <= i < a0.len() implies can_free(s2, size2, (#[trigger] a[i]).1 as int, a[i].2 as int)
                        && regions_apart(base_offset as int, 8, a[i].1 as int, a[i].2 as int) by {
                        assert(a[i] == a0[i]);
                        assert(can_free(s, size, a0[i].1 as int, a0[i].2 as int));
                        lemma_claim_keeps_apart(s, size, s2, size2, base_offset as int, 8, a0[i].1 as int, a0[i].2 as int);
                    }
                    assert forall|i: int| 0 <= i < a0.len() implies (#[trigger] a[i]).0 != sym by {
                        assert(a[i] == a0[i]);
                        assert(is_stack(old(self).storage_of(a0[i].0)));
                    }
                    assert(self.allocations_wf());
                    assert(self.used_wf());
                    assert(self.backing_wf()) by {
                        assert forall|k: Symbol| #[trigger] self.symbol_storage_map@.contains_key(k) && needs_backing(
                            self.symbol_storage_map@[k]) implies backed(self.allocations@, k) by {
                            assert(k != sym);
                            let i = choose|i: int| 0 <= i < a0.len() && (#[trigger] a0[i]).0 == k;
                            assert(a[i] == a0[i]);
                        }
                    }
                    lemma_claim_push_covered(s, size, a0, 8, base_offset as int, s2, size2, a, sym);
                }
            },
        }
    }

    /// Changing the storage of `sym` to a spill slot it already had keeps the
    /// manager well formed.
    proof fn lemma_retarget_keeps_wf(&self, prev: StorageManager, sym: Symbol)
        requires
            prev.wf(),
            prev.has_storage(sym),
            self.symbol_storage_map@ == prev.symbol_storage_map@.insert(sym, spilled(match prev.storage_of(sym) {
                Storage::Stack(StackStorage::Primitive { base_offset, .. }) => base_offset,
                _ => 0,
            })),
            is_stack(prev.storage_of(sym)),
            self.frame == prev.frame,
            self.allocations@ == prev.allocations@,
            self.general_used_regs@ == prev.general_used_regs@,
            self.float_used_regs@ == prev.float_used_regs@,
            forall|i: int| 0 <= i < prev.general_used_regs@.len() ==> (#[trigger] prev.general_used_regs@[i]).1 != sym,
            forall|i: int| 0 <= i < prev.float_used_regs@.len() ==> (#[trigger] prev.float_used_regs@[i]).1 != sym,
        ensures
            self.wf(),
    {
        assert(self.backing_wf()) by {
            assert forall|k: Symbol| #[trigger] self.symbol_storage_map@.contains_key(k) && needs_backing(
                self.symbol_storage_map@[k]) implies backed(self.allocations@, k) by {
                assert(k != sym);
            }
        }
    }
}

/// Storage `b` is storage `a`, or what `a` became when its register was taken.
pub open spec fn same_or_spilled(a: Storage, b: Storage) -> bool {
    b == a || spilled_from(a, b)
}

/// Storage `b` is what a value of storage `a` became when its register was
/// taken from it: its spill slot.
pub open spec fn spilled_from(a: Storage, b: Storage) -> bool {
    held_reg(a) is Some && match b {
        Storage::Stack(StackStorage::Primitive { reg: None, .. }) => true,
        _ => false,
    }
}

/// Every value of `m0` but `except` is stored in `m1` as before, or was
/// spilled; no value came or went.
pub open spec fn kept_or_spilled(m0: StorageManager, m1: StorageManager, except: Option<Symbol>) -> bool {
    &&& m1.symbol_storage_map@.dom() == m0.symbol_storage_map@.dom()
    &&& forall|k: Symbol|
        Some(k) != except && #[trigger] m0.symbol_storage_map@.contains_key(k) ==> m1.storage_of(k)
            == m0.storage_of(k) || spilled_from(m0.storage_of(k), m1.storage_of(k))
}

/// `x` is a general register that the manager hands out: free, or used.
pub open spec fn in_general_pool(m: StorageManager, x: u8) -> bool {
    m.general_free_regs@.contains(x) || exists|i: int|
        0 <= i < m.general_used_regs@.len() && (#[trigger] m.general_used_regs@[i]).0 == x
}

pub open spec fn in_float_pool(m: StorageManager, x: u8) -> bool {
    m.float_free_regs@.contains(x) || exists|i: int|
        0 <= i < m.float_used_regs@.len() && (#[trigger] m.float_used_regs@[i]).0 == x
}

/// The result of a register acquisition from the general pool of `m0`, which
/// left `m1` and emitted what takes `buf0` to `buf1`: the top of the free
/// list, or else the register of the oldest used entry, whose value moved to
/// the stack.
pub open spec fn general_acquired(m0: StorageManager, buf0: Seq<Inst>, r: u8, m1: StorageManager, buf1: Seq<Inst>) -> bool {
    if m0.general_free_regs@.len() > 0 {
        &&& r == m0.general_free_regs@.last()
        &&& m1.general_free_regs@ == m0.general_free_regs@.drop_last()
        &&& m1.general_used_regs@ == m0.general_used_regs@
        &&& m1.symbol_storage_map@ == m0.symbol_storage_map@
        &&& buf1 == buf0
        &&& m1.general_used_callee_saved_regs@ == if m0.cc.general_callee_saved_spec(r)
            && !m0.general_used_callee_saved_regs@.contains(r) {
            m0.general_used_callee_saved_regs@.push(r)
        } else {
            m0.general_used_callee_saved_regs@
        }
    } else {
        let victim = m0.general_used_regs@[0].1;
        &&& r == m0.general_used_regs@[0].0
        &&& m1.general_free_regs@ == m0.general_free_regs@
        &&& m1.general_used_regs@ == m0.general_used_regs@.subrange(1, m0.general_used_regs@.len() as int)
        &&& m1.general_used_callee_saved_regs@ == m0.general_used_callee_saved_regs@
        &&& exists|slot: i32| {
            &&& m1.symbol_storage_map@ == m0.symbol_storage_map@.insert(victim, after_spill(m0.storage_of(victim), slot))
            &&& m1.storage_of(victim) == spilled(slot)
            &&& match m0.storage_of(victim) {
                Storage::Reg(_) => buf1 == buf0.push(spill_store(RegStorage::General(r), slot)),
                _ => buf1 == buf0,
            }
        }
    }
}

/// The float counterpart of `general_acquired`.
pub open spec fn float_acquired(m0: StorageManager, buf0: Seq<Inst>, r: u8, m1: StorageManager, buf1: Seq<Inst>) -> bool {
    if m0.float_free_regs@.len() > 0 {
        &&& r == m0.float_free_regs@.last()
        &&& m1.float_free_regs@ == m0.float_free_regs@.drop_last()
        &&& m1.float_used_regs@ == m0.float_used_regs@
        &&& m1.symbol_storage_map@ == m0.symbol_storage_map@
        &&& buf1 == buf0
        &&& m1.float_used_callee_saved_regs@ == if m0.cc.float_callee_saved_spec(r)
            && !m0.float_used_callee_saved_regs@.contains(r) {
            m0.float_used_callee_saved_regs@.push(r)
        } else {
            m0.float_used_callee_saved_regs@
        }
    } else {
        let victim = m0.float_used_regs@[0].1;
        &&& r == m0.float_used_regs@[0].0
        &&& m1.float_free_regs@ == m0.float_free_regs@
        &&& m1.float_used_regs@ == m0.float_used_regs@.subrange(1, m0.float_used_regs@.len() as int)
        &&& m1.float_used_callee_saved_regs@ == m0.float_used_callee_saved_regs@
        &&& exists|slot: i32| {
            &&& m1.symbol_storage_map@ == m0.symbol_storage_map@.insert(victim, after_spill(m0.storage_of(victim), slot))
            &&& m1.storage_of(victim) == spilled(slot)
            &&& match m0.storage_of(victim) {
                Storage::Reg(_) => buf1 == buf0.push(spill_store(RegStorage::Float(r), slot)),
                _ => buf1 == buf0,
            }
        }
    }
}

/// The parts of the manager that an operation on the general pool leaves alone.
pub open spec fn float_side_kept(m0: StorageManager, m1: StorageManager) -> bool {
    &&& m1.cc == m0.cc
    &&& m1.join_param_map@ == m0.join_param_map@
    &&& m1.float_free_regs@ == m0.float_free_regs@
    &&& m1.float_used_regs@ == m0.float_used_regs@
    &&& m1.float_used_callee_saved_regs@ == m0.float_used_callee_saved_regs@
    &&& m1.fn_call_stack_size == m0.fn_call_stack_size
}

/// The parts of the manager that an operation on the float pool leaves alone.
pub open spec fn general_side_kept(m0: StorageManager, m1: StorageManager) -> bool {
    &&& m1.cc == m0.cc
    &&& m1.join_param_map@ == m0.join_param_map@
    &&& m1.general_free_regs@ == m0.general_free_regs@
    &&& m1.general_used_regs@ == m0.general_used_regs@
    &&& m1.general_used_callee_saved_regs@ == m0.general_used_callee_saved_regs@
    &&& m1.fn_call_stack_size == m0.fn_call_stack_size
}

/// Acquiring a register and recording it as used keeps every register of the pool.
proof fn lemma_general_pool_kept(
    m0: StorageManager,
    b0: Seq<Inst>,
    r: u8,
    m1: StorageManager,
    b1: Seq<Inst>,
    m2: StorageManager,
    sym: Symbol,
)
    requires
        general_acquired(m0, b0, r, m1, b1),
        m2.general_used_regs@ == m1.general_used_regs@.push((r, sym)),
        m2.general_free_regs@ == m1.general_free_regs@,
    ensures
        forall|x: u8| in_general_pool(m0, x) ==> in_general_pool(m2, x),
{
    let u0 = m0.general_used_regs@;
    let u2 = m2.general_used_regs@;
    let f0 = m0.general_free_regs@;
    assert(u2[u2.len() - 1] == (r, sym));
    assert forall|x: u8| in_general_pool(m0, x) implies in_general_pool(m2, x) by {
        if f0.contains(x) {
            let i = choose|i: int| 0 <= i < f0.len() && f0[i] == x;
            if f0.len() > 0 && i < f0.len() - 1 {
                assert(m2.general_free_regs@[i] == x);
            }
        } else {
            let i = choose|i: int| 0 <= i < u0.len() && (#[trigger] u0[i]).0 == x;
            if f0.len() > 0 {
                assert(u2[i] == u0[i]);
            } else if i > 0 {
                assert(u2[i - 1] == u0[i]);
            }
        }
    }
}

/// Acquiring a register and recording it as used keeps every register of the pool.
proof fn lemma_float_pool_kept(
    m0: StorageManager,
    b0: Seq<Inst>,
    r: u8,
    m1: StorageManager,
    b1: Seq<Inst>,
    m2: StorageManager,
    sym: Symbol,
)
    requires
        float_acquired(m0, b0, r, m1, b1),
        m2.float_used_regs@ == m1.float_used_regs@.push((r, sym)),
        m2.float_free_regs@ == m1.float_free_regs@,
    ensures
        forall|x: u8| in_float_pool(m0, x) ==> in_float_pool(m2, x),
{
    let u0 = m0.float_used_regs@;
    let u2 = m2.float_used_regs@;
    let f0 = m0.float_free_regs@;
    assert(u2[u2.len() - 1] == (r, sym));
    assert forall|x: u8| in_float_pool(m0, x) implies in_float_pool(m2, x) by {
        if f0.contains(x) {
            let i = choose|i: int| 0 <= i < f0.len() && f0[i] == x;
            if f0.len() > 0 && i < f0.len() - 1 {
                assert(m2.float_free_regs@[i] == x);
            }
        } else {
            let i = choose|i: int| 0 <= i < u0.len() && (#[trigger] u0[i]).0 == x;
            if f0.len() > 0 {
                assert(u2[i] == u0[i]);
            } else if i > 0 {
                assert(u2[i - 1] == u0[i]);
            }
        }
    }
}

impl StorageManager {
    /// A general register is to be had: one is free or one can be taken.
    pub open spec fn general_reg_available(&self) -> bool {
        self.general_free_regs@.len() > 0 || self.general_used_regs@.len() > 0
    }

    pub open spec fn float_reg_available(&self) -> bool {
        self.float_free_regs@.len() > 0 || self.float_used_regs@.len() > 0
    }

    /// Gets a general register from the free list, or else takes the register
    /// of the oldest used entry and moves its value to the stack.
    #[verifier::rlimit(40)]
    fn get_general_reg(&mut self, buf: &mut Vec<Inst>) -> (r: u8)
        requires
            old(self).wf(),
            old(self).room(8),
            old(self).general_reg_available(),
        ensures
            final(self).wf(),
            final(self).frame.stack_size <= old(self).frame.stack_size + 8,
            general_acquired(*old(self), old(buf)@, r, *final(self), final(buf)@),
            float_side_kept(*old(self), *final(self)),
            kept_or_spilled(*old(self), *final(self), None),
            old(buf)@.is_prefix_of(final(buf)@),
    {
        if self.general_free_regs.len() > 0 {
            let reg = self.general_free_regs.pop().unwrap();
            if self.cc.general_callee_saved(reg) && !contains_reg(&self.general_used_callee_saved_regs, reg) {
                self.general_used_callee_saved_regs.push(reg);
            }
            assert(self.symbol_storage_map@.dom() =~= old(self).symbol_storage_map@.dom());
            reg
        } else {
            let (reg, sym) = self.general_used_regs.remove(0);
            proof {
                let g = old(self).general_used_regs@;
                assert(g[0] == (reg, sym));
                assert forall|i: int| 0 <= i < self.general_used_regs@.len() implies (#[trigger] self.general_used_regs@[i]).1 != sym by {
                    assert(self.general_used_regs@[i] == g[i + 1]);
                }
                assert forall|i: int| 0 <= i < self.float_used_regs@.len() implies (#[trigger] self.float_used_regs@[i]).1 != sym by {
                    assert(held_reg(self.storage_of(self.float_used_regs@[i].1)) == Some(RegStorage::Float(self.float_used_regs@[i].0)));
                }
                assert(self.used_wf()) by {
                    let g2 = self.general_used_regs@;
                    assert forall|i: int| 0 <= i < g2.len() implies self.has_storage((#[trigger] g2[i]).1) && held_reg(
                        self.storage_of(g2[i].1)) == Some(RegStorage::General(g2[i].0)) by {
                        assert(g2[i] == g[i + 1]);
                    }
                    assert forall|i: int, j: int| 0 <= i < j < g2.len() implies (#[trigger] g2[i]).1 != (#[trigger] g2[j]).1 by {
                        assert(g2[i] == g[i + 1] && g2[j] == g[j + 1]);
                    }
                }
            }
            self.free_to_stack(buf, sym, RegStorage::General(reg));
            proof {
                assert(self.general_used_regs@ =~= old(self).general_used_regs@.subrange(1, old(self).general_used_regs@.len() as int));
                assert(self.symbol_storage_map@.dom() =~= old(self).symbol_storage_map@.dom());
            }
            reg
        }
    }

    /// Gets a float register from the free list, or else takes the register
    /// of the oldest used entry and moves its value to the stack.
    #[verifier::rlimit(40)]
    fn get_float_reg(&mut self, buf: &mut Vec<Inst>) -> (r: u8)
        requires
            old(self).wf(),
            old(self).room(8),
            old(self).float_reg_available(),
        ensures
            final(self).wf(),
            final(self).frame.stack_size <= old(self).frame.stack_size + 8,
            float_acquired(*old(self), old(buf)@, r, *final(self), final(buf)@),
            general_side_kept(*old(self), *final(self)),
            kept_or_spilled(*old(self), *final(self), None),
            old(buf)@.is_prefix_of(final(buf)@),
    {
        if self.float_free_regs.len() > 0 {
            let reg = self.float_free_regs.pop().unwrap();
            if self.cc.float_callee_saved(reg) && !contains_reg(&self.float_used_callee_saved_regs, reg) {
                self.float_used_callee_saved_regs.push(reg);
            }
            assert(self.symbol_storage_map@.dom() =~= old(self).symbol_storage_map@.dom());
            reg
        } else {
            let (reg, sym) = self.float_used_regs.remove(0);
            proof {
                let f = old(self).float_used_regs@;
                assert(f[0] == (reg, sym));
                assert forall|i: int| 0 <= i < self.float_used_regs@.len() implies (#[trigger] self.float_used_regs@[i]).1 != sym by {
                    assert(self.float_used_regs@[i] == f[i + 1]);
                }
                assert forall|i: int| 0 <= i < self.general_used_regs@.len() implies (#[trigger] self.general_used_regs@[i]).1 != sym by {
                    assert(held_reg(self.storage_of(self.general_used_regs@[i].1)) == Some(RegStorage::General(self.general_used_regs@[i].0)));
                }
                assert(self.used_wf()) by {
                    let f2 = self.float_used_regs@;
                    assert forall|i: int| 0 <= i < f2.len() implies self.has_storage((#[trigger] f2[i]).1) && held_reg(
                        self.storage_of(f2[i].1)) == Some(RegStorage::Float(f2[i].0)) by {
                        assert(f2[i] == f[i + 1]);
                    }
                    assert forall|i: int, j: int| 0 <= i < j < f2.len() implies (#[trigger] f2[i]).1 != (#[trigger] f2[j]).1 by {
                        assert(f2[i] == f[i + 1] && f2[j] == f[j + 1]);
                    }
                }
            }
            self.free_to_stack(buf, sym, RegStorage::Float(reg));
            proof {
                assert(self.float_used_regs@ =~= old(self).float_used_regs@.subrange(1, old(self).float_used_regs@.len() as int));
                assert(self.symbol_storage_map@.dom() =~= old(self).symbol_storage_map@.dom());
            }
            reg
        }
    }
}

impl StorageManager {
    /// Claims a general register for `sym`, which has no storage yet.
    pub fn claim_general_reg(&mut self, buf: &mut Vec<Inst>, sym: Symbol) -> (r: u8)
        requires
            old(self).wf(),
            old(self).room(8),
            old(self).general_reg_available(),
            !old(self).has_storage(sym),
        ensures
            final(self).wf(),
            final(self).frame.stack_size <= old(self).frame.stack_size + 8,
            final(self).storage_of(sym) == Storage::Reg(RegStorage::General(r)),
            exists|m1: StorageManager, b1: Seq<Inst>|
                {
                    &&& general_acquired(*old(self), old(buf)@, r, m1, b1)
                    &&& final(self).symbol_storage_map@ == m1.symbol_storage_map@.insert(
                        sym,
                        Storage::Reg(RegStorage::General(r)),
                    )
                    &&& final(self).general_used_regs@ == m1.general_used_regs@.push((r, sym))
                    &&& final(self).general_free_regs@ == m1.general_free_regs@
                    &&& final(self).general_used_callee_saved_regs@
                        == m1.general_used_callee_saved_regs@
                    &&& final(buf)@ == b1
                },
            float_side_kept(*old(self), *final(self)),
            forall|k: Symbol|
                k != sym && #[trigger] old(self).has_storage(k) ==> final(self).has_storage(k) && same_or_spilled(
                    old(self).storage_of(k),
                    final(self).storage_of(k),
                ),
    {
        let reg = self.get_general_reg(buf);
        let ghost mid = *self;
        let ghost b1 = buf@;
        self.general_used_regs.push((reg, sym));
        self.symbol_storage_map.insert(sym, Storage::Reg(RegStorage::General(reg)));
        proof {
            self.lemma_fresh_reg_keeps_wf(mid, sym);
        }
        reg
    }

    /// Claims a float register for `sym`, which has no storage yet.
    pub fn claim_float_reg(&mut self, buf: &mut Vec<Inst>, sym: Symbol) -> (r: u8)
        requires
            old(self).wf(),
            old(self).room(8),
            old(self).float_reg_available(),
            !old(self).has_storage(sym),
        ensures
            final(self).wf(),
            final(self).frame.stack_size <= old(self).frame.stack_size + 8,
            final(self).storage_of(sym) == Storage::Reg(RegStorage::Float(r)),
            exists|m1: StorageManager, b1: Seq<Inst>|
                {
                    &&& float_acquired(*old(self), old(buf)@, r, m1, b1)
                    &&& final(self).symbol_storage_map@ == m1.symbol_storage_map@.insert(
                        sym,
                        Storage::Reg(RegStorage::Float(r)),
                    )
                    &&& final(self).float_used_regs@ == m1.float_used_regs@.push((r, sym))
                    &&& final(self).float_free_regs@ == m1.float_free_regs@
                    &&& final(self).float_used_callee_saved_regs@ == m1.float_used_callee_saved_regs@
                    &&& final(buf)@ == b1
                },
            general_side_kept(*old(self), *final(self)),
            forall|k: Symbol|
                k != sym && #[trigger] old(self).has_storage(k) ==> final(self).has_storage(k) && same_or_spilled(
                    old(self).storage_of(k),
                    final(self).storage_of(k),
                ),
    {
        let reg = self.get_float_reg(buf);
        let ghost mid = *self;
        let ghost b1 = buf@;
        self.float_used_regs.push((reg, sym));
        self.symbol_storage_map.insert(sym, Storage::Reg(RegStorage::Float(reg)));
        proof {
            self.lemma_fresh_reg_keeps_wf(mid, sym);
        }
        reg
    }

    /// Giving a value without storage a register of its own, with an entry in
    /// the matching used table, keeps the manager well formed.
    proof fn lemma_fresh_reg_keeps_wf(&self, prev: StorageManager, sym: Symbol)
        requires
            prev.wf(),
            !prev.has_storage(sym),
            self.frame == prev.frame,
            self.allocations@ == prev.allocations@,
            ({
                let st = self.storage_of(sym);
                &&& self.symbol_storage_map@ == prev.symbol_storage_map@.insert(sym, st)
                &&& match st {
                    Storage::Reg(RegStorage::General(r)) => self.general_used_regs@
                        == prev.general_used_regs@.push((r, sym)) && self.float_used_regs@
                        == prev.float_used_regs@,
                    Storage::Reg(RegStorage::Float(r)) => self.float_used_regs@
                        == prev.float_used_regs@.push((r, sym)) && self.general_used_regs@
                        == prev.general_used_regs@,
                    _ => false,
                }
            }),
        ensures
            self.wf(),
    {
        let g = self.general_used_regs@;
        let f = self.float_used_regs@;
        assert forall|i: int| 0 <= i < prev.general_used_regs@.len() implies (#[trigger] prev.general_used_regs@[i]).1 != sym by {
            assert(prev.has_storage(prev.general_used_regs@[i].1));
        }
        assert forall|i: int| 0 <= i < prev.float_used_regs@.len() implies (#[trigger] prev.float_used_regs@[i]).1 != sym by {
            assert(prev.has_storage(prev.float_used_regs@[i].1));
        }
        assert forall|i: int| 0 <= i < prev.allocations@.len() implies (#[trigger] prev.allocations@[i]).0 != sym by {
            assert(prev.has_storage(prev.allocations@[i].0));
        }
        assert(self.used_wf()) by {
            assert forall|i: int| 0 <= i < g.len() implies self.has_storage((#[trigger] g[i]).1) && held_reg(
                self.storage_of(g[i].1)) == Some(RegStorage::General(g[i].0)) by {
                if i < prev.general_used_regs@.len() {
                    assert(g[i] == prev.general_used_regs@[i]);
                }
            }
            assert forall|i: int| 0 <= i < f.len() implies self.has_storage((#[trigger] f[i]).1) && held_reg(
                self.storage_of(f[i].1)) == Some(RegStorage::Float(f[i].0)) by {
                if i < prev.float_used_regs@.len() {
                    assert(f[i] == prev.float_used_regs@[i]);
                }
            }
            assert forall|i: int, j: int| 0 <= i < j < g.len() implies (#[trigger] g[i]).1 != (#[trigger] g[j]).1 by {
                if j < prev.general_used_regs@.len() {
                    assert(g[i] == prev.general_used_regs@[i] && g[j] == prev.general_used_regs@[j]);
                } else if i < prev.general_used_regs@.len() {
                    assert(g[i] == prev.general_used_regs@[i]);
                }
            }
            assert forall|i: int, j: int| 0 <= i < j < f.len() implies (#[trigger] f[i]).1 != (#[trigger] f[j]).1 by {
                if j < prev.float_used_regs@.len() {
                    assert(f[i] == prev.float_used_regs@[i] && f[j] == prev.float_used_regs@[j]);
                } else if i < prev.float_used_regs@.len() {
                    assert(f[i] == prev.float_used_regs@[i]);
                }
            }
        }
        assert(self.backing_wf()) by {
            assert forall|k: Symbol| #[trigger] self.symbol_storage_map@.contains_key(k) && needs_backing(
                self.symbol_storage_map@[k]) implies backed(self.allocations@, k) by {
                assert(k != sym);
            }
        }
    }

    /// Position of the allocation share of `sym`.
    fn find_allocation(&self, sym: Symbol) -> (r: Option<usize>)
        ensures
            match r {
                Some(i) => i < self.allocations@.len() && self.allocations@[i as int].0 == sym,
                None => !backed(self.allocations@, sym),
            },
    {
        let mut i: usize = 0;
        while i < self.allocations.len()
            invariant
                i <= self.allocations@.len(),
                forall|j: int| 0 <= j < i ==> (#[trigger] self.allocations@[j]).0 != sym,
            decreases self.allocations@.len() - i,
        {
            if self.allocations[i].0 == sym {
                return Some(i);
            }
            i = i + 1;
        }
        None
    }

    /// Drops the share of `sym` in its stack area, and returns the area to the
    /// free list when no other value holds a share of it.
    #[verifier::rlimit(40)]
    fn free_reference(&mut self, sym: Symbol)
        requires
            old(self).frame.wf(),
            old(self).allocations_wf(),
            old(self).used_wf(),
            old(self).frame_covered(),
            backed(old(self).allocations@, sym),
        ensures
            final(self).frame.wf(),
            final(self).allocations_wf(),
            final(self).used_wf(),
            final(self).frame_covered(),
            !backed(final(self).allocations@, sym),
            forall|k: Symbol| k != sym ==> backed(final(self).allocations@, k) == backed(old(self).allocations@, k),
            share_dropped(
                old(self).allocations@,
                old(self).frame.free_stack_chunks@,
                sym,
                final(self).allocations@,
                final(self).frame.free_stack_chunks@,
            ),
            final(self).symbol_storage_map@ == old(self).symbol_storage_map@,
            final(self).frame.stack_size == old(self).frame.stack_size,
            float_side_kept(*old(self), *final(self)),
            general_side_kept(*old(self), *final(self)),
    {
        let i = self.find_allocation(sym).unwrap();
        let ghost a0 = self.allocations@;
        let (_, base_offset, size) = self.allocations.remove(i);
        let ghost a1 = self.allocations@;
        let ghost s_before = self.frame.free_stack_chunks@;
        proof {
            assert forall|j: int| 0 <= j < a1.len() implies (#[trigger] a1[j]).0 != sym by {
                if j < i {
                    assert(a1[j] == a0[j]);
                } else {
                    assert(a1[j] == a0[j + 1]);
                }
            }
            assert forall|k: Symbol| k != sym implies backed(a1, k) == backed(a0, k) by {
                if backed(a0, k) {
                    let j = choose|j: int| 0 <= j < a0.len() && (#[trigger] a0[j]).0 == k;
                    if j < i {
                        assert(a1[j] == a0[j]);
                    } else {
                        assert(j != i);
                        assert(a1[j - 1] == a0[j]);
                    }
                }
                if backed(a1, k) {
                    let j = choose|j: int| 0 <= j < a1.len() && (#[trigger] a1[j]).0 == k;
                    if j < i {
                        assert(a1[j] == a0[j]);
                    } else {
                        assert(a1[j] == a0[j + 1]);
                    }
                }
            }
            assert(self.allocations_wf()) by {
                assert forall|j: int| 0 <= j < a1.len() implies {
                    &&& can_free(self.frame.free_stack_chunks@, self.frame.stack_size as int, (#[trigger] a1[j]).1 as int, a1[j].2 as int)
                    &&& self.has_storage(a1[j].0)
                    &&& is_stack(self.storage_of(a1[j].0))
                } by {
                    if j < i {
                        assert(a1[j] == a0[j]);
                    } else {
                        assert(a1[j] == a0[j + 1]);
                    }
                }
                assert forall|j: int, k: int| 0 <= j < k < a1.len() implies {
                    &&& (#[trigger] a1[j]).0 != (#[trigger] a1[k]).0
                    &&& a1[j].1 == a1[k].1 ==> a1[j].2 == a1[k].2
                    &&& a1[j].1 != a1[k].1 ==> regions_apart(a1[j].1 as int, a1[j].2 as int, a1[k].1 as int, a1[k].2 as int)
                } by {
                    let jj = if j < i { j } else { j + 1 };
                    let kk = if k < i { k } else { k + 1 };
                    assert(a1[j] == a0[jj] && a1[k] == a0[kk]);
                }
            }
        }
        let mut shared = false;
        let mut j: usize = 0;
        while j < self.allocations.len()
            invariant
                self.allocations@ == a1,
                j <= a1.len(),
                !shared ==> forall|k: int| 0 <= k < j ==> (#[trigger] a1[k]).1 != base_offset,
                shared ==> exists|k: int| 0 <= k < a1.len() && (#[trigger] a1[k]).1 == base_offset,
            decreases a1.len() - j,
        {
            if self.allocations[j].1 == base_offset {
                shared = true;
                assert(a1[j as int].1 == base_offset);
            }
            j = j + 1;
        }
        proof {
            assert(a0[i as int] == (sym, base_offset, size));
            if shared {
                let k = choose|k: int| 0 <= k < a1.len() && (#[trigger] a1[k]).1 == base_offset;
                let kk = if k < i { k } else { k + 1 };
                assert(a1[k] == a0[kk]);
                if kk < i {
                    assert(a0[kk].2 == a0[i as int].2);
                } else {
                    assert(a0[i as int].2 == a0[kk].2);
                }
                assert forall|x: int| -(self.frame.stack_size as int) <= x < 0 implies #[trigger] in_some_chunk(self.frame.free_stack_chunks@, x) || in_some_alloc(a1, x) by {
                    assert(in_some_chunk(self.frame.free_stack_chunks@, x) || in_some_alloc(a0, x));
                    if !in_some_chunk(self.frame.free_stack_chunks@, x) {
                        let w = choose|w: int| 0 <= w < a0.len() && (#[trigger] a0[w]).1 <= x < a0[w].1 + a0[w].2;
                        if w < i {
                            assert(a1[w] == a0[w]);
                        } else if w > i {
                            assert(a1[w - 1] == a0[w]);
                        } else {
                            assert(a1[k].1 <= x < a1[k].1 + a1[k].2);
                        }
                    }
                }
            }
        }
        if !shared {
            let ghost s = self.frame.free_stack_chunks@;
            let ghost fsize = self.frame.stack_size as int;
            proof {
                assert(a0[i as int] == (sym, base_offset, size));
            }
            self.frame.free_stack_chunk(base_offset, size);
            proof {
                assert forall|x: int| -(self.frame.stack_size as int) <= x < 0 implies #[trigger] in_some_chunk(self.frame.free_stack_chunks@, x) || in_some_alloc(a1, x) by {
                    assert(in_some_chunk(s, x) || in_some_alloc(a0, x));
                    if in_some_chunk(s, x) {
                        lemma_freed_keeps_cover(s, fsize, base_offset as int, size as int, x);
                    } else {
                        let w = choose|w: int| 0 <= w < a0.len() && (#[trigger] a0[w]).1 <= x < a0[w].1 + a0[w].2;
                        if w < i {
                            assert(a1[w] == a0[w]);
                        } else if w > i {
                            assert(a1[w - 1] == a0[w]);
                        } else {
                            lemma_freed_keeps_cover(s, fsize, base_offset as int, size as int, x);
                        }
                    }
                }
                assert forall|k: int| 0 <= k < a1.len() implies can_free(self.frame.free_stack_chunks@, fsize, (#[trigger] a1[k]).1 as int, a1[k].2 as int) by {
                    let kk = if k < i { k } else { k + 1 };
                    assert(a1[k] == a0[kk]);
                    if kk < i {
                        assert(regions_apart(a0[kk].1 as int, a0[kk].2 as int, a0[i as int].1 as int, a0[i as int].2 as int));
                    } else {
                        assert(regions_apart(a0[i as int].1 as int, a0[i as int].2 as int, a0[kk].1 as int, a0[kk].2 as int));
                    }
                    lemma_free_keeps_apart(s, fsize, base_offset as int, size as int, a1[k].1 as int, a1[k].2 as int);
                }
                assert(self.allocations_wf());
            }
        }
        proof {
            assert(a1 =~= a0.remove(i as int));
            assert(a0[i as int].0 == sym);
            if shared {
                let k = choose|k: int| 0 <= k < a1.len() && (#[trigger] a1[k]).1 == base_offset;
                assert(exists|j: int| 0 <= j < a1.len() && (#[trigger] a1[j]).1 == a0[i as int].1);
            } else {
                assert(!exists|j: int| 0 <= j < a1.len() && (#[trigger] a1[j]).1 == a0[i as int].1);
            }
            assert(share_dropped(a0, s_before, sym, self.allocations@, self.frame.free_stack_chunks@));
        }
    }
}

/// The symbol under which the pointer for a returned value is passed.
pub const RET_POINTER: Symbol = 0xffff_ffff_ffff_fffe;

/// The registers other than `reg`.
pub open spec fn other_than(reg: u8) -> spec_fn(u8) -> bool {
    |r: u8| r != reg
}

/// `regs` without any `reg`.
pub open spec fn without_reg(regs: Seq<u8>, reg: u8) -> Seq<u8> {
    regs.filter(other_than(reg))
}

/// A copy of `regs` without any `reg`, in order.
fn retain_other_regs(regs: &Vec<u8>, reg: u8) -> (r: Vec<u8>)
    ensures
        r@ == without_reg(regs@, reg),
{
    let mut r: Vec<u8> = Vec::new();
    let mut i: usize = 0;
    while i < regs.len()
        invariant
            i <= regs.len(),
            r@ == without_reg(regs@.subrange(0, i as int), reg),
        decreases regs.len() - i,
    {
        proof {
            assert(regs@.subrange(0, i + 1) =~= regs@.subrange(0, i as int).push(regs@[i as int]));
            regs@.subrange(0, i as int).lemma_filter_push(regs@[i as int], other_than(reg));
        }
        if regs[i] != reg {
            r.push(regs[i]);
        }
        i = i + 1;
    }
    assert(regs@.subrange(0, regs@.len() as int) =~= regs@);
    r
}

/// The place in a used table of the entry for `sym`.
fn find_used(used: &Vec<(u8, Symbol)>, sym: Symbol) -> (r: Option<usize>)
    ensures
        match r {
            Some(i) => i < used@.len() && used@[i as int].1 == sym,
            None => forall|i: int| 0 <= i < used@.len() ==> (#[trigger] used@[i]).1 != sym,
        },
{
    let mut i: usize = 0;
    while i < used.len()
        invariant
            i <= used@.len(),
            forall|j: int| 0 <= j < i ==> (#[trigger] used@[j]).1 != sym,
        decreases used@.len() - i,
    {
        if used[i].1 == sym {
            return Some(i);
        }
        i = i + 1;
    }
    None
}

/// A used table after `sym` gave its register back: the entry goes, and the
/// register returns to the top of the free list.
pub open spec fn released(
    used0: Seq<(u8, Symbol)>,
    free0: Seq<u8>,
    sym: Symbol,
    used1: Seq<(u8, Symbol)>,
    free1: Seq<u8>,
) -> bool {
    if exists|i: int| 0 <= i < used0.len() && (#[trigger] used0[i]).1 == sym {
        exists|i: int|
            0 <= i < used0.len() && (#[trigger] used0[i]).1 == sym && used1 == used0.remove(i)
                && free1 == free0.push(used0[i].0)
    } else {
        used1 == used0 && free1 == free0
    }
}

impl StorageManager {
    /// Removes the entry of `sym`, if any, from a used table of a well-formed
    /// manager, keeping the other entries well formed.
    proof fn lemma_used_removed(used0: Seq<(u8, Symbol)>, i: int, used1: Seq<(u8, Symbol)>)
        requires
            0 <= i < used0.len(),
            used1 == used0.remove(i),
            forall|a: int, b: int| 0 <= a < b < used0.len() ==> (#[trigger] used0[a]).1 != (#[trigger] used0[b]).1,
        ensures
            forall|j: int| 0 <= j < used1.len() ==> (#[trigger] used1[j]).1 != used0[i].1,
            forall|a: int, b: int| 0 <= a < b < used1.len() ==> (#[trigger] used1[a]).1 != (#[trigger] used1[b]).1,
    {
        assert forall|j: int| 0 <= j < used1.len() implies (#[trigger] used1[j]).1 != used0[i].1 by {
            if j < i {
                assert(used1[j] == used0[j]);
            } else {
                assert(used1[j] == used0[j + 1]);
            }
        }
        assert forall|a: int, b: int| 0 <= a < b < used1.len() implies (#[trigger] used1[a]).1 != (#[trigger] used1[b]).1 by {
            let aa = if a < i { a } else { a + 1 };
            let bb = if b < i { b } else { b + 1 };
            assert(used1[a] == used0[aa] && used1[b] == used0[bb]);
        }
    }

    /// Forgets `sym`: a join point of that id, or else a value, whose register
    /// returns to the free list and whose share of a stack area goes (the area
    /// is freed with its last share).
    #[verifier::rlimit(40)]
    pub fn free_symbol(&mut self, sym: Symbol)
        requires
            old(self).wf(),
        ensures
            final(self).wf(),
            if old(self).join_param_map@.contains_key(sym) {
                &&& final(self).join_param_map@ == old(self).join_param_map@.remove(sym)
                &&& final(self).symbol_storage_map@ == old(self).symbol_storage_map@
                &&& final(self).allocations@ == old(self).allocations@
                &&& final(self).frame == old(self).frame
                &&& final(self).general_used_regs@ == old(self).general_used_regs@
                &&& final(self).general_free_regs@ == old(self).general_free_regs@
                &&& final(self).float_used_regs@ == old(self).float_used_regs@
                &&& final(self).float_free_regs@ == old(self).float_free_regs@
            } else {
                &&& final(self).join_param_map@ == old(self).join_param_map@
                &&& final(self).symbol_storage_map@ == old(self).symbol_storage_map@.remove(sym)
                &&& !backed(final(self).allocations@, sym)
                &&& final(self).frame.stack_size == old(self).frame.stack_size
                &&& if backed(old(self).allocations@, sym) {
                    share_dropped(
                        old(self).allocations@,
                        old(self).frame.free_stack_chunks@,
                        sym,
                        final(self).allocations@,
                        final(self).frame.free_stack_chunks@,
                    )
                } else {
                    final(self).allocations@ == old(self).allocations@ && final(self).frame == old(self).frame
                }
                &&& released(old(self).general_used_regs@, old(self).general_free_regs@, sym,
                    final(self).general_used_regs@, final(self).general_free_regs@)
                &&& released(old(self).float_used_regs@, old(self).float_free_regs@, sym,
                    final(self).float_used_regs@, final(self).float_free_regs@)
            },
            final(self).cc == old(self).cc,
            final(self).general_used_callee_saved_regs@ == old(self).general_used_callee_saved_regs@,
            final(self).float_used_callee_saved_regs@ == old(self).float_used_callee_saved_regs@,
            final(self).fn_call_stack_size == old(self).fn_call_stack_size,
    {
        if self.join_param_map.remove(&sym).is_some() {
            return;
        }
        assert(self.join_param_map@ == old(self).join_param_map@);
        match find_used(&self.general_used_regs, sym) {
            Some(i) => {
                let ghost g0 = self.general_used_regs@;
                let (reg, _) = self.general_used_regs.remove(i);
                self.general_free_regs.push(reg);
                proof {
                    Self::lemma_used_removed(g0, i as int, self.general_used_regs@);
                    let g = self.general_used_regs@;
                    assert forall|j: int| 0 <= j < g.len() implies self.has_storage((#[trigger] g[j]).1) && held_reg(
                        self.storage_of(g[j].1)) == Some(RegStorage::General(g[j].0)) by {
                        if j < i {
                            assert(g[j] == g0[j]);
                        } else {
                            assert(g[j] == g0[j + 1]);
                        }
                    }
                }
            },
            None => {},
        }
        match find_used(&self.float_used_regs, sym) {
            Some(i) => {
                let ghost f0 = self.float_used_regs@;
                let (reg, _) = self.float_used_regs.remove(i);
                self.float_free_regs.push(reg);
                proof {
                    Self::lemma_used_removed(f0, i as int, self.float_used_regs@);
                    let f = self.float_used_regs@;
                    assert forall|j: int| 0 <= j < f.len() implies self.has_storage((#[trigger] f[j]).1) && held_reg(
                        self.storage_of(f[j].1)) == Some(RegStorage::Float(f[j].0)) by {
                        if j < i {
                            assert(f[j] == f0[j]);
                        } else {
                            assert(f[j] == f0[j + 1]);
                        }
                    }
                }
            },
            None => {},
        }
        proof {
            assert(self.used_wf());
        }
        match self.find_allocation(sym) {
            Some(_) => {
                self.free_reference(sym);
            },
            None => {},
        }
        let ghost before_remove = *self;
        self.symbol_storage_map.remove(&sym);
        proof {
            let a = self.allocations@;
            assert forall|i: int| 0 <= i < a.len() implies (#[trigger] a[i]).0 != sym by {}
            let g = self.general_used_regs@;
            let f = self.float_used_regs@;
            assert forall|i: int| 0 <= i < g.len() implies (#[trigger] g[i]).1 != sym by {
                if exists|k: int| 0 <= k < old(self).general_used_regs@.len() && (#[trigger] old(self).general_used_regs@[k]).1 == sym {
                } else {
                    assert(g[i] == old(self).general_used_regs@[i]);
                }
            }
            assert forall|i: int| 0 <= i < f.len() implies (#[trigger] f[i]).1 != sym by {
                if exists|k: int| 0 <= k < old(self).float_used_regs@.len() && (#[trigger] old(self).float_used_regs@[k]).1 == sym {
                } else {
                    assert(f[i] == old(self).float_used_regs@[i]);
                }
            }
            assert(self.backing_wf()) by {
                assert forall|k: Symbol| #[trigger] self.symbol_storage_map@.contains_key(k) && needs_backing(
                    self.symbol_storage_map@[k]) implies backed(self.allocations@, k) by {
                    assert(k != sym);
                    assert(before_remove.symbol_storage_map@.contains_key(k));
                }
            }
        }
    }

    /// Stores `sym` in a new stack area of `size` bytes (rounded up to whole
    /// words) and returns its offset.
    #[verifier::rlimit(40)]
    pub fn claim_stack_area(&mut self, sym: Symbol, size: u32) -> (r: i32)
        requires
            old(self).wf(),
            !old(self).has_storage(sym),
            old(self).frame.can_claim(size as int),
        ensures
            final(self).wf(),
            claim_result(
                old(self).frame.free_stack_chunks@,
                old(self).frame.stack_size as int,
                size as int,
                r as int,
                final(self).frame.free_stack_chunks@,
                final(self).frame.stack_size as int,
            ),
            final(self).symbol_storage_map@ == old(self).symbol_storage_map@.insert(
                sym,
                Storage::Stack(StackStorage::Complex { base_offset: r, size }),
            ),
            final(self).allocations@ == old(self).allocations@.push((sym, r, round8(size as int) as u32)),
            forall|k: Symbol|
                k != sym && #[trigger] old(self).has_storage(k) ==> final(self).has_storage(k) && same_or_spilled(
                    old(self).storage_of(k),
                    final(self).storage_of(k),
                ),
            r % 8 == 0,
            r + round8(size as int) <= 0,
            -(final(self).frame.stack_size as int) <= r,
            float_side_kept(*old(self), *final(self)),
            general_side_kept(*old(self), *final(self)),
    {
        let ghost s = self.frame.free_stack_chunks@;
        let ghost fsize = self.frame.stack_size as int;
        let ghost a0 = self.allocations@;
        let base_offset = self.frame.claim_stack_size(size);
        let rounded: u32 = if size % 8 != 0 {
            size + 8 - (size % 8)
        } else {
            size
        };
        self.symbol_storage_map.insert(sym, Storage::Stack(StackStorage::Complex { base_offset, size }));
        self.allocations.push((sym, base_offset, rounded));
        proof {
            let a = self.allocations@;
            let s2 = self.frame.free_stack_chunks@;
            let size2 = self.frame.stack_size as int;
            assert(rounded as int == round8(size as int));
            assert forall|i: int| 0 <= i < a0.len() implies can_free(s2, size2, (#[trigger] a[i]).1 as int, a[i].2 as int)
                && regions_apart(base_offset as int, rounded as int, a[i].1 as int, a[i].2 as int) && a[i].0 != sym by {
                assert(a[i] == a0[i]);
                assert(old(self).has_storage(a0[i].0));
                lemma_claim_keeps_apart(s, fsize, s2, size2, base_offset as int, rounded as int, a0[i].1 as int, a0[i].2 as int);
            }
            assert(self.allocations_wf());
            lemma_claim_push_covered(s, fsize, a0, rounded as int, base_offset as int, s2, size2, a, sym);
            let g = self.general_used_regs@;
            let f = self.float_used_regs@;
            assert forall|i: int| 0 <= i < g.len() implies (#[trigger] g[i]).1 != sym by {
                assert(old(self).has_storage(g[i].1));
            }
            assert forall|i: int| 0 <= i < f.len() implies (#[trigger] f[i]).1 != sym by {
                assert(old(self).has_storage(f[i].1));
            }
            assert(self.used_wf());
            assert(self.backing_wf()) by {
                assert forall|k: Symbol| #[trigger] self.symbol_storage_map@.contains_key(k) && needs_backing(
                    self.symbol_storage_map@[k]) implies backed(self.allocations@, k) by {
                    if k == sym {
                        assert(a[a0.len() as int].0 == sym);
                    } else {
                        let i = choose|i: int| 0 <= i < a0.len() && (#[trigger] a0[i]).0 == k;
                        assert(a[i] == a0[i]);
                    }
                }
            }
        }
        base_offset
    }

    /// The offset and size of the stack data of `sym`.
    pub fn stack_offset_and_size(&self, sym: Symbol) -> (r: (i32, u32))
        requires
            self.has_storage(sym),
            is_stack(self.storage_of(sym)),
        ensures
            r == match self.storage_of(sym) {
                Storage::Stack(StackStorage::Primitive { base_offset, .. }) => (base_offset, 8u32),
                Storage::Stack(StackStorage::ReferencedPrimitive { base_offset, size, .. }) => (base_offset, size),
                Storage::Stack(StackStorage::Complex { base_offset, size }) => (base_offset, size),
                _ => (0i32, 0u32),
            },
    {
        match self.get_storage_for_sym(sym) {
            Storage::Stack(StackStorage::Primitive { base_offset, .. }) => (base_offset, 8),
            Storage::Stack(StackStorage::ReferencedPrimitive { base_offset, size, .. }) => (base_offset, size),
            Storage::Stack(StackStorage::Complex { base_offset, size }) => (base_offset, size),
            _ => (0, 0),
        }
    }

    /// Records that `sym` arrives in general register `reg`.
    pub fn general_reg_arg(&mut self, sym: Symbol, reg: u8)
        requires
            old(self).wf(),
            !old(self).has_storage(sym),
        ensures
            final(self).wf(),
            final(self).symbol_storage_map@ == old(self).symbol_storage_map@.insert(sym, Storage::Reg(RegStorage::General(reg))),
            final(self).general_free_regs@ == without_reg(old(self).general_free_regs@, reg),
            final(self).general_used_regs@ == old(self).general_used_regs@.push((reg, sym)),
            final(self).frame == old(self).frame,
            float_side_kept(*old(self), *final(self)),
    {
        let ghost prev = *self;
        self.symbol_storage_map.insert(sym, Storage::Reg(RegStorage::General(reg)));
        self.general_free_regs = retain_other_regs(&self.general_free_regs, reg);
        self.general_used_regs.push((reg, sym));
        proof {
            self.lemma_fresh_reg_keeps_wf(prev, sym);
        }
    }

    /// Records that `sym` arrives in float register `reg`.
    pub fn float_reg_arg(&mut self, sym: Symbol, reg: u8)
        requires
            old(self).wf(),
            !old(self).has_storage(sym),
        ensures
            final(self).wf(),
            final(self).symbol_storage_map@ == old(self).symbol_storage_map@.insert(sym, Storage::Reg(RegStorage::Float(reg))),
            final(self).float_free_regs@ == without_reg(old(self).float_free_regs@, reg),
            final(self).float_used_regs@ == old(self).float_used_regs@.push((reg, sym)),
            final(self).frame == old(self).frame,
            general_side_kept(*old(self), *final(self)),
    {
        let ghost prev = *self;
        self.symbol_storage_map.insert(sym, Storage::Reg(RegStorage::Float(reg)));
        self.float_free_regs = retain_other_regs(&self.float_free_regs, reg);
        self.float_used_regs.push((reg, sym));
        proof {
            self.lemma_fresh_reg_keeps_wf(prev, sym);
        }
    }

    /// Records that the primitive `sym` arrives on the stack at `base_offset`.
    pub fn primitive_stack_arg(&mut self, sym: Symbol, base_offset: i32)
        requires
            old(self).wf(),
            !old(self).has_storage(sym),
        ensures
            final(self).wf(),
            final(self).symbol_storage_map@ == old(self).symbol_storage_map@.insert(sym, spilled(base_offset)),
            final(self).allocations@ == old(self).allocations@,
            final(self).frame == old(self).frame,
            float_side_kept(*old(self), *final(self)),
            general_side_kept(*old(self), *final(self)),
    {
        self.symbol_storage_map.insert(sym, Storage::Stack(StackStorage::Primitive { base_offset, reg: None }));
        proof {
            self.lemma_new_unshared_keeps_wf(*old(self), sym);
        }
    }

    /// Records that the pointer for the returned value arrives in `reg`.
    pub fn ret_pointer_arg(&mut self, reg: u8)
        requires
            old(self).wf(),
            !old(self).has_storage(RET_POINTER),
        ensures
            final(self).wf(),
            final(self).symbol_storage_map@ == old(self).symbol_storage_map@.insert(RET_POINTER, Storage::Reg(RegStorage::General(reg))),
            final(self).allocations@ == old(self).allocations@,
            final(self).frame == old(self).frame,
            float_side_kept(*old(self), *final(self)),
            general_side_kept(*old(self), *final(self)),
    {
        self.symbol_storage_map.insert(RET_POINTER, Storage::Reg(RegStorage::General(reg)));
        proof {
            self.lemma_new_unshared_keeps_wf(*old(self), RET_POINTER);
        }
    }

    /// Giving a value without storage a storage that needs no stack area and
    /// no used-table entry keeps the manager well formed.
    proof fn lemma_new_unshared_keeps_wf(&self, prev: StorageManager, sym: Symbol)
        requires
            prev.wf(),
            !prev.has_storage(sym),
            self.symbol_storage_map@ == prev.symbol_storage_map@.insert(sym, self.storage_of(sym)),
            !needs_backing(self.storage_of(sym)),
            self.frame == prev.frame,
            self.allocations@ == prev.allocations@,
            self.general_used_regs@ == prev.general_used_regs@,
            self.float_used_regs@ == prev.float_used_regs@,
        ensures
            self.wf(),
    {
        assert forall|i: int| 0 <= i < prev.allocations@.len() implies (#[trigger] prev.allocations@[i]).0 != sym by {
            assert(prev.has_storage(prev.allocations@[i].0));
        }
        assert forall|i: int| 0 <= i < prev.general_used_regs@.len() implies (#[trigger] prev.general_used_regs@[i]).1 != sym by {
            assert(prev.has_storage(prev.general_used_regs@[i].1));
        }
        assert forall|i: int| 0 <= i < prev.float_used_regs@.len() implies (#[trigger] prev.float_used_regs@[i]).1 != sym by {
            assert(prev.has_storage(prev.float_used_regs@[i].1));
        }
        assert(self.backing_wf()) by {
            assert forall|k: Symbol| #[trigger] self.symbol_storage_map@.contains_key(k) && needs_backing(
                self.symbol_storage_map@[k]) implies backed(self.allocations@, k) by {
                assert(k != sym);
            }
        }
    }

    /// Raises the stack space kept for outgoing call arguments to `tmp_size`.
    pub fn update_fn_call_stack_size(&mut self, tmp_size: u32)
        ensures
            final(self).fn_call_stack_size == if tmp_size > old(self).fn_call_stack_size {
                tmp_size
            } else {
                old(self).fn_call_stack_size
            },
            final(self).symbol_storage_map@ == old(self).symbol_storage_map@,
            final(self).allocations@ == old(self).allocations@,
            final(self).frame == old(self).frame,
            final(self).general_free_regs@ == old(self).general_free_regs@,
            final(self).general_used_regs@ == old(self).general_used_regs@,
            final(self).float_free_regs@ == old(self).float_free_regs@,
            final(self).float_used_regs@ == old(self).float_used_regs@,
            final(self).join_param_map@ == old(self).join_param_map@,
            final(self).cc == old(self).cc,
    {
        if tmp_size > self.fn_call_stack_size {
            self.fn_call_stack_size = tmp_size;
        }
    }
}

/// The width of an integer.
#[derive(Copy, Clone, Debug, PartialEq, Eq, Structural)]
pub enum IntWidth {
    U8,
    U16,
    U32,
    U64,
    U128,
    I8,
    I16,
    I32,
    I64,
    I128,
}

#[derive(Copy, Clone, Debug, PartialEq, Eq, Structural)]
pub enum FloatWidth {
    F32,
    F64,
}

/// The layout of a value, as far as storage is concerned.
#[derive(Copy, Clone, Debug, PartialEq, Eq, Structural)]
pub enum Layout {
    Int(IntWidth),
    Float(FloatWidth),
    Bool,
    /// Any value that is not a scalar, by its size on the stack.
    Composite { size: u32 },
}

pub open spec fn int_width_size(w: IntWidth) -> u32 {
    match w {
        IntWidth::U8 | IntWidth::I8 => 1,
        IntWidth::U16 | IntWidth::I16 => 2,
        IntWidth::U32 | IntWidth::I32 => 4,
        IntWidth::U64 | IntWidth::I64 => 8,
        IntWidth::U128 | IntWidth::I128 => 16,
    }
}

pub open spec fn layout_size(l: Layout) -> u32 {
    match l {
        Layout::Int(w) => int_width_size(w),
        Layout::Float(FloatWidth::F32) => 4,
        Layout::Float(FloatWidth::F64) => 8,
        Layout::Bool => 1,
        Layout::Composite { size } => size,
    }
}

/// The size of `layout` on the stack.
pub fn stack_size(layout: Layout) -> (r: u32)
    ensures
        r == layout_size(layout),
{
    match layout {
        Layout::Int(IntWidth::U8) | Layout::Int(IntWidth::I8) => 1,
        Layout::Int(IntWidth::U16) | Layout::Int(IntWidth::I16) => 2,
        Layout::Int(IntWidth::U32) | Layout::Int(IntWidth::I32) => 4,
        Layout::Int(IntWidth::U64) | Layout::Int(IntWidth::I64) => 8,
        Layout::Int(IntWidth::U128) | Layout::Int(IntWidth::I128) => 16,
        Layout::Float(FloatWidth::F32) => 4,
        Layout::Float(FloatWidth::F64) => 8,
        Layout::Bool => 1,
        Layout::Composite { size } => size,
    }
}

/// Integers (and booleans) that fit one general register.
pub open spec fn is_single_register_integer(l: Layout) -> bool {
    match l {
        Layout::Int(IntWidth::U128) | Layout::Int(IntWidth::I128) => false,
        Layout::Int(_) | Layout::Bool => true,
        _ => false,
    }
}

pub open spec fn is_single_register_float(l: Layout) -> bool {
    match l {
        Layout::Float(_) => true,
        _ => false,
    }
}

/// Signed integers narrower than a word, which load with sign extension.
pub open spec fn is_sign_extended(l: Layout) -> bool {
    match l {
        Layout::Int(IntWidth::I8) | Layout::Int(IntWidth::I16) | Layout::Int(IntWidth::I32) => true,
        _ => false,
    }
}

pub fn single_register_integer(l: Layout) -> (r: bool)
    ensures
        r == is_single_register_integer(l),
{
    match l {
        Layout::Int(IntWidth::U128) | Layout::Int(IntWidth::I128) => false,
        Layout::Int(_) | Layout::Bool => true,
        _ => false,
    }
}

pub fn single_register_float(l: Layout) -> (r: bool)
    ensures
        r == is_single_register_float(l),
{
    match l {
        Layout::Float(_) => true,
        _ => false,
    }
}

pub fn sign_extended(l: Layout) -> (r: bool)
    ensures
        r == is_sign_extended(l),
{
    match l {
        Layout::Int(IntWidth::I8) | Layout::Int(IntWidth::I16) | Layout::Int(IntWidth::I32) => true,
        _ => false,
    }
}

/// A value of this storage can be brought into a general register.
pub open spec fn general_loadable(st: Storage) -> bool {
    match st {
        Storage::Reg(RegStorage::General(_)) => true,
        Storage::Stack(StackStorage::Primitive { reg: None, .. }) => true,
        Storage::Stack(StackStorage::Primitive { reg: Some(RegStorage::General(_)), .. }) => true,
        Storage::Stack(StackStorage::ReferencedPrimitive { .. }) => true,
        _ => false,
    }
}

/// A value of this storage can be brought into a float register.
pub open spec fn float_loadable(st: Storage) -> bool {
    match st {
        Storage::Reg(RegStorage::Float(_)) => true,
        Storage::Stack(StackStorage::Primitive { reg: None, .. }) => true,
        Storage::Stack(StackStorage::Primitive { reg: Some(RegStorage::Float(_)), .. }) => true,
        Storage::Stack(StackStorage::ReferencedPrimitive { base_offset, size, .. }) => base_offset % 8
            == 0 && size == 8,
        _ => false,
    }
}

/// The load that brings a value of storage `st` into general register `r`.
pub open spec fn general_load_inst(st: Storage, r: u8) -> Inst {
    match st {
        Storage::Stack(StackStorage::ReferencedPrimitive { base_offset, size, sign_extend }) => if sign_extend {
            Inst::MovsxReg64Base32 { dst: r, offset: base_offset, size: size as u8 }
        } else {
            Inst::MovzxReg64Base32 { dst: r, offset: base_offset, size: size as u8 }
        },
        Storage::Stack(StackStorage::Primitive { base_offset, .. }) => Inst::MovReg64Base32 {
            dst: r,
            offset: base_offset,
        },
        _ => Inst::MovReg64Reg64 { dst: r, src: r },
    }
}

/// The load that brings a value of storage `st` into float register `r`.
pub open spec fn float_load_inst(st: Storage, r: u8) -> Inst {
    match st {
        Storage::Stack(StackStorage::ReferencedPrimitive { base_offset, .. }) => Inst::MovFreg64Base32 {
            dst: r,
            offset: base_offset,
        },
        Storage::Stack(StackStorage::Primitive { base_offset, .. }) => Inst::MovFreg64Base32 {
            dst: r,
            offset: base_offset,
        },
        _ => Inst::MovFreg64Freg64 { dst: r, src: r },
    }
}

/// The storage of a value of storage `st` after its load into general register `r`.
pub open spec fn general_loaded(st: Storage, r: u8) -> Storage {
    match st {
        Storage::Stack(StackStorage::Primitive { base_offset, .. }) => Storage::Stack(
            StackStorage::Primitive { base_offset, reg: Some(RegStorage::General(r)) },
        ),
        _ => Storage::Reg(RegStorage::General(r)),
    }
}

/// The storage of a value of storage `st` after its load into float register `r`.
pub open spec fn float_loaded(st: Storage, r: u8) -> Storage {
    match st {
        Storage::Stack(StackStorage::Primitive { base_offset, .. }) => Storage::Stack(
            StackStorage::Primitive { base_offset, reg: Some(RegStorage::Float(r)) },
        ),
        _ => Storage::Reg(RegStorage::Float(r)),
    }
}

/// What `load_to_general_reg` of `sym` did, from `m0` and `buf0` to `m2` and
/// `buf2`, returning `r`: a value already in a general register stays there;
/// otherwise a register is acquired, the value loaded into it (as an eight-byte
/// word from its slot, or extended from its place in a composite, whose share
/// is then dropped), and the register recorded as used by `sym`.
pub open spec fn general_load_result(
    m0: StorageManager,
    buf0: Seq<Inst>,
    sym: Symbol,
    r: u8,
    m2: StorageManager,
    buf2: Seq<Inst>,
) -> bool {
    let st = m0.storage_of(sym);
    match held_reg(st) {
        Some(RegStorage::General(g)) => {
            &&& r == g
            &&& m2.symbol_storage_map@ == m0.symbol_storage_map@
            &&& m2.general_used_regs@ == m0.general_used_regs@
            &&& m2.general_free_regs@ == m0.general_free_regs@
            &&& m2.general_used_callee_saved_regs@ == m0.general_used_callee_saved_regs@
            &&& m2.allocations@ == m0.allocations@
            &&& m2.frame == m0.frame
            &&& buf2 == buf0
        },
        _ => exists|m1: StorageManager, buf1: Seq<Inst>|
            {
                &&& general_acquired(m0, buf0, r, m1, buf1)
                &&& m2.symbol_storage_map@ == m1.symbol_storage_map@.insert(sym, general_loaded(st, r))
                &&& m2.general_used_regs@ == m1.general_used_regs@.push((r, sym))
                &&& m2.general_free_regs@ == m1.general_free_regs@
                &&& buf2 == buf1.push(general_load_inst(st, r))
                &&& m2.general_used_callee_saved_regs@ == m1.general_used_callee_saved_regs@
                &&& needs_backing(st) ==> !backed(m2.allocations@, sym) && share_dropped(
                    m1.allocations@,
                    m1.frame.free_stack_chunks@,
                    sym,
                    m2.allocations@,
                    m2.frame.free_stack_chunks@,
                )
                &&& !needs_backing(st) ==> m2.allocations@ == m1.allocations@ && m2.frame == m1.frame
            },
    }
}

/// The float counterpart of `general_load_result`.
pub open spec fn float_load_result(
    m0: StorageManager,
    buf0: Seq<Inst>,
    sym: Symbol,
    r: u8,
    m2: StorageManager,
    buf2: Seq<Inst>,
) -> bool {
    let st = m0.storage_of(sym);
    match held_reg(st) {
        Some(RegStorage::Float(f)) => {
            &&& r == f
            &&& m2.symbol_storage_map@ == m0.symbol_storage_map@
            &&& m2.float_used_regs@ == m0.float_used_regs@
            &&& m2.float_free_regs@ == m0.float_free_regs@
            &&& m2.float_used_callee_saved_regs@ == m0.float_used_callee_saved_regs@
            &&& m2.allocations@ == m0.allocations@
            &&& m2.frame == m0.frame
            &&& buf2 == buf0
        },
        _ => exists|m1: StorageManager, buf1: Seq<Inst>|
            {
                &&& float_acquired(m0, buf0, r, m1, buf1)
                &&& m2.symbol_storage_map@ == m1.symbol_storage_map@.insert(sym, float_loaded(st, r))
                &&& m2.float_used_regs@ == m1.float_used_regs@.push((r, sym))
                &&& m2.float_free_regs@ == m1.float_free_regs@
                &&& buf2 == buf1.push(float_load_inst(st, r))
                &&& m2.float_used_callee_saved_regs@ == m1.float_used_callee_saved_regs@
                &&& needs_backing(st) ==> !backed(m2.allocations@, sym) && share_dropped(
                    m1.allocations@,
                    m1.frame.free_stack_chunks@,
                    sym,
                    m2.allocations@,
                    m2.frame.free_stack_chunks@,
                )
                &&& !needs_backing(st) ==> m2.allocations@ == m1.allocations@ && m2.frame == m1.frame
            },
    }
}

impl StorageManager {
    /// Puts `sym`, stored in `prev` without a register, into general register
    /// `reg` with storage `st`, keeping the manager well formed.
    #[verifier::rlimit(40)]
    proof fn lemma_loaded_keeps_wf(&self, prev: StorageManager, sym: Symbol, st: Storage)
        requires
            prev.frame.wf(),
            prev.allocations_wf(),
            prev.used_wf(),
            prev.frame_covered(),
            prev.has_storage(sym),
            held_reg(prev.storage_of(sym)) is None,
            forall|k: Symbol| k != sym && #[trigger] prev.symbol_storage_map@.contains_key(k) && needs_backing(
                prev.symbol_storage_map@[k]) ==> backed(prev.allocations@, k),
            !needs_backing(st),
            backed(prev.allocations@, sym) ==> is_stack(st),
            held_reg(st) is Some,
            self.symbol_storage_map@ == prev.symbol_storage_map@.insert(sym, st),
            self.frame == prev.frame,
            self.allocations@ == prev.allocations@,
            ({
                match held_reg(st) {
                    Some(RegStorage::General(r)) => self.general_used_regs@
                        == prev.general_used_regs@.push((r, sym)) && self.float_used_regs@
                        == prev.float_used_regs@,
                    Some(RegStorage::Float(r)) => self.float_used_regs@
                        == prev.float_used_regs@.push((r, sym)) && self.general_used_regs@
                        == prev.general_used_regs@,
                    None => false,
                }
            }),
        ensures
            self.wf(),
    {
        let g = self.general_used_regs@;
        let f = self.float_used_regs@;
        let pg = prev.general_used_regs@;
        let pf = prev.float_used_regs@;
        assert forall|i: int| 0 <= i < pg.len() implies (#[trigger] pg[i]).1 != sym by {}
        assert forall|i: int| 0 <= i < pf.len() implies (#[trigger] pf[i]).1 != sym by {}
        assert(self.used_wf()) by {
            assert forall|i: int| 0 <= i < g.len() implies self.has_storage((#[trigger] g[i]).1) && held_reg(
                self.storage_of(g[i].1)) == Some(RegStorage::General(g[i].0)) by {
                if i < pg.len() {
                    assert(g[i] == pg[i]);
                }
            }
            assert forall|i: int| 0 <= i < f.len() implies self.has_storage((#[trigger] f[i]).1) && held_reg(
                self.storage_of(f[i].1)) == Some(RegStorage::Float(f[i].0)) by {
                if i < pf.len() {
                    assert(f[i] == pf[i]);
                }
            }
            assert forall|i: int, j: int| 0 <= i < j < g.len() implies (#[trigger] g[i]).1 != (#[trigger] g[j]).1 by {
                if j < pg.len() {
                    assert(g[i] == pg[i] && g[j] == pg[j]);
                } else if i < pg.len() {
                    assert(g[i] == pg[i]);
                }
            }
            assert forall|i: int, j: int| 0 <= i < j < f.len() implies (#[trigger] f[i]).1 != (#[trigger] f[j]).1 by {
                if j < pf.len() {
                    assert(f[i] == pf[i] && f[j] == pf[j]);
                } else if i < pf.len() {
                    assert(f[i] == pf[i]);
                }
            }
        }
        assert(self.allocations_wf()) by {
            let a = self.allocations@;
            assert forall|i: int| 0 <= i < a.len() implies self.has_storage((#[trigger] a[i]).0) && is_stack(self.storage_of(a[i].0)) by {
                if a[i].0 == sym {
                    assert(backed(prev.allocations@, sym));
                }
            }
        }
        assert(self.backing_wf()) by {
            assert forall|k: Symbol| #[trigger] self.symbol_storage_map@.contains_key(k) && needs_backing(
                self.symbol_storage_map@[k]) implies backed(self.allocations@, k) by {
                assert(k != sym);
            }
        }
    }

    /// Loads `sym` into a general register and returns it.
    #[verifier::rlimit(40)]
    pub fn load_to_general_reg(&mut self, buf: &mut Vec<Inst>, sym: Symbol) -> (r: u8)
        requires
            old(self).wf(),
            old(self).room(8),
            old(self).has_storage(sym),
            general_loadable(old(self).storage_of(sym)),
            held_reg(old(self).storage_of(sym)) is None ==> old(self).general_reg_available(),
        ensures
            final(self).wf(),
            final(self).frame.stack_size <= old(self).frame.stack_size + 8,
            general_load_result(*old(self), old(buf)@, sym, r, *final(self), final(buf)@),
            final(self).storage_of(sym) == general_loaded(old(self).storage_of(sym), r),
            float_side_kept(*old(self), *final(self)),
            kept_or_spilled(*old(self), *final(self), Some(sym)),
            old(buf)@.is_prefix_of(final(buf)@),
            forall|x: u8| in_general_pool(*old(self), x) ==> in_general_pool(*final(self), x),
            old(self).general_reg_available() ==> final(self).general_reg_available(),
            held_reg(old(self).storage_of(sym)) is None ==> final(self).general_reg_available(),
    {
        let storage = self.get_storage_for_sym(sym);
        match storage {
            Storage::Reg(RegStorage::General(reg)) => {
                assert(self.symbol_storage_map@.dom() =~= old(self).symbol_storage_map@.dom());
                reg
            },
            Storage::Stack(StackStorage::Primitive { reg: Some(RegStorage::General(reg)), .. }) => {
                assert(self.symbol_storage_map@.dom() =~= old(self).symbol_storage_map@.dom());
                reg
            },
            Storage::Stack(StackStorage::Primitive { reg: _, base_offset }) => {
                let reg = self.get_general_reg(buf);
                let ghost m1 = *self;
                let ghost b1 = buf@;
                buf.push(Inst::MovReg64Base32 { dst: reg, offset: base_offset });
                let new_storage = Storage::Stack(StackStorage::Primitive { base_offset, reg: Some(RegStorage::General(reg)) });
                self.symbol_storage_map.insert(sym, new_storage);
                self.general_used_regs.push((reg, sym));
                proof {
                    assert(m1.storage_of(sym) == storage);
                    self.lemma_loaded_keeps_wf(m1, sym, new_storage);
                    assert(self.symbol_storage_map@.dom() =~= old(self).symbol_storage_map@.dom());
                    assert(general_acquired(*old(self), old(buf)@, reg, m1, b1));
                    lemma_general_pool_kept(*old(self), old(buf)@, reg, m1, b1, *self, sym);
                }
                reg
            },
            Storage::Stack(StackStorage::ReferencedPrimitive { base_offset, size, sign_extend }) => {
                let reg = self.get_general_reg(buf);
                let ghost m1 = *self;
                let ghost b1 = buf@;
                if sign_extend {
                    buf.push(Inst::MovsxReg64Base32 { dst: reg, offset: base_offset, size: size as u8 });
                } else {
                    buf.push(Inst::MovzxReg64Base32 { dst: reg, offset: base_offset, size: size as u8 });
                }
                proof {
                    assert(m1.storage_of(sym) == storage);
                    assert(m1.symbol_storage_map@.contains_key(sym));
                    assert(needs_backing(storage));
                    assert(backed(m1.allocations@, sym));
                }
                self.free_reference(sym);
                let ghost m_freed = *self;
                let new_storage = Storage::Reg(RegStorage::General(reg));
                self.symbol_storage_map.insert(sym, new_storage);
                self.general_used_regs.push((reg, sym));
                proof {
                    assert forall|k: Symbol| k != sym && #[trigger] m_freed.symbol_storage_map@.contains_key(k) && needs_backing(
                        m_freed.symbol_storage_map@[k]) implies backed(m_freed.allocations@, k) by {
                        assert(m1.symbol_storage_map@.contains_key(k));
                    }
                    self.lemma_loaded_keeps_wf(m_freed, sym, new_storage);
                    assert(self.symbol_storage_map@.dom() =~= old(self).symbol_storage_map@.dom());
                    assert(general_acquired(*old(self), old(buf)@, reg, m1, b1));
                    lemma_general_pool_kept(*old(self), old(buf)@, reg, m1, b1, *self, sym);
                }
                reg
            },
            _ => 0,
        }
    }

    /// Loads `sym` into a float register and returns it.
    #[verifier::rlimit(40)]
    pub fn load_to_float_reg(&mut self, buf: &mut Vec<Inst>, sym: Symbol) -> (r: u8)
        requires
            old(self).wf(),
            old(self).room(8),
            old(self).has_storage(sym),
            float_loadable(old(self).storage_of(sym)),
            held_reg(old(self).storage_of(sym)) is None ==> old(self).float_reg_available(),
        ensures
            final(self).wf(),
            final(self).frame.stack_size <= old(self).frame.stack_size + 8,
            float_load_result(*old(self), old(buf)@, sym, r, *final(self), final(buf)@),
            final(self).storage_of(sym) == float_loaded(old(self).storage_of(sym), r),
            general_side_kept(*old(self), *final(self)),
            kept_or_spilled(*old(self), *final(self), Some(sym)),
            old(buf)@.is_prefix_of(final(buf)@),
            forall|x: u8| in_float_pool(*old(self), x) ==> in_float_pool(*final(self), x),
            old(self).float_reg_available() ==> final(self).float_reg_available(),
            held_reg(old(self).storage_of(sym)) is None ==> final(self).float_reg_available(),
    {
        let storage = self.get_storage_for_sym(sym);
        match storage {
            Storage::Reg(RegStorage::Float(reg)) => {
                assert(self.symbol_storage_map@.dom() =~= old(self).symbol_storage_map@.dom());
                reg
            },
            Storage::Stack(StackStorage::Primitive { reg: Some(RegStorage::Float(reg)), .. }) => {
                assert(self.symbol_storage_map@.dom() =~= old(self).symbol_storage_map@.dom());
                reg
            },
            Storage::Stack(StackStorage::Primitive { reg: _, base_offset }) => {
                let reg = self.get_float_reg(buf);
                let ghost m1 = *self;
                let ghost b1 = buf@;
                buf.push(Inst::MovFreg64Base32 { dst: reg, offset: base_offset });
                let new_storage = Storage::Stack(StackStorage::Primitive { base_offset, reg: Some(RegStorage::Float(reg)) });
                self.symbol_storage_map.insert(sym, new_storage);
                self.float_used_regs.push((reg, sym));
                proof {
                    assert(m1.storage_of(sym) == storage);
                    self.lemma_loaded_keeps_wf(m1, sym, new_storage);
                    assert(self.symbol_storage_map@.dom() =~= old(self).symbol_storage_map@.dom());
                    assert(float_acquired(*old(self), old(buf)@, reg, m1, b1));
                    lemma_float_pool_kept(*old(self), old(buf)@, reg, m1, b1, *self, sym);
                }
                reg
            },
            Storage::Stack(StackStorage::ReferencedPrimitive { base_offset, .. }) => {
                let reg = self.get_float_reg(buf);
                let ghost m1 = *self;
                let ghost b1 = buf@;
                buf.push(Inst::MovFreg64Base32 { dst: reg, offset: base_offset });
                proof {
                    assert(m1.storage_of(sym) == storage);
                    assert(m1.symbol_storage_map@.contains_key(sym));
                    assert(needs_backing(storage));
                    assert(backed(m1.allocations@, sym));
                }
                self.free_reference(sym);
                let ghost m_freed = *self;
                let new_storage = Storage::Reg(RegStorage::Float(reg));
                self.symbol_storage_map.insert(sym, new_storage);
                self.float_used_regs.push((reg, sym));
                proof {
                    assert forall|k: Symbol| k != sym && #[trigger] m_freed.symbol_storage_map@.contains_key(k) && needs_backing(
                        m_freed.symbol_storage_map@[k]) implies backed(m_freed.allocations@, k) by {
                        assert(m1.symbol_storage_map@.contains_key(k));
                    }
                    self.lemma_loaded_keeps_wf(m_freed, sym, new_storage);
                    assert(self.symbol_storage_map@.dom() =~= old(self).symbol_storage_map@.dom());
                    assert(float_acquired(*old(self), old(buf)@, reg, m1, b1));
                    lemma_float_pool_kept(*old(self), old(buf)@, reg, m1, b1, *self, sym);
                }
                reg
            },
            _ => 0,
        }
    }
}

/// A value of this storage can be copied into a chosen general register.
pub open spec fn general_copyable(st: Storage) -> bool {
    match st {
        Storage::Reg(RegStorage::General(_)) => true,
        Storage::Stack(StackStorage::Primitive { reg: None, .. }) => true,
        Storage::Stack(StackStorage::Primitive { reg: Some(RegStorage::General(_)), .. }) => true,
        Storage::Stack(StackStorage::ReferencedPrimitive { base_offset, size, .. }) => base_offset % 8
            == 0 && size == 8,
        _ => false,
    }
}

/// A value of this storage can be copied into a chosen float register.
pub open spec fn float_copyable(st: Storage) -> bool {
    float_loadable(st)
}

/// What a copy of a value of storage `st` into general register `reg` emits.
pub open spec fn general_copy(st: Storage, reg: u8) -> Seq<Inst> {
    match st {
        Storage::Reg(RegStorage::General(old_reg)) => if old_reg == reg {
            Seq::empty()
        } else {
            seq![Inst::MovReg64Reg64 { dst: reg, src: old_reg }]
        },
        Storage::Stack(StackStorage::Primitive { reg: Some(RegStorage::General(old_reg)), .. }) => if old_reg == reg {
            Seq::empty()
        } else {
            seq![Inst::MovReg64Reg64 { dst: reg, src: old_reg }]
        },
        Storage::Stack(StackStorage::Primitive { base_offset, .. }) => seq![Inst::MovReg64Base32 { dst: reg, offset: base_offset }],
        Storage::Stack(StackStorage::ReferencedPrimitive { base_offset, .. }) => seq![Inst::MovReg64Base32 { dst: reg, offset: base_offset }],
        _ => Seq::empty(),
    }
}

/// What a copy of a value of storage `st` into float register `reg` emits.
pub open spec fn float_copy(st: Storage, reg: u8) -> Seq<Inst> {
    match st {
        Storage::Reg(RegStorage::Float(old_reg)) => if old_reg == reg {
            Seq::empty()
        } else {
            seq![Inst::MovFreg64Freg64 { dst: reg, src: old_reg }]
        },
        Storage::Stack(StackStorage::Primitive { reg: Some(RegStorage::Float(old_reg)), .. }) => if old_reg == reg {
            Seq::empty()
        } else {
            seq![Inst::MovFreg64Freg64 { dst: reg, src: old_reg }]
        },
        Storage::Stack(StackStorage::Primitive { base_offset, .. }) => seq![Inst::MovFreg64Base32 { dst: reg, offset: base_offset }],
        Storage::Stack(StackStorage::ReferencedPrimitive { base_offset, .. }) => seq![Inst::MovFreg64Base32 { dst: reg, offset: base_offset }],
        _ => Seq::empty(),
    }
}

/// Layouts whose values a stack copy supports: eight-byte integers and floats.
pub open spec fn is_copy_layout(l: Layout) -> bool {
    l == Layout::Int(IntWidth::I64) || l == Layout::Int(IntWidth::U64) || l == Layout::Float(
        FloatWidth::F64,
    )
}

/// The store of the value held in the register of storage `st` to `offset`.
pub open spec fn store_inst(st: Storage, offset: i32) -> Inst {
    match held_reg(st) {
        Some(RegStorage::General(r)) => Inst::MovBase32Reg64 { offset, src: r },
        Some(RegStorage::Float(f)) => Inst::MovBase32Freg64 { offset, src: f },
        None => Inst::MovBase32Reg64 { offset, src: 0 },
    }
}

/// `sym` can be copied to the stack as a value of layout `l` (which must be
/// supported) in state `m`.
pub open spec fn copy_ready(m: StorageManager, sym: Symbol, l: Layout) -> bool {
    &&& is_copy_layout(l)
    &&& m.has_storage(sym)
    &&& if l == Layout::Float(FloatWidth::F64) {
        float_loadable(m.storage_of(sym)) && m.float_reg_available()
    } else {
        general_loadable(m.storage_of(sym)) && m.general_reg_available()
    }
}

/// `m1` agrees with `m0` on everything but the join-point table.
pub open spec fn same_but_joins(m0: StorageManager, m1: StorageManager) -> bool {
    &&& m1.cc == m0.cc
    &&& m1.symbol_storage_map@ == m0.symbol_storage_map@
    &&& m1.allocations@ == m0.allocations@
    &&& m1.general_free_regs@ == m0.general_free_regs@
    &&& m1.float_free_regs@ == m0.float_free_regs@
    &&& m1.general_used_regs@ == m0.general_used_regs@
    &&& m1.float_used_regs@ == m0.float_used_regs@
    &&& m1.general_used_callee_saved_regs@ == m0.general_used_callee_saved_regs@
    &&& m1.float_used_callee_saved_regs@ == m0.float_used_callee_saved_regs@
    &&& m1.frame == m0.frame
    &&& m1.fn_call_stack_size == m0.fn_call_stack_size
}

/// What freeing register `wanted` did, from `m0` and `b0` to `m1` and `b1`:
/// nothing when it was free; otherwise its used entry went, the register went
/// to the top of the free list, and its occupant moved to its spill slot
/// (stored there when the register alone held it).
pub open spec fn reg_freed(m0: StorageManager, b0: Seq<Inst>, wanted: RegStorage, m1: StorageManager, b1: Seq<Inst>) -> bool {
    match wanted {
        RegStorage::General(r) => if m0.general_free_regs@.contains(r) {
            same_but_joins(m0, m1) && b1 == b0
        } else {
            exists|i: int|
                0 <= i < m0.general_used_regs@.len() && (#[trigger] m0.general_used_regs@[i]).0 == r
                    && m1.general_used_regs@ == m0.general_used_regs@.remove(i)
                    && m1.general_free_regs@ == m0.general_free_regs@.push(r)
                    && occupant_spilled(m0, b0, m0.general_used_regs@[i].1, wanted, m1, b1)
        },
        RegStorage::Float(r) => if m0.float_free_regs@.contains(r) {
            same_but_joins(m0, m1) && b1 == b0
        } else {
            exists|i: int|
                0 <= i < m0.float_used_regs@.len() && (#[trigger] m0.float_used_regs@[i]).0 == r
                    && m1.float_used_regs@ == m0.float_used_regs@.remove(i)
                    && m1.float_free_regs@ == m0.float_free_regs@.push(r)
                    && occupant_spilled(m0, b0, m0.float_used_regs@[i].1, wanted, m1, b1)
        },
    }
}

/// The occupant `victim` of register `wanted` moved from `m0` to its spill
/// slot in `m1`, and the slot received the register when the register alone
/// held the value.
pub open spec fn occupant_spilled(m0: StorageManager, b0: Seq<Inst>, victim: Symbol, wanted: RegStorage, m1: StorageManager, b1: Seq<Inst>) -> bool {
    exists|slot: i32|
        {
            &&& m1.symbol_storage_map@ == m0.symbol_storage_map@.insert(victim, after_spill(m0.storage_of(victim), slot))
            &&& m1.storage_of(victim) == #[trigger] spilled(slot)
            &&& match m0.storage_of(victim) {
                Storage::Reg(_) => b1 == b0.push(spill_store(wanted, slot)),
                _ => b1 == b0,
            }
        }
}

/// One argument of a jump, from `m0` and `b0` to `m1` and `b1`: nothing when
/// the argument already has the parameter's storage `p` or `p` holds no data;
/// for a register, the register is freed and the argument copied into it;
/// for a stack area, the argument is stored at its offset.
pub open spec fn jump_step(m0: StorageManager, b0: Seq<Inst>, arg: Symbol, l: Layout, p: Storage, m1: StorageManager, b1: Seq<Inst>) -> bool {
    if m0.storage_of(arg) == p {
        same_but_joins(m0, m1) && b1 == b0
    } else {
        match p {
            Storage::Reg(RegStorage::General(r)) => exists|mid: StorageManager, bmid: Seq<Inst>|
                {
                    &&& reg_freed(m0, b0, RegStorage::General(r), mid, bmid)
                    &&& same_but_joins(mid, m1)
                    &&& b1 == bmid + general_copy(mid.storage_of(arg), r)
                    &&& m1.general_free_regs@.contains(r)
                },
            Storage::Reg(RegStorage::Float(r)) => exists|mid: StorageManager, bmid: Seq<Inst>|
                {
                    &&& reg_freed(m0, b0, RegStorage::Float(r), mid, bmid)
                    &&& same_but_joins(mid, m1)
                    &&& b1 == bmid + float_copy(mid.storage_of(arg), r)
                    &&& m1.float_free_regs@.contains(r)
                },
            Storage::Stack(StackStorage::Complex { base_offset, .. }) | Storage::Stack(
                StackStorage::ReferencedPrimitive { base_offset, .. },
            ) => {
                &&& b0.is_prefix_of(b1)
                &&& b1.len() > b0.len()
                &&& b1.last() == store_inst(m1.storage_of(arg), base_offset)
                &&& kept_or_spilled(m0, m1, Some(arg))
            },
            Storage::NoData => same_but_joins(m0, m1) && b1 == b0,
            Storage::Stack(StackStorage::Primitive { .. }) => false,
        }
    }
}

/// How many arguments a jump passes: as many as both lists have.
pub open spec fn jump_count(args: nat, params: nat) -> int {
    if args < params {
        args as int
    } else {
        params as int
    }
}

/// The jump went through `states` and `bufs`: step `j` passed argument `j`.
pub open spec fn jump_trace(
    states: Seq<StorageManager>,
    bufs: Seq<Seq<Inst>>,
    args: Seq<Symbol>,
    ls: Seq<Layout>,
    ps: Seq<Storage>,
    n: int,
) -> bool {
    &&& states.len() == n + 1
    &&& bufs.len() == n + 1
    &&& forall|j: int| 0 <= j < n ==> jump_step(#[trigger] states[j], bufs[j], args[j], ls[j], ps[j], states[j + 1], bufs[j + 1])
}

/// The used entry keeps its register across a call: the register is callee saved.
pub open spec fn general_kept(cc: CallConv) -> spec_fn((u8, Symbol)) -> bool {
    |e: (u8, Symbol)| cc.general_callee_saved_spec(e.0)
}

pub open spec fn general_spilled(cc: CallConv) -> spec_fn((u8, Symbol)) -> bool {
    |e: (u8, Symbol)| !cc.general_callee_saved_spec(e.0)
}

pub open spec fn float_kept(cc: CallConv) -> spec_fn((u8, Symbol)) -> bool {
    |e: (u8, Symbol)| cc.float_callee_saved_spec(e.0)
}

pub open spec fn float_spilled(cc: CallConv) -> spec_fn((u8, Symbol)) -> bool {
    |e: (u8, Symbol)| !cc.float_callee_saved_spec(e.0)
}

/// The registers of used entries `s`, in order.
pub open spec fn regs_of(s: Seq<(u8, Symbol)>) -> Seq<u8> {
    s.map_values(|e: (u8, Symbol)| e.0)
}

/// A parameter of a join point.
#[derive(Copy, Clone, Debug, PartialEq, Eq, Structural)]
pub struct Param {
    pub symbol: Symbol,
    pub borrow: bool,
    pub layout: Layout,
}

/// Where the stack data of a storage starts.
pub open spec fn region_start(st: Storage) -> int {
    match st {
        Storage::Stack(StackStorage::Primitive { base_offset, .. }) => base_offset as int,
        Storage::Stack(StackStorage::ReferencedPrimitive { base_offset, .. }) => base_offset as int,
        Storage::Stack(StackStorage::Complex { base_offset, .. }) => base_offset as int,
        _ => 0,
    }
}

/// The layout of a union, as far as its tag id is concerned.
#[derive(Copy, Clone, Debug, PartialEq, Eq, Structural)]
pub enum UnionLayout {
    /// A union stored in place: the tag id follows the data, in the last
    /// `data_alignment` bytes of its `data_size`.
    NonRecursive { data_size: u32, data_alignment: u32, tag_id: IntWidth },
    /// A union behind a pointer.
    Recursive,
}

/// Total stack size of the first `k` layouts.
pub open spec fn prefix_size(ls: Seq<Layout>, k: int) -> int
    decreases k,
{
    if k <= 0 {
        0
    } else {
        prefix_size(ls, k - 1) + layout_size(ls[k - 1]) as int
    }
}

proof fn lemma_prefix_size_monotone(ls: Seq<Layout>, j: int, k: int)
    requires
        0 <= j <= k,
    ensures
        prefix_size(ls, j) <= prefix_size(ls, k),
    decreases k - j,
{
    if j < k {
        lemma_prefix_size_monotone(ls, j, k - 1);
    }
}

/// A field layout that loads as a scalar.
pub open spec fn is_primitive_layout(l: Layout) -> bool {
    is_single_register_integer(l) || is_single_register_float(l)
}

/// The storage of the field of layout `l` at `offset` inside a composite.
pub open spec fn field_storage(l: Layout, offset: i32) -> Storage {
    if is_primitive_layout(l) {
        Storage::Stack(
            StackStorage::ReferencedPrimitive {
                base_offset: offset,
                size: layout_size(l),
                sign_extend: is_sign_extended(l),
            },
        )
    } else {
        Storage::Stack(StackStorage::Complex { base_offset: offset, size: layout_size(l) })
    }
}

/// What a caller-saved spill did to the value `sym` of register `r`: it now
/// lives in a spill slot, and the slot received the register (or already held
/// the value, when the register only cached it).
pub open spec fn pushed_to_slot(
    m0: StorageManager,
    b0: Seq<Inst>,
    m1: StorageManager,
    b1: Seq<Inst>,
    sym: Symbol,
    r: RegStorage,
) -> bool {
    exists|slot: i32|
        {
            &&& m1.storage_of(sym) == spilled(slot)
            &&& match m0.storage_of(sym) {
                Storage::Reg(_) => exists|k: int| b0.len() <= k < b1.len() && b1[k] == spill_store(r, slot),
                Storage::Stack(StackStorage::Primitive { base_offset, .. }) => slot == base_offset,
                _ => false,
            }
        }
}

impl StorageManager {
    /// Copies `sym` into general register `reg`, leaving the tables as they are.
    pub fn load_to_specified_general_reg(&self, buf: &mut Vec<Inst>, sym: Symbol, reg: u8)
        requires
            self.has_storage(sym),
            general_copyable(self.storage_of(sym)),
        ensures
            final(buf)@ == old(buf)@ + general_copy(self.storage_of(sym), reg),
    {
        match self.get_storage_for_sym(sym) {
            Storage::Reg(RegStorage::General(old_reg)) | Storage::Stack(StackStorage::Primitive { reg: Some(RegStorage::General(old_reg)), .. }) => {
                if old_reg != reg {
                    buf.push(Inst::MovReg64Reg64 { dst: reg, src: old_reg });
                }
            },
            Storage::Stack(StackStorage::Primitive { base_offset, .. }) | Storage::Stack(StackStorage::ReferencedPrimitive { base_offset, .. }) => {
                buf.push(Inst::MovReg64Base32 { dst: reg, offset: base_offset });
            },
            _ => {},
        }
        assert(final(buf)@ =~= old(buf)@ + general_copy(self.storage_of(sym), reg));
    }

    /// Copies `sym` into float register `reg`, leaving the tables as they are.
    pub fn load_to_specified_float_reg(&self, buf: &mut Vec<Inst>, sym: Symbol, reg: u8)
        requires
            self.has_storage(sym),
            float_copyable(self.storage_of(sym)),
        ensures
            final(buf)@ == old(buf)@ + float_copy(self.storage_of(sym), reg),
    {
        match self.get_storage_for_sym(sym) {
            Storage::Reg(RegStorage::Float(old_reg)) | Storage::Stack(StackStorage::Primitive { reg: Some(RegStorage::Float(old_reg)), .. }) => {
                if old_reg != reg {
                    buf.push(Inst::MovFreg64Freg64 { dst: reg, src: old_reg });
                }
            },
            Storage::Stack(StackStorage::Primitive { base_offset, .. }) | Storage::Stack(StackStorage::ReferencedPrimitive { base_offset, .. }) => {
                buf.push(Inst::MovFreg64Base32 { dst: reg, offset: base_offset });
            },
            _ => {},
        }
        assert(final(buf)@ =~= old(buf)@ + float_copy(self.storage_of(sym), reg));
    }

    /// Stores `sym`, a value of layout `layout`, at the aligned stack offset
    /// `to_offset`, through a register.
    fn copy_symbol_to_stack_offset(&mut self, buf: &mut Vec<Inst>, to_offset: i32, sym: Symbol, layout: Layout)
        requires
            old(self).wf(),
            old(self).room(8),
            to_offset % 8 == 0,
            copy_ready(*old(self), sym, layout),
        ensures
            final(self).wf(),
            final(self).frame.stack_size <= old(self).frame.stack_size + 8,
            kept_or_spilled(*old(self), *final(self), Some(sym)),
            final(self).storage_of(sym) == if layout == Layout::Float(FloatWidth::F64) {
                float_loaded(old(self).storage_of(sym), match held_reg(final(self).storage_of(sym)) {
                    Some(RegStorage::Float(f)) => f,
                    _ => 0,
                })
            } else {
                general_loaded(old(self).storage_of(sym), match held_reg(final(self).storage_of(sym)) {
                    Some(RegStorage::General(g)) => g,
                    _ => 0,
                })
            },
            old(buf)@.is_prefix_of(final(buf)@),
            final(buf)@.len() > old(buf)@.len(),
            final(buf)@.last() == store_inst(final(self).storage_of(sym), to_offset),
            forall|x: u8| in_general_pool(*old(self), x) ==> in_general_pool(*final(self), x),
            forall|x: u8| in_float_pool(*old(self), x) ==> in_float_pool(*final(self), x),
            old(self).general_reg_available() ==> final(self).general_reg_available(),
            old(self).float_reg_available() ==> final(self).float_reg_available(),
            final(self).cc == old(self).cc,
            final(self).join_param_map@ == old(self).join_param_map@,
    {
        if layout == Layout::Float(FloatWidth::F64) {
            let reg = self.load_to_float_reg(buf, sym);
            buf.push(Inst::MovBase32Freg64 { offset: to_offset, src: reg });
        } else {
            let reg = self.load_to_general_reg(buf, sym);
            buf.push(Inst::MovBase32Reg64 { offset: to_offset, src: reg });
        }
        assert(old(buf)@.is_prefix_of(buf@));
    }
}

/// The load kind of a copy of layout `l`: float or general.
pub open spec fn loads_as_float(l: Layout) -> bool {
    l == Layout::Float(FloatWidth::F64)
}

/// `inst` stores a value of layout `l` (through a float register for a
/// float, a general one otherwise) at stack offset `offset`.
pub open spec fn stores_at(inst: Inst, offset: int, l: Layout) -> bool {
    match inst {
        Inst::MovBase32Reg64 { offset: o, .. } => o == offset && !loads_as_float(l),
        Inst::MovBase32Freg64 { offset: o, .. } => o == offset && loads_as_float(l),
        _ => false,
    }
}

/// Some instruction of `buf` from position `from` on stores a value of
/// layout `l` at `offset`.
pub open spec fn field_stored(buf: Seq<Inst>, from: int, offset: int, l: Layout) -> bool {
    exists|idx: int| from <= idx < buf.len() && #[trigger] stores_at(buf[idx], offset, l)
}

/// The fields of a struct can be stored in it one after another: all of
/// supported layout, each loadable, with a register to be had for each kind,
/// and a value that occurs twice occurs with one kind.
pub open spec fn fields_ready(m: StorageManager, fields: Seq<Symbol>, ls: Seq<Layout>, from: int) -> bool {
    &&& forall|j: int| from <= j < fields.len() ==> copy_ready(m, #[trigger] fields[j], ls[j])
    &&& forall|j: int, k: int|
        from <= j < fields.len() && from <= k < fields.len() && #[trigger] fields[j] == #[trigger] fields[k]
            ==> loads_as_float(ls[j]) == loads_as_float(ls[k])
}

impl StorageManager {
    /// Gives `sym` the storage `st` inside the stack area of `structure`,
    /// sharing that area.
    #[verifier::rlimit(40)]
    fn add_shared(&mut self, sym: Symbol, structure: Symbol, st: Storage)
        requires
            old(self).wf(),
            !old(self).has_storage(sym),
            backed(old(self).allocations@, structure),
            is_stack(st),
        ensures
            final(self).wf(),
            final(self).symbol_storage_map@ == old(self).symbol_storage_map@.insert(sym, st),
            exists|i: int|
                0 <= i < old(self).allocations@.len() && (#[trigger] old(self).allocations@[i]).0 == structure
                    && final(self).allocations@ == old(self).allocations@.push(
                    (sym, old(self).allocations@[i].1, old(self).allocations@[i].2),
                ),
            final(self).frame == old(self).frame,
            float_side_kept(*old(self), *final(self)),
            general_side_kept(*old(self), *final(self)),
    {
        let i = self.find_allocation(structure).unwrap();
        let (_, base_offset, size) = self.allocations[i];
        let ghost a0 = self.allocations@;
        self.symbol_storage_map.insert(sym, st);
        self.allocations.push((sym, base_offset, size));
        proof {
            let a = self.allocations@;
            let n = a0.len() as int;
            assert forall|j: int| 0 <= j < a0.len() implies (#[trigger] a0[j]).0 != sym by {
                assert(old(self).has_storage(a0[j].0));
            }
            assert forall|j: int, k: int| 0 <= j < k < a.len() implies {
                &&& (#[trigger] a[j]).0 != (#[trigger] a[k]).0
                &&& a[j].1 == a[k].1 ==> a[j].2 == a[k].2
                &&& a[j].1 != a[k].1 ==> regions_apart(a[j].1 as int, a[j].2 as int, a[k].1 as int, a[k].2 as int)
            } by {
                if k == n {
                    assert(a[j] == a0[j]);
                    if j != i {
                        if j < i {
                            assert(a0[j].1 == a0[i as int].1 ==> a0[j].2 == a0[i as int].2);
                        } else {
                            assert(a0[i as int].1 == a0[j].1 ==> a0[i as int].2 == a0[j].2);
                        }
                    }
                } else {
                    assert(a[j] == a0[j] && a[k] == a0[k]);
                }
            }
            assert forall|j: int| 0 <= j < a.len() implies {
                &&& can_free(self.frame.free_stack_chunks@, self.frame.stack_size as int, (#[trigger] a[j]).1 as int, a[j].2 as int)
                &&& self.has_storage(a[j].0)
                &&& is_stack(self.storage_of(a[j].0))
            } by {
                if j < n {
                    assert(a[j] == a0[j]);
                } else {
                    assert(a[j].1 == a0[i as int].1);
                }
            }
            let g = self.general_used_regs@;
            let f = self.float_used_regs@;
            assert forall|j: int| 0 <= j < g.len() implies (#[trigger] g[j]).1 != sym by {
                assert(old(self).has_storage(g[j].1));
            }
            assert forall|j: int| 0 <= j < f.len() implies (#[trigger] f[j]).1 != sym by {
                assert(old(self).has_storage(f[j].1));
            }
            assert(self.used_wf());
            assert forall|x: int| -(self.frame.stack_size as int) <= x < 0 implies #[trigger] in_some_chunk(self.frame.free_stack_chunks@, x) || in_some_alloc(a, x) by {
                assert(in_some_chunk(self.frame.free_stack_chunks@, x) || in_some_alloc(a0, x));
                if !in_some_chunk(self.frame.free_stack_chunks@, x) {
                    let w = choose|w: int| 0 <= w < a0.len() && (#[trigger] a0[w]).1 <= x < a0[w].1 + a0[w].2;
                    assert(a[w] == a0[w]);
                }
            }
            assert(self.backing_wf()) by {
                assert forall|k: Symbol| #[trigger] self.symbol_storage_map@.contains_key(k) && needs_backing(
                    self.symbol_storage_map@[k]) implies backed(self.allocations@, k) by {
                    if k == sym {
                        assert(a[n].0 == sym);
                    } else {
                        let j = choose|j: int| 0 <= j < a0.len() && (#[trigger] a0[j]).0 == k;
                        assert(a[j] == a0[j]);
                    }
                }
            }
        }
    }

    /// Records `sym` as field `index` of the composite `structure`, in place:
    /// the field shares the stack area of the structure.
    #[verifier::rlimit(40)]
    pub fn load_field_at_index(&mut self, sym: Symbol, structure: Symbol, index: u64, field_layouts: &Vec<Layout>)
        requires
            old(self).wf(),
            !old(self).has_storage(sym),
            old(self).has_storage(structure),
            old(self).storage_of(structure) is Stack,
            old(self).storage_of(structure)->Stack_0 is Complex,
            index < field_layouts@.len(),
            prefix_size(field_layouts@, index as int) <= old(self).storage_of(structure)->Stack_0->Complex_size,
            old(self).storage_of(structure)->Stack_0->Complex_base_offset + prefix_size(
                field_layouts@,
                index as int,
            ) <= i32::MAX,
        ensures
            final(self).wf(),
            final(self).symbol_storage_map@ == old(self).symbol_storage_map@.insert(
                sym,
                field_storage(
                    field_layouts@[index as int],
                    (old(self).storage_of(structure)->Stack_0->Complex_base_offset + prefix_size(
                        field_layouts@,
                        index as int,
                    )) as i32,
                ),
            ),
            exists|i: int|
                0 <= i < old(self).allocations@.len() && (#[trigger] old(self).allocations@[i]).0 == structure
                    && final(self).allocations@ == old(self).allocations@.push(
                    (sym, old(self).allocations@[i].1, old(self).allocations@[i].2),
                ),
            final(self).frame == old(self).frame,
            float_side_kept(*old(self), *final(self)),
            general_side_kept(*old(self), *final(self)),
    {
        let (base_offset, size) = match self.get_storage_for_sym(structure) {
            Storage::Stack(StackStorage::Complex { base_offset, size }) => (base_offset, size),
            _ => (0, 0),
        };
        proof {
            let i = choose|i: int| 0 <= i < self.allocations@.len() && (#[trigger] self.allocations@[i]).0 == structure;
            assert(self.symbol_storage_map@.contains_key(structure));
        }
        let ghost ls = field_layouts@;
        let mut data_offset: i64 = base_offset as i64;
        let mut k: usize = 0;
        while (k as u64) < index
            invariant
                ls == field_layouts@,
                k <= index < ls.len(),
                ls.len() == field_layouts.len(),
                data_offset == base_offset + prefix_size(ls, k as int),
                prefix_size(ls, index as int) <= size,
            decreases index - k,
        {
            proof {
                lemma_prefix_size_monotone(ls, k + 1, index as int);
                lemma_prefix_size_monotone(ls, 0, k as int);
            }
            data_offset = data_offset + stack_size(field_layouts[k]) as i64;
            k = k + 1;
        }
        proof {
            lemma_prefix_size_monotone(ls, 0, index as int);
        }
        let data_offset = data_offset as i32;
        assert(data_offset == base_offset + prefix_size(ls, index as int));
        assert(base_offset == old(self).storage_of(structure)->Stack_0->Complex_base_offset);
        let layout = field_layouts[k];
        let field_size = stack_size(layout);
        let st = if single_register_integer(layout) || single_register_float(layout) {
            Storage::Stack(StackStorage::ReferencedPrimitive { base_offset: data_offset, size: field_size, sign_extend: sign_extended(layout) })
        } else {
            Storage::Stack(StackStorage::Complex { base_offset: data_offset, size: field_size })
        };
        self.add_shared(sym, structure, st);
    }
}

impl StorageManager {
    /// Records `sym` as the tag id of the union `structure`, in place: the tag
    /// id follows the data and shares the stack area of the union.
    pub fn load_union_tag_id(&mut self, buf: &mut Vec<Inst>, sym: Symbol, structure: Symbol, union_layout: UnionLayout)
        requires
            old(self).wf(),
            !old(self).has_storage(sym),
            old(self).has_storage(structure),
            needs_backing(old(self).storage_of(structure)),
            union_layout is NonRecursive,
            union_layout->NonRecursive_data_alignment <= union_layout->NonRecursive_data_size,
            region_start(old(self).storage_of(structure)) + (union_layout->NonRecursive_data_size
                - union_layout->NonRecursive_data_alignment) <= i32::MAX,
        ensures
            final(self).wf(),
            final(self).symbol_storage_map@ == old(self).symbol_storage_map@.insert(
                sym,
                Storage::Stack(
                    StackStorage::ReferencedPrimitive {
                        base_offset: (region_start(old(self).storage_of(structure)) + (
                        union_layout->NonRecursive_data_size
                            - union_layout->NonRecursive_data_alignment)) as i32,
                        size: int_width_size(union_layout->NonRecursive_tag_id),
                        sign_extend: is_sign_extended(Layout::Int(union_layout->NonRecursive_tag_id)),
                    },
                ),
            ),
            exists|i: int|
                0 <= i < old(self).allocations@.len() && (#[trigger] old(self).allocations@[i]).0 == structure
                    && final(self).allocations@ == old(self).allocations@.push(
                    (sym, old(self).allocations@[i].1, old(self).allocations@[i].2),
                ),
            final(buf)@ == old(buf)@,
            final(self).frame == old(self).frame,
            float_side_kept(*old(self), *final(self)),
            general_side_kept(*old(self), *final(self)),
    {
        proof {
            assert(self.symbol_storage_map@.contains_key(structure));
        }
        match union_layout {
            UnionLayout::NonRecursive { data_size, data_alignment, tag_id } => {
                let (union_offset, _) = self.stack_offset_and_size(structure);
                let id_offset = data_size - data_alignment;
                let size = stack_size(Layout::Int(tag_id));
                let st = Storage::Stack(StackStorage::ReferencedPrimitive {
                    base_offset: (union_offset as i64 + id_offset as i64) as i32,
                    size,
                    sign_extend: sign_extended(Layout::Int(tag_id)),
                });
                self.add_shared(sym, structure, st);
            },
            UnionLayout::Recursive => {},
        }
    }

    /// Lays out the struct `sym` in a new stack area, storing its fields one
    /// after another; a struct of size zero carries no data.
    #[verifier::rlimit(40)]
    pub fn create_struct(&mut self, buf: &mut Vec<Inst>, sym: Symbol, field_layouts: &Vec<Layout>, fields: &Vec<Symbol>)
        requires
            old(self).wf(),
            !old(self).has_storage(sym),
            fields@.len() == field_layouts@.len(),
            ({
                ||| forall|j: int| 0 <= j < field_layouts@.len() ==> layout_size(#[trigger] field_layouts@[j]) == 0
                ||| fields_ready(*old(self), fields@, field_layouts@, 0) && old(self).room(16 * fields@.len() as int)
            }),
        ensures
            final(self).wf(),
            prefix_size(field_layouts@, field_layouts@.len() as int) == 0 ==> final(self).storage_of(sym) == Storage::NoData,
            prefix_size(field_layouts@, field_layouts@.len() as int) != 0 ==> {
                &&& final(self).storage_of(sym) is Stack
                &&& final(self).storage_of(sym)->Stack_0 is Complex
                &&& final(self).storage_of(sym)->Stack_0->Complex_size == prefix_size(
                    field_layouts@,
                    field_layouts@.len() as int,
                )
                &&& forall|k: int|
                    0 <= k < field_layouts@.len() ==> field_stored(
                        final(buf)@,
                        old(buf)@.len() as int,
                        final(self).storage_of(sym)->Stack_0->Complex_base_offset + 8 * k,
                        #[trigger] field_layouts@[k],
                    )
            },
            final(self).has_storage(sym),
            old(buf)@.is_prefix_of(final(buf)@),
    {
        let ghost ls = field_layouts@;
        let ghost n = ls.len() as int;
        let ghost all_zero = forall|j: int| 0 <= j < n ==> layout_size(#[trigger] ls[j]) == 0;
        proof {
            if !all_zero {
                assert forall|j: int| 0 <= j < n implies is_copy_layout(#[trigger] ls[j]) by {
                    assert(copy_ready(*self, fields@[j], ls[j]));
                }
            }
        }
        let mut struct_size: u64 = 0;
        let mut k: usize = 0;
        while k < field_layouts.len()
            invariant
                ls == field_layouts@,
                n == ls.len(),
                k <= n,
                struct_size == prefix_size(ls, k as int),
                all_zero == forall|j: int| 0 <= j < n ==> layout_size(#[trigger] ls[j]) == 0,
                all_zero ==> struct_size == 0,
                !all_zero ==> (forall|j: int| 0 <= j < n ==> is_copy_layout(#[trigger] ls[j])) && struct_size == 8 * k,
                n <= i32::MAX / 16 || all_zero,
            decreases n - k,
        {
            proof {
                if !all_zero {
                    assert(is_copy_layout(ls[k as int]));
                }
            }
            struct_size = struct_size + stack_size(field_layouts[k]) as u64;
            k = k + 1;
        }
        if struct_size == 0 {
            let ghost prev = *self;
            self.symbol_storage_map.insert(sym, Storage::NoData);
            proof {
                self.lemma_new_unshared_keeps_wf(prev, sym);
            }
            return;
        }
        assert(!all_zero);
        let struct_size = struct_size as u32;
        proof {
            assert(round8(struct_size as int) == struct_size);
        }
        let base_offset = self.claim_stack_area(sym, struct_size);
        let mut current_offset = base_offset;
        let mut i: usize = 0;
        while i < fields.len()
            invariant
                ls == field_layouts@,
                n == ls.len(),
                fields@.len() == n,
                i <= n,
                self.wf(),
                self.room(8 * (n - i)),
                current_offset == base_offset + 8 * i,
                base_offset + 8 * n <= 0,
                base_offset % 8 == 0,
                fields_ready(*self, fields@, ls, i as int),
                self.has_storage(sym),
                self.storage_of(sym) == Storage::Stack(StackStorage::Complex { base_offset, size: struct_size }),
                forall|j: int| 0 <= j < n ==> fields@[j] != sym,
                old(buf)@.is_prefix_of(buf@),
                forall|k: int| 0 <= k < i ==> field_stored(buf@, old(buf)@.len() as int, base_offset + 8 * k, #[trigger] ls[k]),
            decreases n - i,
        {
            let ghost prev = *self;
            let field = fields[i];
            let layout = field_layouts[i];
            proof {
                assert(copy_ready(prev, fields@[i as int], ls[i as int]));
            }
            let ghost before_buf = buf@;
            self.copy_symbol_to_stack_offset(buf, current_offset, field, layout);
            proof {
                let last = buf@.len() - 1;
                assert(stores_at(buf@[last], base_offset + 8 * i, ls[i as int]));
                assert forall|k: int| 0 <= k < i + 1 implies field_stored(buf@, old(buf)@.len() as int, base_offset + 8 * k, #[trigger] ls[k]) by {
                    if k < i {
                        assert(field_stored(before_buf, old(buf)@.len() as int, base_offset + 8 * k, ls[k]));
                        let idx = choose|idx: int| old(buf)@.len() <= idx < before_buf.len() && #[trigger] stores_at(before_buf[idx], base_offset + 8 * k, ls[k]);
                        assert(buf@[idx] == before_buf[idx]);
                    } else {
                        assert(stores_at(buf@[last], base_offset + 8 * k, ls[k]));
                    }
                }
                assert(prev.has_storage(sym));
                assert(held_reg(prev.storage_of(sym)) is None);
                assert forall|j: int| i + 1 <= j < n implies copy_ready(*self, #[trigger] fields@[j], ls[j]) by {
                    assert(copy_ready(prev, fields@[j], ls[j]));
                    assert(prev.symbol_storage_map@.contains_key(fields@[j]));
                    if fields@[j] == field {
                        assert(loads_as_float(ls[j]) == loads_as_float(ls[i as int]));
                    }
                }
            }
            current_offset = current_offset + 8;
            i = i + 1;
        }
    }
}

/// The place in a used table of the entry for register `reg`.
fn find_used_reg(used: &Vec<(u8, Symbol)>, reg: u8) -> (r: Option<usize>)
    ensures
        match r {
            Some(i) => i < used@.len() && used@[i as int].0 == reg,
            None => forall|i: int| 0 <= i < used@.len() ==> (#[trigger] used@[i]).0 != reg,
        },
{
    let mut i: usize = 0;
    while i < used.len()
        invariant
            i <= used@.len(),
            forall|j: int| 0 <= j < i ==> (#[trigger] used@[j]).0 != reg,
        decreases used@.len() - i,
    {
        if used[i].0 == reg {
            return Some(i);
        }
        i = i + 1;
    }
    None
}

impl StorageManager {
    /// Makes register `wanted` free, moving the value that uses it to the stack.
    #[verifier::rlimit(40)]
    fn ensure_reg_free(&mut self, buf: &mut Vec<Inst>, wanted: RegStorage)
        requires
            old(self).wf(),
            old(self).room(8),
            match wanted {
                RegStorage::General(r) => in_general_pool(*old(self), r),
                RegStorage::Float(r) => in_float_pool(*old(self), r),
            },
        ensures
            final(self).wf(),
            final(self).frame.stack_size <= old(self).frame.stack_size + 8,
            kept_or_spilled(*old(self), *final(self), None),
            old(buf)@.is_prefix_of(final(buf)@),
            forall|x: u8| in_general_pool(*old(self), x) ==> in_general_pool(*final(self), x),
            forall|x: u8| in_float_pool(*old(self), x) ==> in_float_pool(*final(self), x),
            old(self).general_reg_available() ==> final(self).general_reg_available(),
            old(self).float_reg_available() ==> final(self).float_reg_available(),
            match wanted {
                RegStorage::General(r) => final(self).general_free_regs@.contains(r),
                RegStorage::Float(r) => final(self).float_free_regs@.contains(r),
            },
            reg_freed(*old(self), old(buf)@, wanted, *final(self), final(buf)@),
            match wanted {
                RegStorage::General(_) => final(self).float_used_regs@ == old(self).float_used_regs@ && final(self).float_free_regs@ == old(self).float_free_regs@,
                RegStorage::Float(_) => final(self).general_used_regs@ == old(self).general_used_regs@ && final(self).general_free_regs@ == old(self).general_free_regs@,
            },
            final(self).cc == old(self).cc,
            final(self).join_param_map@ == old(self).join_param_map@,
    {
        match wanted {
            RegStorage::General(reg) => {
                if contains_reg(&self.general_free_regs, reg) {
                    assert(self.symbol_storage_map@.dom() =~= old(self).symbol_storage_map@.dom());
                    return;
                }
                match find_used_reg(&self.general_used_regs, reg) {
                    Some(p) => {
                        let ghost g0 = self.general_used_regs@;
                        let (used_reg, sym) = self.general_used_regs.remove(p);
                        proof {
                            Self::lemma_used_removed(g0, p as int, self.general_used_regs@);
                            let g = self.general_used_regs@;
                            assert forall|j: int| 0 <= j < g.len() implies self.has_storage((#[trigger] g[j]).1) && held_reg(
                                self.storage_of(g[j].1)) == Some(RegStorage::General(g[j].0)) by {
                                if j < p {
                                    assert(g[j] == g0[j]);
                                } else {
                                    assert(g[j] == g0[j + 1]);
                                }
                            }
                            assert forall|j: int| 0 <= j < self.float_used_regs@.len() implies (#[trigger] self.float_used_regs@[j]).1 != sym by {
                                assert(held_reg(self.storage_of(self.float_used_regs@[j].1)) == Some(RegStorage::Float(self.float_used_regs@[j].0)));
                            }
                        }
                        let ghost mid = *self;
                        let ghost mid_buf = buf@;
                        self.free_to_stack(buf, sym, RegStorage::General(used_reg));
                        self.general_free_regs.push(used_reg);
                        proof {
                            assert(mid.symbol_storage_map@ == old(self).symbol_storage_map@);
                            assert(mid_buf == old(buf)@);
                            let slot = choose|slot: i32|
                                {
                                    &&& self.symbol_storage_map@ == mid.symbol_storage_map@.insert(sym, after_spill(mid.storage_of(sym), slot))
                                    &&& self.storage_of(sym) == spilled(slot)
                                    &&& match mid.storage_of(sym) {
                                        Storage::Reg(_) => buf@ == mid_buf.push(spill_store(RegStorage::General(used_reg), slot)),
                                        _ => buf@ == mid_buf,
                                    }
                                };
                            assert(!old(self).general_free_regs@.contains(reg));
                            assert(g0[p as int].0 == reg && g0[p as int].1 == sym);
                            assert(self.general_used_regs@ == g0.remove(p as int));
                            assert(self.general_free_regs@ == old(self).general_free_regs@.push(reg));
                            assert(self.storage_of(sym) == spilled(slot));
                            assert(occupant_spilled(*old(self), old(buf)@, sym, wanted, *self, buf@));
                            assert(reg_freed(*old(self), old(buf)@, wanted, *self, buf@));
                            assert(self.symbol_storage_map@.dom() =~= old(self).symbol_storage_map@.dom());
                            assert(self.general_free_regs@[self.general_free_regs@.len() - 1] == reg);
                            let f0 = old(self).general_free_regs@;
                            assert forall|x: u8| in_general_pool(*old(self), x) implies in_general_pool(*self, x) by {
                                if f0.contains(x) {
                                    let i = choose|i: int| 0 <= i < f0.len() && f0[i] == x;
                                    assert(self.general_free_regs@[i] == x);
                                } else {
                                    let i = choose|i: int| 0 <= i < g0.len() && (#[trigger] g0[i]).0 == x;
                                    if i < p {
                                        assert(self.general_used_regs@[i] == g0[i]);
                                    } else if i > p {
                                        assert(self.general_used_regs@[i - 1] == g0[i]);
                                    }
                                }
                            }
                        }
                    },
                    None => {
                        assert(self.symbol_storage_map@.dom() =~= old(self).symbol_storage_map@.dom());
                    },
                }
            },
            RegStorage::Float(reg) => {
                if contains_reg(&self.float_free_regs, reg) {
                    assert(self.symbol_storage_map@.dom() =~= old(self).symbol_storage_map@.dom());
                    return;
                }
                match find_used_reg(&self.float_used_regs, reg) {
                    Some(p) => {
                        let ghost f0 = self.float_used_regs@;
                        let (used_reg, sym) = self.float_used_regs.remove(p);
                        proof {
                            Self::lemma_used_removed(f0, p as int, self.float_used_regs@);
                            let f = self.float_used_regs@;
                            assert forall|j: int| 0 <= j < f.len() implies self.has_storage((#[trigger] f[j]).1) && held_reg(
                                self.storage_of(f[j].1)) == Some(RegStorage::Float(f[j].0)) by {
                                if j < p {
                                    assert(f[j] == f0[j]);
                                } else {
                                    assert(f[j] == f0[j + 1]);
                                }
                            }
                            assert forall|j: int| 0 <= j < self.general_used_regs@.len() implies (#[trigger] self.general_used_regs@[j]).1 != sym by {
                                assert(held_reg(self.storage_of(self.general_used_regs@[j].1)) == Some(RegStorage::General(self.general_used_regs@[j].0)));
                            }
                        }
                        let ghost mid = *self;
                        let ghost mid_buf = buf@;
                        self.free_to_stack(buf, sym, RegStorage::Float(used_reg));
                        self.float_free_regs.push(used_reg);
                        proof {
                            assert(mid.symbol_storage_map@ == old(self).symbol_storage_map@);
                            assert(mid_buf == old(buf)@);
                            let slot = choose|slot: i32|
                                {
                                    &&& self.symbol_storage_map@ == mid.symbol_storage_map@.insert(sym, after_spill(mid.storage_of(sym), slot))
                                    &&& self.storage_of(sym) == spilled(slot)
                                    &&& match mid.storage_of(sym) {
                                        Storage::Reg(_) => buf@ == mid_buf.push(spill_store(RegStorage::Float(used_reg), slot)),
                                        _ => buf@ == mid_buf,
                                    }
                                };
                            assert(!old(self).float_free_regs@.contains(reg));
                            assert(f0[p as int].0 == reg && f0[p as int].1 == sym);
                            assert(self.float_used_regs@ == f0.remove(p as int));
                            assert(self.float_free_regs@ == old(self).float_free_regs@.push(reg));
                            assert(self.storage_of(sym) == spilled(slot));
                            assert(occupant_spilled(*old(self), old(buf)@, sym, wanted, *self, buf@));
                            assert(reg_freed(*old(self), old(buf)@, wanted, *self, buf@));
                            assert(self.symbol_storage_map@.dom() =~= old(self).symbol_storage_map@.dom());
                            assert(self.float_free_regs@[self.float_free_regs@.len() - 1] == reg);
                            let fr0 = old(self).float_free_regs@;
                            assert forall|x: u8| in_float_pool(*old(self), x) implies in_float_pool(*self, x) by {
                                if fr0.contains(x) {
                                    let i = choose|i: int| 0 <= i < fr0.len() && fr0[i] == x;
                                    assert(self.float_free_regs@[i] == x);
                                } else {
                                    let i = choose|i: int| 0 <= i < f0.len() && (#[trigger] f0[i]).0 == x;
                                    if i < p {
                                        assert(self.float_used_regs@[i] == f0[i]);
                                    } else if i > p {
                                        assert(self.float_used_regs@[i - 1] == f0[i]);
                                    }
                                }
                            }
                        }
                    },
                    None => {
                        assert(self.symbol_storage_map@.dom() =~= old(self).symbol_storage_map@.dom());
                    },
                }
            },
        }
    }

    /// Claims a general register, hands it to `callback`, appends what the
    /// callback emits, and returns the register to the free list. The register
    /// is recorded nowhere else: it must not be relied on across calls.
    pub fn with_tmp_general_reg<F: FnOnce(u8) -> Vec<Inst>>(&mut self, buf: &mut Vec<Inst>, callback: F)
        requires
            old(self).wf(),
            old(self).room(8),
            old(self).general_reg_available(),
            forall|r: u8| callback.requires((r,)),
        ensures
            final(self).wf(),
            exists|r: u8, m1: StorageManager, b1: Seq<Inst>, emitted: Vec<Inst>|
                {
                    &&& general_acquired(*old(self), old(buf)@, r, m1, b1)
                    &&& callback.ensures((r,), emitted)
                    &&& final(buf)@ == b1 + emitted@
                    &&& final(self).general_free_regs@ == m1.general_free_regs@.push(r)
                    &&& final(self).general_used_regs@ == m1.general_used_regs@
                    &&& final(self).symbol_storage_map@ == m1.symbol_storage_map@
                },
    {
        let reg = self.get_general_reg(buf);
        let ghost m1 = *self;
        let ghost b1 = buf@;
        let mut emitted = callback(reg);
        let ghost e = emitted;
        buf.append(&mut emitted);
        self.general_free_regs.push(reg);
    }

    /// Claims a float register, hands it to `callback`, appends what the
    /// callback emits, and returns the register to the free list.
    pub fn with_tmp_float_reg<F: FnOnce(u8) -> Vec<Inst>>(&mut self, buf: &mut Vec<Inst>, callback: F)
        requires
            old(self).wf(),
            old(self).room(8),
            old(self).float_reg_available(),
            forall|r: u8| callback.requires((r,)),
        ensures
            final(self).wf(),
            exists|r: u8, m1: StorageManager, b1: Seq<Inst>, emitted: Vec<Inst>|
                {
                    &&& float_acquired(*old(self), old(buf)@, r, m1, b1)
                    &&& callback.ensures((r,), emitted)
                    &&& final(buf)@ == b1 + emitted@
                    &&& final(self).float_free_regs@ == m1.float_free_regs@.push(r)
                    &&& final(self).float_used_regs@ == m1.float_used_regs@
                    &&& final(self).symbol_storage_map@ == m1.symbol_storage_map@
                },
    {
        let reg = self.get_float_reg(buf);
        let ghost m1 = *self;
        let ghost b1 = buf@;
        let mut emitted = callback(reg);
        let ghost e = emitted;
        buf.append(&mut emitted);
        self.float_free_regs.push(reg);
    }
}

impl StorageManager {
    /// Spills every value held in a caller-saved register, so that a call may
    /// clobber those registers; values in callee-saved registers stay.
    #[verifier::rlimit(60)]
    pub fn push_used_caller_saved_regs_to_stack(&mut self, buf: &mut Vec<Inst>)
        requires
            old(self).wf(),
            old(self).room(8 * (old(self).general_used_regs@.len() + old(self).float_used_regs@.len()) as int),
        ensures
            final(self).wf(),
            forall|j: int|
                0 <= j < old(self).general_used_regs@.len() && !old(self).cc.general_callee_saved_spec(
                    (#[trigger] old(self).general_used_regs@[j]).0,
                ) ==> pushed_to_slot(
                    *old(self),
                    old(buf)@,
                    *final(self),
                    final(buf)@,
                    old(self).general_used_regs@[j].1,
                    RegStorage::General(old(self).general_used_regs@[j].0),
                ),
            forall|j: int|
                0 <= j < old(self).float_used_regs@.len() && !old(self).cc.float_callee_saved_spec(
                    (#[trigger] old(self).float_used_regs@[j]).0,
                ) ==> pushed_to_slot(
                    *old(self),
                    old(buf)@,
                    *final(self),
                    final(buf)@,
                    old(self).float_used_regs@[j].1,
                    RegStorage::Float(old(self).float_used_regs@[j].0),
                ),
            forall|k: int|
                0 <= k < final(self).general_used_regs@.len() ==> final(self).cc.general_callee_saved_spec(
                    (#[trigger] final(self).general_used_regs@[k]).0,
                ),
            forall|k: int|
                0 <= k < final(self).float_used_regs@.len() ==> final(self).cc.float_callee_saved_spec(
                    (#[trigger] final(self).float_used_regs@[k]).0,
                ),
            old(buf)@.is_prefix_of(final(buf)@),
            final(self).cc == old(self).cc,
            final(self).general_used_regs@ == old(self).general_used_regs@.filter(general_kept(old(self).cc)),
            final(self).general_free_regs@ == old(self).general_free_regs@ + regs_of(old(self).general_used_regs@.filter(general_spilled(old(self).cc))),
            final(self).float_used_regs@ == old(self).float_used_regs@.filter(float_kept(old(self).cc)),
            final(self).float_free_regs@ == old(self).float_free_regs@ + regs_of(old(self).float_used_regs@.filter(float_spilled(old(self).cc))),
    {
        let ghost m0 = *self;
        let ghost b0 = buf@;
        let ghost og = self.general_used_regs@;
        let ghost of = self.float_used_regs@;
        let mut old_general: Vec<(u8, Symbol)> = Vec::new();
        std::mem::swap(&mut old_general, &mut self.general_used_regs);
        proof {
            assert forall|j: int, k: int| 0 <= j < og.len() && 0 <= k < of.len() implies (#[trigger] og[j]).1 != (#[trigger] of[k]).1 by {
                assert(held_reg(m0.storage_of(og[j].1)) == Some(RegStorage::General(og[j].0)));
                assert(held_reg(m0.storage_of(of[k].1)) == Some(RegStorage::Float(of[k].0)));
            }
        }
        let mut i: usize = 0;
        while i < old_general.len()
            invariant
                old_general@ == og,
                i <= og.len(),
                m0.wf(),
                self.frame.wf(),
                self.allocations_wf(),
                self.backing_wf(),
                self.used_wf(),
                self.frame_covered(),
                self.cc == m0.cc,
                self.float_used_regs@ == of,
                self.float_free_regs@ == m0.float_free_regs@,
                self.general_used_regs@ == og.subrange(0, i as int).filter(general_kept(m0.cc)),
                self.general_free_regs@ == m0.general_free_regs@ + regs_of(og.subrange(0, i as int).filter(general_spilled(m0.cc))),
                self.room(8 * (og.len() - i + of.len()) as int),
                forall|j: int, k: int| 0 <= j < og.len() && 0 <= k < of.len() ==> (#[trigger] og[j]).1 != (#[trigger] of[k]).1,
                forall|j: int, k: int| 0 <= j < k < og.len() ==> (#[trigger] og[j]).1 != (#[trigger] og[k]).1,
                forall|j: int| i <= j < og.len() ==> self.has_storage((#[trigger] og[j]).1) && held_reg(self.storage_of(og[j].1)) == Some(RegStorage::General(og[j].0)),
                forall|j: int| i <= j < og.len() ==> self.storage_of((#[trigger] og[j]).1) == m0.storage_of(og[j].1),
                forall|k: int, j: int| 0 <= k < self.general_used_regs@.len() && i <= j < og.len() ==> (#[trigger] self.general_used_regs@[k]).1 != (#[trigger] og[j]).1,
                forall|k: int| 0 <= k < self.general_used_regs@.len() ==> self.cc.general_callee_saved_spec((#[trigger] self.general_used_regs@[k]).0),
                forall|j: int| 0 <= j < i && !m0.cc.general_callee_saved_spec((#[trigger] og[j]).0) ==> pushed_to_slot(m0, b0, *self, buf@, og[j].1, RegStorage::General(og[j].0)),
                forall|k: int| 0 <= k < of.len() ==> self.storage_of((#[trigger] of[k]).1) == m0.storage_of(of[k].1),
                b0.is_prefix_of(buf@),
            decreases og.len() - i,
        {
            let (reg, sym) = old_general[i];
            let ghost prev = *self;
            let ghost prev_buf = buf@;
            proof {
                let pre = og.subrange(0, i as int);
                assert(og.subrange(0, i + 1) =~= pre.push(og[i as int]));
                pre.lemma_filter_push(og[i as int], general_kept(m0.cc));
                pre.lemma_filter_push(og[i as int], general_spilled(m0.cc));
                let sp = pre.filter(general_spilled(m0.cc));
                assert(regs_of(sp.push(og[i as int])) =~= regs_of(sp).push(og[i as int].0));
                assert(m0.general_free_regs@ + regs_of(sp).push(reg) =~= (m0.general_free_regs@ + regs_of(sp)).push(reg));
            }
            if !self.cc.general_callee_saved(reg) {
                self.general_free_regs.push(reg);
                proof {
                    assert forall|k: int| 0 <= k < self.general_used_regs@.len() implies (#[trigger] self.general_used_regs@[k]).1 != sym by {
                        assert(og[i as int].1 == sym);
                    }
                    assert forall|k: int| 0 <= k < self.float_used_regs@.len() implies (#[trigger] self.float_used_regs@[k]).1 != sym by {
                        assert(og[i as int].1 == sym);
                    }
                }
                self.free_to_stack(buf, sym, RegStorage::General(reg));
                proof {
                    assert forall|j: int| 0 <= j < i + 1 && !m0.cc.general_callee_saved_spec((#[trigger] og[j]).0) implies pushed_to_slot(m0, b0, *self, buf@, og[j].1, RegStorage::General(og[j].0)) by {
                        if j < i {
                            assert(og[j].1 != sym);
                            let slot = choose|slot: i32| {
                                &&& prev.storage_of(og[j].1) == spilled(slot)
                                &&& match m0.storage_of(og[j].1) {
                                    Storage::Reg(_) => exists|k: int| b0.len() <= k < prev_buf.len() && prev_buf[k] == spill_store(RegStorage::General(og[j].0), slot),
                                    Storage::Stack(StackStorage::Primitive { base_offset, .. }) => slot == base_offset,
                                    _ => false,
                                }
                            };
                            if m0.storage_of(og[j].1) is Reg {
                                let k = choose|k: int| b0.len() <= k < prev_buf.len() && prev_buf[k] == spill_store(RegStorage::General(og[j].0), slot);
                                assert(buf@[k] == prev_buf[k]);
                            }
                        } else {
                            assert(og[j] == (reg, sym));
                            if m0.storage_of(sym) is Reg {
                                assert(buf@[prev_buf.len() as int] == spill_store(RegStorage::General(reg), match self.storage_of(sym) {
                                    Storage::Stack(StackStorage::Primitive { base_offset, .. }) => base_offset,
                                    _ => 0,
                                }));
                            }
                        }
                    }
                }
            } else {
                self.general_used_regs.push((reg, sym));
                proof {
                    let g = self.general_used_regs@;
                    let pg = prev.general_used_regs@;
                    assert forall|k: int| 0 <= k < g.len() implies self.has_storage((#[trigger] g[k]).1) && held_reg(
                        self.storage_of(g[k].1)) == Some(RegStorage::General(g[k].0)) by {
                        if k < pg.len() {
                            assert(g[k] == pg[k]);
                        }
                    }
                    assert forall|a: int, b: int| 0 <= a < b < g.len() implies (#[trigger] g[a]).1 != (#[trigger] g[b]).1 by {
                        if b < pg.len() {
                            assert(g[a] == pg[a] && g[b] == pg[b]);
                        } else {
                            assert(g[a] == pg[a]);
                        }
                    }
                    assert(self.used_wf());
                    assert(self.backing_wf());
                    assert(self.allocations_wf());
                    assert forall|k: int, j: int| 0 <= k < g.len() && i + 1 <= j < og.len() implies (#[trigger] g[k]).1 != (#[trigger] og[j]).1 by {
                        if k < pg.len() {
                            assert(g[k] == pg[k]);
                        } else {
                            assert(g[k] == og[i as int]);
                        }
                    }
                    assert forall|k: int| 0 <= k < g.len() implies self.cc.general_callee_saved_spec((#[trigger] g[k]).0) by {
                        if k < pg.len() {
                            assert(g[k] == pg[k]);
                        }
                    }
                }
            }
            i = i + 1;
        }
        proof {
            assert(og.subrange(0, og.len() as int) =~= og);
        }
        let ghost mid = *self;
        let ghost mid_buf = buf@;
        let mut old_float: Vec<(u8, Symbol)> = Vec::new();
        std::mem::swap(&mut old_float, &mut self.float_used_regs);
        let mut i: usize = 0;
        while i < old_float.len()
            invariant
                old_float@ == of,
                i <= of.len(),
                m0.wf(),
                self.frame.wf(),
                self.allocations_wf(),
                self.backing_wf(),
                self.used_wf(),
                self.frame_covered(),
                self.cc == m0.cc,
                self.general_used_regs@ == mid.general_used_regs@,
                self.general_free_regs@ == mid.general_free_regs@,
                mid.general_used_regs@ == og.filter(general_kept(m0.cc)),
                mid.general_free_regs@ == m0.general_free_regs@ + regs_of(og.filter(general_spilled(m0.cc))),
                self.float_used_regs@ == of.subrange(0, i as int).filter(float_kept(m0.cc)),
                self.float_free_regs@ == m0.float_free_regs@ + regs_of(of.subrange(0, i as int).filter(float_spilled(m0.cc))),
                forall|k: int| 0 <= k < self.general_used_regs@.len() ==> self.cc.general_callee_saved_spec((#[trigger] self.general_used_regs@[k]).0),
                self.room(8 * (of.len() - i) as int),
                forall|j: int, k: int| 0 <= j < og.len() && 0 <= k < of.len() ==> (#[trigger] og[j]).1 != (#[trigger] of[k]).1,
                forall|j: int, k: int| 0 <= j < k < of.len() ==> (#[trigger] of[j]).1 != (#[trigger] of[k]).1,
                forall|j: int| i <= j < of.len() ==> self.has_storage((#[trigger] of[j]).1) && held_reg(self.storage_of(of[j].1)) == Some(RegStorage::Float(of[j].0)),
                forall|j: int| i <= j < of.len() ==> self.storage_of((#[trigger] of[j]).1) == m0.storage_of(of[j].1),
                forall|k: int, j: int| 0 <= k < self.float_used_regs@.len() && i <= j < of.len() ==> (#[trigger] self.float_used_regs@[k]).1 != (#[trigger] of[j]).1,
                forall|k: int| 0 <= k < self.float_used_regs@.len() ==> self.cc.float_callee_saved_spec((#[trigger] self.float_used_regs@[k]).0),
                forall|j: int| 0 <= j < og.len() && !m0.cc.general_callee_saved_spec((#[trigger] og[j]).0) ==> pushed_to_slot(m0, b0, *self, buf@, og[j].1, RegStorage::General(og[j].0)),
                forall|j: int| 0 <= j < i && !m0.cc.float_callee_saved_spec((#[trigger] of[j]).0) ==> pushed_to_slot(m0, b0, *self, buf@, of[j].1, RegStorage::Float(of[j].0)),
                b0.is_prefix_of(buf@),
            decreases of.len() - i,
        {
            let (reg, sym) = old_float[i];
            let ghost prev = *self;
            let ghost prev_buf = buf@;
            proof {
                let pre = of.subrange(0, i as int);
                assert(of.subrange(0, i + 1) =~= pre.push(of[i as int]));
                pre.lemma_filter_push(of[i as int], float_kept(m0.cc));
                pre.lemma_filter_push(of[i as int], float_spilled(m0.cc));
                let sp = pre.filter(float_spilled(m0.cc));
                assert(regs_of(sp.push(of[i as int])) =~= regs_of(sp).push(of[i as int].0));
                assert(m0.float_free_regs@ + regs_of(sp).push(reg) =~= (m0.float_free_regs@ + regs_of(sp)).push(reg));
            }
            if !self.cc.float_callee_saved(reg) {
                self.float_free_regs.push(reg);
                proof {
                    assert forall|k: int| 0 <= k < self.float_used_regs@.len() implies (#[trigger] self.float_used_regs@[k]).1 != sym by {
                        assert(of[i as int].1 == sym);
                    }
                    assert forall|k: int| 0 <= k < self.general_used_regs@.len() implies (#[trigger] self.general_used_regs@[k]).1 != sym by {
                        assert(held_reg(self.storage_of(self.general_used_regs@[k].1)) == Some(RegStorage::General(self.general_used_regs@[k].0)));
                    }
                }
                self.free_to_stack(buf, sym, RegStorage::Float(reg));
                proof {
                    assert forall|j: int| 0 <= j < og.len() && !m0.cc.general_callee_saved_spec((#[trigger] og[j]).0) implies pushed_to_slot(m0, b0, *self, buf@, og[j].1, RegStorage::General(og[j].0)) by {
                        assert(og[j].1 != sym);
                        let slot = choose|slot: i32| {
                            &&& prev.storage_of(og[j].1) == spilled(slot)
                            &&& match m0.storage_of(og[j].1) {
                                Storage::Reg(_) => exists|k: int| b0.len() <= k < prev_buf.len() && prev_buf[k] == spill_store(RegStorage::General(og[j].0), slot),
                                Storage::Stack(StackStorage::Primitive { base_offset, .. }) => slot == base_offset,
                                _ => false,
                            }
                        };
                        if m0.storage_of(og[j].1) is Reg {
                            let k = choose|k: int| b0.len() <= k < prev_buf.len() && prev_buf[k] == spill_store(RegStorage::General(og[j].0), slot);
                            assert(buf@[k] == prev_buf[k]);
                        }
                    }
                    assert forall|j: int| 0 <= j < i + 1 && !m0.cc.float_callee_saved_spec((#[trigger] of[j]).0) implies pushed_to_slot(m0, b0, *self, buf@, of[j].1, RegStorage::Float(of[j].0)) by {
                        if j < i {
                            assert(of[j].1 != sym);
                            let slot = choose|slot: i32| {
                                &&& prev.storage_of(of[j].1) == spilled(slot)
                                &&& match m0.storage_of(of[j].1) {
                                    Storage::Reg(_) => exists|k: int| b0.len() <= k < prev_buf.len() && prev_buf[k] == spill_store(RegStorage::Float(of[j].0), slot),
                                    Storage::Stack(StackStorage::Primitive { base_offset, .. }) => slot == base_offset,
                                    _ => false,
                                }
                            };
                            if m0.storage_of(of[j].1) is Reg {
                                let k = choose|k: int| b0.len() <= k < prev_buf.len() && prev_buf[k] == spill_store(RegStorage::Float(of[j].0), slot);
                                assert(buf@[k] == prev_buf[k]);
                            }
                        } else {
                            assert(of[j] == (reg, sym));
                            if m0.storage_of(sym) is Reg {
                                assert(buf@[prev_buf.len() as int] == spill_store(RegStorage::Float(reg), match self.storage_of(sym) {
                                    Storage::Stack(StackStorage::Primitive { base_offset, .. }) => base_offset,
                                    _ => 0,
                                }));
                            }
                        }
                    }
                }
            } else {
                self.float_used_regs.push((reg, sym));
                proof {
                    let f = self.float_used_regs@;
                    let pf = prev.float_used_regs@;
                    assert forall|k: int| 0 <= k < f.len() implies self.has_storage((#[trigger] f[k]).1) && held_reg(
                        self.storage_of(f[k].1)) == Some(RegStorage::Float(f[k].0)) by {
                        if k < pf.len() {
                            assert(f[k] == pf[k]);
                        }
                    }
                    assert forall|a: int, b: int| 0 <= a < b < f.len() implies (#[trigger] f[a]).1 != (#[trigger] f[b]).1 by {
                        if b < pf.len() {
                            assert(f[a] == pf[a] && f[b] == pf[b]);
                        } else {
                            assert(f[a] == pf[a]);
                        }
                    }
                    assert(self.used_wf());
                    assert(self.backing_wf());
                    assert(self.allocations_wf());
                    assert forall|k: int, j: int| 0 <= k < f.len() && i + 1 <= j < of.len() implies (#[trigger] f[k]).1 != (#[trigger] of[j]).1 by {
                        if k < pf.len() {
                            assert(f[k] == pf[k]);
                        } else {
                            assert(f[k] == of[i as int]);
                        }
                    }
                    assert forall|k: int| 0 <= k < f.len() implies self.cc.float_callee_saved_spec((#[trigger] f[k]).0) by {
                        if k < pf.len() {
                            assert(f[k] == pf[k]);
                        }
                    }
                }
            }
            i = i + 1;
        }
        proof {
            assert(of.subrange(0, of.len() as int) =~= of);
        }
    }
}

/// A value spilled for a call is read back from the slot it was stored to:
/// after `push_used_caller_saved_regs_to_stack` took `m0` to `m1`, a later
/// `load_to_general_reg` of a value that was in caller-saved register `r`
/// loads the eight-byte word of the same slot that received `r` (or that the
/// register only cached).
pub proof fn lemma_caller_saved_spill_reloads_same_slot(
    m0: StorageManager,
    b0: Seq<Inst>,
    m1: StorageManager,
    b1: Seq<Inst>,
    m2: StorageManager,
    b2: Seq<Inst>,
    sym: Symbol,
    r: u8,
    r2: u8,
)
    requires
        pushed_to_slot(m0, b0, m1, b1, sym, RegStorage::General(r)),
        general_load_result(m1, b1, sym, r2, m2, b2),
    ensures
        exists|slot: i32|
            {
                &&& m1.storage_of(sym) == spilled(slot)
                &&& (m0.storage_of(sym) is Reg ==> exists|k: int| b0.len() <= k < b1.len() && b1[k] == Inst::MovBase32Reg64 { offset: slot, src: r })
                &&& b2.len() > 0
                &&& b2.last() == Inst::MovReg64Base32 { dst: r2, offset: slot }
                &&& b1.is_prefix_of(b2)
            },
{
    let slot = choose|slot: i32| {
        &&& m1.storage_of(sym) == spilled(slot)
        &&& match m0.storage_of(sym) {
            Storage::Reg(_) => exists|k: int| b0.len() <= k < b1.len() && b1[k] == spill_store(RegStorage::General(r), slot),
            Storage::Stack(StackStorage::Primitive { base_offset, .. }) => slot == base_offset,
            _ => false,
        }
    };
    let (m1x, b1x) = choose|m1x: StorageManager, b1x: Seq<Inst>| {
        &&& general_acquired(m1, b1, r2, m1x, b1x)
        &&& m2.symbol_storage_map@ == m1x.symbol_storage_map@.insert(sym, general_loaded(m1.storage_of(sym), r2))
        &&& m2.general_used_regs@ == m1x.general_used_regs@.push((r2, sym))
        &&& m2.general_free_regs@ == m1x.general_free_regs@
        &&& b2 == b1x.push(general_load_inst(m1.storage_of(sym), r2))
        &&& needs_backing(m1.storage_of(sym)) ==> !backed(m2.allocations@, sym)
    };
    assert(b1.is_prefix_of(b1x));
    assert(b1.is_prefix_of(b2));
}

/// The storage a join point gives a parameter of layout `l`.
pub open spec fn param_storage_fits(l: Layout, st: Storage) -> bool {
    if is_single_register_integer(l) {
        st is Reg && st->Reg_0 is General
    } else if is_single_register_float(l) {
        st is Reg && st->Reg_0 is Float
    } else if layout_size(l) == 0 {
        st == Storage::NoData
    } else {
        st is Stack && st->Stack_0 is Complex && st->Stack_0->Complex_size == layout_size(l)
    }
}

/// Stack room that setting up the first `k` parameters may take.
pub open spec fn params_room(ps: Seq<Param>, k: int) -> int
    decreases k,
{
    if k <= 0 {
        0
    } else {
        params_room(ps, k - 1) + 8 + round8(layout_size(ps[k - 1].layout) as int)
    }
}

proof fn lemma_params_room_monotone(ps: Seq<Param>, j: int, k: int)
    requires
        0 <= j <= k,
    ensures
        params_room(ps, j) + params_room(ps, k) - params_room(ps, j) == params_room(ps, k),
        params_room(ps, j) <= params_room(ps, k),
    decreases k - j,
{
    if j < k {
        lemma_params_room_monotone(ps, j, k - 1);
        assert(round8(layout_size(ps[k - 1].layout) as int) >= 0);
    }
}

/// Argument `arg`, of layout `l`, can be passed to a parameter of storage `p`.
pub open spec fn jump_arg_ready(m: StorageManager, arg: Symbol, l: Layout, p: Storage) -> bool {
    match p {
        Storage::Reg(RegStorage::General(r)) => in_general_pool(m, r) && m.has_storage(arg)
            && general_copyable(m.storage_of(arg)),
        Storage::Reg(RegStorage::Float(r)) => in_float_pool(m, r) && m.has_storage(arg) && float_copyable(
            m.storage_of(arg),
        ),
        Storage::Stack(StackStorage::Complex { base_offset, .. }) => m.has_storage(arg) && (m.storage_of(arg)
            == p || (base_offset % 8 == 0 && copy_ready(m, arg, l))),
        Storage::Stack(StackStorage::ReferencedPrimitive { base_offset, .. }) => m.has_storage(arg) && (
        m.storage_of(arg) == p || (base_offset % 8 == 0 && copy_ready(m, arg, l))),
        Storage::NoData => m.has_storage(arg),
        Storage::Stack(StackStorage::Primitive { .. }) => false,
    }
}

impl StorageManager {
    /// Gives each parameter of join point `id` a storage (a register for a
    /// scalar, a stack area for a composite, none for a value without data)
    /// and records those storages as the join point's calling convention.
    #[verifier::rlimit(40)]
    pub fn setup_joinpoint(&mut self, buf: &mut Vec<Inst>, id: u64, params: &Vec<Param>)
        requires
            old(self).wf(),
            old(self).room(params_room(params@, params@.len() as int)),
            old(self).general_reg_available(),
            old(self).float_reg_available(),
            forall|j: int| 0 <= j < params@.len() ==> !(#[trigger] params@[j]).borrow,
            forall|j: int| 0 <= j < params@.len() ==> !old(self).has_storage((#[trigger] params@[j]).symbol),
            forall|j: int, k: int| 0 <= j < k < params@.len() ==> (#[trigger] params@[j]).symbol != (#[trigger] params@[k]).symbol,
        ensures
            final(self).wf(),
            final(self).join_param_map@.contains_key(id),
            final(self).join_param_map@ == old(self).join_param_map@.insert(id, final(self).join_param_map@[id]),
            final(self).join_param_map@[id]@.len() == params@.len(),
            forall|j: int| 0 <= j < params@.len() ==> param_storage_fits((#[trigger] params@[j]).layout, final(self).join_param_map@[id]@[j]),
            forall|j: int| 0 <= j < params@.len() ==> final(self).has_storage((#[trigger] params@[j]).symbol),
            forall|j: int|
                0 <= j < params@.len() ==> same_or_spilled(
                    final(self).join_param_map@[id]@[j],
                    final(self).storage_of((#[trigger] params@[j]).symbol),
                ),
            old(buf)@.is_prefix_of(final(buf)@),
    {
        let ghost ps = params@;
        let ghost n = ps.len() as int;
        let mut param_storage: Vec<Storage> = Vec::new();
        let mut i: usize = 0;
        while i < params.len()
            invariant
                ps == params@,
                n == ps.len(),
                i <= n,
                self.wf(),
                self.cc == old(self).cc,
                self.join_param_map@ == old(self).join_param_map@,
                self.general_reg_available(),
                self.float_reg_available(),
                self.room(params_room(ps, n) - params_room(ps, i as int)),
                param_storage@.len() == i,
                forall|j: int| 0 <= j < i ==> param_storage_fits((#[trigger] ps[j]).layout, param_storage@[j]),
                forall|j: int| 0 <= j < i ==> self.has_storage((#[trigger] ps[j]).symbol),
                forall|j: int| 0 <= j < i ==> same_or_spilled(param_storage@[j], self.storage_of((#[trigger] ps[j]).symbol)),
                forall|j: int| i <= j < n ==> !self.has_storage((#[trigger] ps[j]).symbol),
                forall|j: int, k: int| 0 <= j < k < n ==> (#[trigger] ps[j]).symbol != (#[trigger] ps[k]).symbol,
                old(buf)@.is_prefix_of(buf@),
            decreases n - i,
        {
            let param = params[i];
            let ghost prev = *self;
            let ghost prev_buf = buf@;
            proof {
                lemma_params_room_monotone(ps, i as int, n);
                lemma_params_room_monotone(ps, i + 1, n);
                assert(params_room(ps, i + 1) == params_room(ps, i as int) + 8 + round8(layout_size(ps[i as int].layout) as int));
            }
            if single_register_integer(param.layout) {
                self.claim_general_reg(buf, param.symbol);
            } else if single_register_float(param.layout) {
                self.claim_float_reg(buf, param.symbol);
            } else {
                let size = stack_size(param.layout);
                if size == 0 {
                    self.symbol_storage_map.insert(param.symbol, Storage::NoData);
                    proof {
                        self.lemma_new_unshared_keeps_wf(prev, param.symbol);
                    }
                } else {
                    self.claim_stack_area(param.symbol, size);
                }
            }
            let st = self.get_storage_for_sym(param.symbol);
            param_storage.push(st);
            proof {
                assert(prev_buf.is_prefix_of(buf@));
                assert forall|j: int| 0 <= j < i + 1 implies self.has_storage((#[trigger] ps[j]).symbol) by {
                    if j < i {
                        assert(prev.has_storage(ps[j].symbol));
                    }
                }
                assert forall|j: int| i + 1 <= j < n implies !self.has_storage((#[trigger] ps[j]).symbol) by {
                    assert(!prev.has_storage(ps[j].symbol));
                    assert(ps[j].symbol != ps[i as int].symbol);
                }
                assert forall|j: int| 0 <= j < i + 1 implies same_or_spilled(param_storage@[j], self.storage_of((#[trigger] ps[j]).symbol)) by {
                    if j < i {
                        assert(param_storage@[j] == param_storage@.drop_last()[j]);
                        assert(prev.has_storage(ps[j].symbol));
                        assert(ps[j].symbol != ps[i as int].symbol);
                    }
                }
                assert forall|j: int| 0 <= j < i + 1 implies param_storage_fits((#[trigger] ps[j]).layout, param_storage@[j]) by {
                    if j < i {
                        assert(param_storage@[j] == param_storage@.drop_last()[j]);
                    }
                }
            }
            i = i + 1;
        }
        self.join_param_map.insert(id, param_storage);
    }

    /// Passes `args` to join point `id`: each argument whose storage differs
    /// from the parameter's is copied there (into its register, freed first,
    /// or into its stack area). The join point keeps its parameters.
    #[verifier::rlimit(40)]
    pub fn setup_jump(&mut self, buf: &mut Vec<Inst>, id: u64, args: &Vec<Symbol>, arg_layouts: &Vec<Layout>)
        requires
            old(self).wf(),
            old(self).join_param_map@.contains_key(id),
            args@.len() == arg_layouts@.len(),
            old(self).room(16 * args@.len() as int),
            forall|j: int, k: int| 0 <= j < k < args@.len() ==> (#[trigger] args@[j]) != (#[trigger] args@[k]),
            forall|j: int|
                0 <= j < args@.len() && j < old(self).join_param_map@[id]@.len() ==> jump_arg_ready(
                    *old(self),
                    #[trigger] args@[j],
                    arg_layouts@[j],
                    old(self).join_param_map@[id]@[j],
                ),
        ensures
            final(self).wf(),
            final(self).join_param_map@ == old(self).join_param_map@,
            old(buf)@.is_prefix_of(final(buf)@),
            exists|states: Seq<StorageManager>, bufs: Seq<Seq<Inst>>|
                {
                    &&& #[trigger] jump_trace(states, bufs, args@, arg_layouts@, old(self).join_param_map@[id]@, jump_count(args@.len(), old(self).join_param_map@[id]@.len()))
                    &&& same_but_joins(*old(self), states[0])
                    &&& bufs[0] == old(buf)@
                    &&& same_but_joins(states[jump_count(args@.len(), old(self).join_param_map@[id]@.len())], *final(self))
                    &&& bufs[jump_count(args@.len(), old(self).join_param_map@[id]@.len())] == final(buf)@
                },
    {
        let param_storage = self.join_param_map.remove(&id).unwrap();
        let ghost ps = param_storage@;
        assert(ps == old(self).join_param_map@[id]@);
        let ghost n = if args@.len() < ps.len() { args@.len() as int } else { ps.len() as int };
        let mut states: Ghost<Seq<StorageManager>> = Ghost(Seq::empty().push(*self));
        let mut bufs: Ghost<Seq<Seq<Inst>>> = Ghost(Seq::empty().push(buf@));
        let mut i: usize = 0;
        while i < args.len() && i < param_storage.len()
            invariant
                ps == param_storage@,
                n == if args@.len() < ps.len() { args@.len() as int } else { ps.len() as int },
                args@.len() == arg_layouts@.len(),
                i <= n,
                self.wf(),
                self.room(16 * (args@.len() - i) as int),
                forall|j: int, k: int| 0 <= j < k < args@.len() ==> (#[trigger] args@[j]) != (#[trigger] args@[k]),
                forall|j: int| i <= j < n ==> jump_arg_ready(*self, #[trigger] args@[j], arg_layouts@[j], ps[j]),
                self.join_param_map@ == old(self).join_param_map@.remove(id),
                old(buf)@.is_prefix_of(buf@),
                jump_trace(states@, bufs@, args@, arg_layouts@, ps, i as int),
                same_but_joins(*old(self), states@[0]),
                bufs@[0] == old(buf)@,
                states@[i as int] == *self,
                bufs@[i as int] == buf@,
            decreases n - i,
        {
            let sym = args[i];
            let layout = arg_layouts[i];
            let wanted = param_storage[i];
            let ghost prev = *self;
            let ghost prev_buf = buf@;
            proof {
                assert(jump_arg_ready(prev, args@[i as int], arg_layouts@[i as int], ps[i as int]));
            }
            if self.get_storage_for_sym(sym) != wanted {
                match wanted {
                    Storage::Reg(RegStorage::General(reg)) => {
                        self.ensure_reg_free(buf, RegStorage::General(reg));
                        proof {
                            assert(prev.symbol_storage_map@.contains_key(sym));
                        }
                        let ghost mid = *self;
                        let ghost bmid = buf@;
                        self.load_to_specified_general_reg(buf, sym, reg);
                        proof {
                            assert(same_but_joins(mid, *self));
                        }
                    },
                    Storage::Reg(RegStorage::Float(reg)) => {
                        self.ensure_reg_free(buf, RegStorage::Float(reg));
                        proof {
                            assert(prev.symbol_storage_map@.contains_key(sym));
                        }
                        let ghost mid = *self;
                        let ghost bmid = buf@;
                        self.load_to_specified_float_reg(buf, sym, reg);
                        proof {
                            assert(same_but_joins(mid, *self));
                        }
                    },
                    Storage::Stack(StackStorage::Complex { base_offset, .. }) | Storage::Stack(StackStorage::ReferencedPrimitive { base_offset, .. }) => {
                        self.copy_symbol_to_stack_offset(buf, base_offset, sym, layout);
                    },
                    _ => {},
                }
            }
            proof {
                assert(jump_step(prev, prev_buf, args@[i as int], arg_layouts@[i as int], ps[i as int], *self, buf@));
            }
            let ghost old_states = states@;
            let ghost old_bufs = bufs@;
            states = Ghost(old_states.push(*self));
            bufs = Ghost(old_bufs.push(buf@));
            proof {
                assert forall|j: int| 0 <= j < i + 1 implies jump_step(#[trigger] states@[j], bufs@[j], args@[j], arg_layouts@[j], ps[j], states@[j + 1], bufs@[j + 1]) by {
                    if j < i {
                        assert(states@[j] == old_states[j] && states@[j + 1] == old_states[j + 1]);
                        assert(bufs@[j] == old_bufs[j] && bufs@[j + 1] == old_bufs[j + 1]);
                    }
                }
                assert(prev_buf.is_prefix_of(buf@));
                assert forall|j: int| i + 1 <= j < n implies jump_arg_ready(*self, #[trigger] args@[j], arg_layouts@[j], ps[j]) by {
                    assert(jump_arg_ready(prev, args@[j], arg_layouts@[j], ps[j]));
                    assert(args@[j] != sym);
                    assert(prev.symbol_storage_map@.contains_key(args@[j]));
                }
            }
            i = i + 1;
        }
        let ghost before_insert = *self;
        self.join_param_map.insert(id, param_storage);
        proof {
            assert(self.join_param_map@ =~= old(self).join_param_map@);
            assert(ps == old(self).join_param_map@[id]@);
            assert(n == jump_count(args@.len(), old(self).join_param_map@[id]@.len()));
            assert(i == n);
            assert(same_but_joins(states@[n], *self));
            assert(jump_trace(states@, bufs@, args@, arg_layouts@, old(self).join_param_map@[id]@, n));
            assert(bufs@[n] == buf@);
        }
    }
}

/// Distinct live stack areas never overlap, and every live area lies in the
/// used frame `[-stack_size, 0)`, apart from every free chunk.
pub proof fn lemma_live_areas_disjoint(m: StorageManager, i: int, j: int)
    requires
        m.wf(),
        0 <= i < m.allocations@.len(),
        0 <= j < m.allocations@.len(),
        m.allocations@[i].1 != m.allocations@[j].1,
    ensures
        regions_apart(
            m.allocations@[i].1 as int,
            m.allocations@[i].2 as int,
            m.allocations@[j].1 as int,
            m.allocations@[j].2 as int,
        ),
        -(m.frame.stack_size as int) <= m.allocations@[i].1,
        m.allocations@[i].1 + m.allocations@[i].2 <= 0,
        forall|k: int|
            0 <= k < m.frame.free_stack_chunks@.len() ==> apart(
                #[trigger] m.frame.free_stack_chunks@[k],
                m.allocations@[i].1 as int,
                m.allocations@[i].2 as int,
            ),
{
    let a = m.allocations@;
    assert(can_free(m.frame.free_stack_chunks@, m.frame.stack_size as int, a[i].1 as int, a[i].2 as int));
    if i < j {
        assert(a[i].1 != a[j].1);
    } else {
        assert(i != j);
    }
}

/// Once every value has been freed (no value has storage), the frame is
/// free again as one chunk: the free list is `(-stack_size, stack_size)`. The
/// frame does not shrink.
pub proof fn lemma_all_freed_leaves_one_chunk(m: StorageManager)
    requires
        m.wf(),
        m.symbol_storage_map@.dom().is_empty(),
        m.frame.stack_size > 0,
    ensures
        m.frame.free_stack_chunks@ == seq![((-(m.frame.stack_size as int)) as i32, m.frame.stack_size as u32)],
{
    let a = m.allocations@;
    if a.len() > 0 {
        assert(m.has_storage(a[0].0));
        assert(m.symbol_storage_map@.dom().contains(a[0].0));
    }
    assert(a.len() == 0);
    let size = m.frame.stack_size as int;
    assert forall|x: int| -size <= x < 0 implies #[trigger] in_some_chunk(m.frame.free_stack_chunks@, x) by {
        assert(in_some_chunk(m.frame.free_stack_chunks@, x) || in_some_alloc(a, x));
    }
    lemma_full_cover_is_one_chunk(m.frame.free_stack_chunks@, size);
}

} // verus!
