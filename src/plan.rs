use vstd::prelude::*;

use crate::elf::{le_at, lemma_le_at_unchanged, lemma_pow256_8, read_le, write_le, SurgeryEntry};

verus! {

/// Program-header type of a loadable segment.
pub const PT_LOAD: u64 = 1;

/// Program-header type of the program-header table itself.
pub const PT_PHDR: u64 = 6;

/// Program-header type of a note segment.
pub const PT_NOTE: u64 = 4;

/// The window of host addresses that move by `added_data` bytes to make room
/// for one more program header.
#[derive(Copy, Clone, Debug, PartialEq, Eq, Structural)]
pub struct ShiftPlan {
    pub added_data: u64,
    pub shift_start: u64,
    pub shift_end: u64,
    pub first_load_aligned_size: u64,
}

/// `a` lies in the shift window of `plan`.
pub open spec fn in_window(plan: ShiftPlan, a: int) -> bool {
    plan.shift_start <= a < plan.shift_end
}

/// Why the host cannot make room for the new segment.
#[derive(Copy, Clone, Debug, PartialEq, Eq, Structural)]
pub enum PlanError {
    /// The first loaded segment has too little alignment padding.
    NotEnoughPadding,
    /// A segment in the window would lose its alignment.
    MisalignedSegment { index: usize },
    /// No loadable segment starts at file offset zero.
    NoFirstLoad,
    /// A value of the headers leaves the range of the arithmetic.
    Overflow,
}

/// Field `field` (a byte offset) of program header `i` of the table at `ph_offset`.
pub open spec fn ph_field(bytes: Seq<u8>, ph_offset: int, i: int, field: int, n: int) -> nat {
    le_at(bytes, ph_offset + 56 * i + field, n)
}

/// Reads field `field` of `n` bytes of program header `i`.
fn read_ph(bytes: &Vec<u8>, ph_offset: usize, i: usize, field: usize, n: usize) -> (r: u64)
    requires
        n <= 8,
        field + n <= 56,
        ph_offset + 56 * i + 56 <= bytes@.len(),
    ensures
        r as nat == ph_field(bytes@, ph_offset as int, i as int, field as int, n as int),
{
    let len = bytes.len();
    read_le(bytes, ph_offset + 56 * i + field, n)
}

/// Writes the eight-byte field `field` of program header `i`.
fn write_ph(bytes: &mut Vec<u8>, ph_offset: usize, i: usize, field: usize, v: u64)
    requires
        field + 8 <= 56,
        ph_offset + 56 * i + 56 <= old(bytes)@.len(),
    ensures
        final(bytes)@.len() == old(bytes)@.len(),
        ph_field(final(bytes)@, ph_offset as int, i as int, field as int, 8) == v,
        forall|k: int| 0 <= k < old(bytes)@.len() && !(ph_offset + 56 * i + field <= k < ph_offset + 56 * i + field + 8) ==> final(bytes)@[k] == old(bytes)@[k],
{
    let len = bytes.len();
    proof {
        lemma_pow256_8();
    }
    write_le(bytes, ph_offset + 56 * i + field, 8, v);
}

/// Program header `i` describes a loadable segment at file offset zero.
pub open spec fn is_first_load(bytes: Seq<u8>, ph_offset: int, i: int) -> bool {
    ph_field(bytes, ph_offset, i, 0, 4) == PT_LOAD && ph_field(bytes, ph_offset, i, 8, 8) == 0
}

/// Header `i` is the first of the `n` headers that loads file offset zero.
pub open spec fn first_load_at(bytes: Seq<u8>, ph_offset: int, n: int, i: int) -> bool {
    &&& 0 <= i < n
    &&& is_first_load(bytes, ph_offset, i)
    &&& forall|j: int| 0 <= j < i ==> !is_first_load(bytes, ph_offset, j)
}

/// `n` rounded up to a multiple of `align`.
pub open spec fn round_up(n: int, align: int) -> int {
    if n % align == 0 {
        n
    } else {
        n + (align - n % align)
    }
}

/// The plan for a first loaded segment given by header `i`, for a header
/// table that ends at `ph_end` and grows by `added` bytes.
pub open spec fn plan_for(bytes: Seq<u8>, ph_offset: int, i: int, ph_end: int, added: int) -> ShiftPlan {
    let vaddr = ph_field(bytes, ph_offset, i, 16, 8) as int;
    let aligned = round_up(ph_field(bytes, ph_offset, i, 40, 8) + added, ph_field(bytes, ph_offset, i, 48, 8) as int);
    ShiftPlan {
        added_data: added as u64,
        shift_start: (vaddr + ph_end) as u64,
        shift_end: (vaddr + aligned) as u64,
        first_load_aligned_size: aligned as u64,
    }
}

/// The first of the `n` headers at `ph_offset` that loads file offset zero.
fn find_first_load(out: &Vec<u8>, ph_offset: usize, n: usize) -> (r: Option<usize>)
    requires
        ph_offset + 56 * n <= out@.len(),
    ensures
        match r {
            Some(i) => first_load_at(out@, ph_offset as int, n as int, i as int),
            None => forall|j: int| 0 <= j < n ==> !is_first_load(out@, ph_offset as int, j),
        },
{
    let mut i: usize = 0;
    while i < n
        invariant
            i <= n,
            ph_offset + 56 * n <= out@.len(),
            forall|j: int| 0 <= j < i ==> !is_first_load(out@, ph_offset as int, j),
        decreases n - i,
    {
        if read_ph(out, ph_offset, i, 0, 4) == PT_LOAD && read_ph(out, ph_offset, i, 8, 8) == 0 {
            return Some(i);
        }
        i = i + 1;
    }
    None
}

/// The fields of the first loaded segment `i` leave the range of the
/// arithmetic of the plan (before its padding is looked at).
pub open spec fn first_load_overflows(b: Seq<u8>, o: int, i: int, added: int) -> bool {
    let vaddr = ph_field(b, o, i, 16, 8);
    let filesz = ph_field(b, o, i, 32, 8);
    let memsz = ph_field(b, o, i, 40, 8);
    let align = ph_field(b, o, i, 48, 8);
    align == 0 || filesz > u64::MAX - added || memsz > u64::MAX / 2 - added || align > u64::MAX / 4
        || vaddr > u64::MAX / 2
}

/// The first loaded segment `i` has no room for `added` more bytes in its
/// last aligned block.
pub open spec fn lacks_padding(b: Seq<u8>, o: int, i: int, added: int) -> bool {
    let filesz = ph_field(b, o, i, 32, 8) as int;
    let align = ph_field(b, o, i, 48, 8) as int;
    filesz / align != (filesz + added) / align
}

/// The window of the plan for segment `i` leaves the range of the arithmetic.
pub open spec fn window_overflows(b: Seq<u8>, o: int, i: int, ph_end: int, added: int) -> bool {
    let aligned = round_up(ph_field(b, o, i, 40, 8) + added, ph_field(b, o, i, 48, 8) as int);
    aligned > u64::MAX / 2 || ph_field(b, o, i, 16, 8) > u64::MAX / 2 - aligned || aligned < ph_end
}

/// A header-table segment listed before the first load cannot grow.
pub open spec fn phdr_overflows(b: Seq<u8>, o: int, i0: int, added: int) -> bool {
    exists|j: int|
        0 <= j < i0 && #[trigger] ph_field(b, o, j, 0, 4) == PT_PHDR && (ph_field(b, o, j, 32, 8) > u64::MAX - added
            || ph_field(b, o, j, 40, 8) > u64::MAX - added)
}

/// Header `j` lies in the window of `plan`.
pub open spec fn moves(b: Seq<u8>, o: int, j: int, plan: ShiftPlan) -> bool {
    in_window(plan, ph_field(b, o, j, 16, 8) as int)
}

/// A header in the window cannot move.
pub open spec fn moved_overflows(b: Seq<u8>, o: int, n: int, plan: ShiftPlan) -> bool {
    exists|j: int|
        0 <= j < n && #[trigger] moves(b, o, j, plan) && (ph_field(b, o, j, 8, 8) > u64::MAX - plan.added_data
            || ph_field(b, o, j, 24, 8) > u64::MAX - plan.added_data)
}

/// Header `j`, moved with the window, would lose its alignment.
pub open spec fn misaligned(b: Seq<u8>, o: int, j: int, plan: ShiftPlan) -> bool {
    let align = ph_field(b, o, j, 48, 8) as int;
    &&& moves(b, o, j, plan)
    &&& align != 0
    &&& ((ph_field(b, o, j, 8, 8) + plan.added_data) % align != 0 || (ph_field(b, o, j, 16, 8) + plan.added_data) % align != 0)
}

/// Header `j` grows with the table: a header-table segment before the first
/// load `i0`, or the first load itself.
pub open spec fn grows(b: Seq<u8>, o: int, j: int, i0: int) -> bool {
    j == i0 || (j < i0 && ph_field(b, o, j, 0, 4) == PT_PHDR)
}

/// The value of an eight-byte field, raised by `added` when `raise` holds.
pub open spec fn raised(v: nat, raise: bool, added: int) -> int {
    if raise {
        v + added
    } else {
        v as int
    }
}

/// Every header of the padded table `f`, from table `b` with first load `i0`
/// and plan `plan`: grown sizes, moved offsets and addresses, every other byte
/// as it was.
pub open spec fn padded(b: Seq<u8>, f: Seq<u8>, o: int, n: int, i0: int, plan: ShiftPlan) -> bool {
    &&& f.len() == b.len()
    &&& forall|j: int|
        0 <= j < n ==> {
            &&& #[trigger] ph_field(f, o, j, 8, 8) == raised(ph_field(b, o, j, 8, 8), moves(b, o, j, plan), plan.added_data as int)
            &&& ph_field(f, o, j, 16, 8) == raised(ph_field(b, o, j, 16, 8), moves(b, o, j, plan), plan.added_data as int)
            &&& ph_field(f, o, j, 24, 8) == raised(ph_field(b, o, j, 24, 8), moves(b, o, j, plan), plan.added_data as int)
            &&& ph_field(f, o, j, 32, 8) == raised(ph_field(b, o, j, 32, 8), grows(b, o, j, i0), plan.added_data as int)
            &&& ph_field(f, o, j, 40, 8) == raised(ph_field(b, o, j, 40, 8), grows(b, o, j, i0), plan.added_data as int)
        }
    &&& forall|k: int| 0 <= k < b.len() && !(o + 8 <= k < o + 56 * (n - 1) + 48) ==> f[k] == b[k]
    &&& forall|j: int, g: int| 0 <= j < n && (0 <= g < 8 || 48 <= g < 56) ==> #[trigger] ph_byte(f, o, j, g) == ph_byte(b, o, j, g)
}

/// Byte `g` of entry `i` of a table of `size`-byte entries at `off`.
pub open spec fn entry_byte(bytes: Seq<u8>, off: int, size: int, i: int, g: int) -> u8 {
    bytes[off + size * i + g]
}

/// Byte `g` of program header `j`.
pub open spec fn ph_byte(bytes: Seq<u8>, o: int, j: int, g: int) -> u8 {
    bytes[o + 56 * j + g]
}

/// Writing one eight-byte field keeps every other field of the table.
proof fn lemma_other_fields_kept(a: Seq<u8>, c: Seq<u8>, o: int, n: int, wj: int, wf: int)
    requires
        a.len() == c.len(),
        0 <= o,
        o + 56 * n <= a.len(),
        0 <= wj < n,
        wf == 8 || wf == 16 || wf == 24 || wf == 32 || wf == 40,
        forall|k: int| 0 <= k < a.len() && !(o + 56 * wj + wf <= k < o + 56 * wj + wf + 8) ==> c[k] == a[k],
    ensures
        forall|j: int, f: int|
            0 <= j < n && (f == 8 || f == 16 || f == 24 || f == 32 || f == 40) && (j != wj || f != wf) ==> #[trigger] ph_field(c, o, j, f, 8)
                == ph_field(a, o, j, f, 8),
{
    assert forall|j: int, f: int|
        0 <= j < n && (f == 8 || f == 16 || f == 24 || f == 32 || f == 40) && (j != wj || f != wf) implies #[trigger] ph_field(c, o, j, f, 8)
            == ph_field(a, o, j, f, 8) by {
        lemma_le_at_unchanged(c, a, o + 56 * j + f, 8);
    }
}

/// Grows the header-table segments before the first load `i0`, and the first
/// load itself, and moves every header in the window of `plan`.
#[verifier::rlimit(100)]
fn grow_and_move(out: &mut Vec<u8>, ph_offset: usize, n: usize, i0: usize, plan: ShiftPlan, p_filesz: u64, p_memsz: u64)
    requires
        i0 < n,
        ph_offset + 56 * n <= old(out)@.len(),
        plan.added_data <= 0x1_0000,
        plan.shift_end <= u64::MAX / 2,
        !phdr_overflows(old(out)@, ph_offset as int, i0 as int, plan.added_data as int),
        !moved_overflows(old(out)@, ph_offset as int, n as int, plan),
        p_filesz == ph_field(old(out)@, ph_offset as int, i0 as int, 32, 8),
        p_memsz == ph_field(old(out)@, ph_offset as int, i0 as int, 40, 8),
        p_filesz <= u64::MAX - plan.added_data,
        p_memsz <= u64::MAX / 2 - plan.added_data,
    ensures
        padded(old(out)@, final(out)@, ph_offset as int, n as int, i0 as int, plan),
{
    let len = out.len();
    let ghost b = out@;
    let ghost o = ph_offset as int;
    let ph_ent_size = plan.added_data;
    let mut j: usize = 0;
    while j < n
        invariant
            j <= n,
            i0 < n,
            o == ph_offset as int,
            plan.added_data == ph_ent_size,
            ph_ent_size <= 0x1_0000,
            plan.shift_end <= u64::MAX / 2,
            ph_offset + 56 * n <= out@.len(),
            len == out@.len(),
            b.len() == len,
            ph_ent_size <= 0x1_0000,
            !phdr_overflows(b, o, i0 as int, ph_ent_size as int),
            !moved_overflows(b, o, n as int, plan),
            p_filesz == ph_field(b, o, i0 as int, 32, 8),
            p_memsz == ph_field(b, o, i0 as int, 40, 8),
            p_filesz <= u64::MAX - ph_ent_size,
            p_memsz <= u64::MAX / 2 - ph_ent_size,
            forall|k: int| 0 <= k < b.len() && !(o + 8 <= k < o + 56 * (n - 1) + 48) ==> out@[k] == b[k],
            forall|k: int, g: int| 0 <= k < n && (0 <= g < 8 || 48 <= g < 56) ==> #[trigger] ph_byte(out@, o, k, g) == ph_byte(b, o, k, g),
            forall|k: int| 0 <= k < n ==> {
                &&& #[trigger] ph_field(out@, o, k, 8, 8) == if k < j { raised(ph_field(b, o, k, 8, 8), moves(b, o, k, plan), ph_ent_size as int) } else { ph_field(b, o, k, 8, 8) as int }
                &&& ph_field(out@, o, k, 16, 8) == if k < j { raised(ph_field(b, o, k, 16, 8), moves(b, o, k, plan), ph_ent_size as int) } else { ph_field(b, o, k, 16, 8) as int }
                &&& ph_field(out@, o, k, 24, 8) == if k < j { raised(ph_field(b, o, k, 24, 8), moves(b, o, k, plan), ph_ent_size as int) } else { ph_field(b, o, k, 24, 8) as int }
                &&& ph_field(out@, o, k, 32, 8) == if k < j { raised(ph_field(b, o, k, 32, 8), grows(b, o, k, i0 as int), ph_ent_size as int) } else { ph_field(b, o, k, 32, 8) as int }
                &&& ph_field(out@, o, k, 40, 8) == if k < j { raised(ph_field(b, o, k, 40, 8), grows(b, o, k, i0 as int), ph_ent_size as int) } else { ph_field(b, o, k, 40, 8) as int }
                &&& ph_field(out@, o, k, 0, 4) == ph_field(b, o, k, 0, 4)
            },
        decreases n - j,
    {
        let ghost w0 = out@;
        let p_type = read_ph(out, ph_offset, j, 0, 4);
        let v = read_ph(out, ph_offset, j, 16, 8);
        let off = read_ph(out, ph_offset, j, 8, 8);
        let pa = read_ph(out, ph_offset, j, 24, 8);
        let fs = read_ph(out, ph_offset, j, 32, 8);
        let ms = read_ph(out, ph_offset, j, 40, 8);
        proof {
            assert(ph_field(b, o, j as int, 0, 4) == p_type);
            if moves(b, o, j as int, plan) {
                assert(!(moves(b, o, j as int, plan) && (ph_field(b, o, j as int, 8, 8) > u64::MAX - plan.added_data
                    || ph_field(b, o, j as int, 24, 8) > u64::MAX - plan.added_data)));
            }
            if j < i0 && p_type == PT_PHDR {
                assert(!(ph_field(b, o, j as int, 0, 4) == PT_PHDR && (ph_field(b, o, j as int, 32, 8) > u64::MAX - ph_ent_size
                    || ph_field(b, o, j as int, 40, 8) > u64::MAX - ph_ent_size)));
            }
        }
        if plan.shift_start <= v && v < plan.shift_end {
            let ghost a0 = out@;
            write_ph(out, ph_offset, j, 8, off + ph_ent_size);
            proof {
                lemma_other_fields_kept(a0, out@, o, n as int, j as int, 8);
                assert forall|x: int| 0 <= x < len && !(o + 56 * j + 8 <= x < o + 56 * j + 48) implies out@[x] == w0[x] by {
                    assert(out@[x] == a0[x]);
                }
            }
            let ghost a1 = out@;
            write_ph(out, ph_offset, j, 16, v + ph_ent_size);
            proof {
                lemma_other_fields_kept(a1, out@, o, n as int, j as int, 16);
                assert forall|x: int| 0 <= x < len && !(o + 56 * j + 8 <= x < o + 56 * j + 48) implies out@[x] == w0[x] by {
                    assert(out@[x] == a1[x]);
                }
            }
            let ghost a2 = out@;
            write_ph(out, ph_offset, j, 24, pa + ph_ent_size);
            proof {
                lemma_other_fields_kept(a2, out@, o, n as int, j as int, 24);
                assert forall|x: int| 0 <= x < len && !(o + 56 * j + 8 <= x < o + 56 * j + 48) implies out@[x] == w0[x] by {
                    assert(out@[x] == a2[x]);
                }
            }
        }
        if j == i0 || (j < i0 && p_type == PT_PHDR) {
            let ghost a3 = out@;
            write_ph(out, ph_offset, j, 32, fs + ph_ent_size);
            proof {
                lemma_other_fields_kept(a3, out@, o, n as int, j as int, 32);
                assert forall|x: int| 0 <= x < len && !(o + 56 * j + 8 <= x < o + 56 * j + 48) implies out@[x] == w0[x] by {
                    assert(out@[x] == a3[x]);
                }
            }
            let ghost a4 = out@;
            write_ph(out, ph_offset, j, 40, ms + ph_ent_size);
            proof {
                lemma_other_fields_kept(a4, out@, o, n as int, j as int, 40);
                assert forall|x: int| 0 <= x < len && !(o + 56 * j + 8 <= x < o + 56 * j + 48) implies out@[x] == w0[x] by {
                    assert(out@[x] == a4[x]);
                }
            }
        }
        proof {
            assert forall|x: int| 0 <= x < len && !(o + 56 * j + 8 <= x < o + 56 * j + 48) implies out@[x] == w0[x] by {}
            assert forall|x: int| 0 <= x < b.len() && !(o + 8 <= x < o + 56 * (n - 1) + 48) implies out@[x] == b[x] by {
                assert(out@[x] == w0[x]);
            }
            assert forall|k: int, g: int| 0 <= k < n && (0 <= g < 8 || 48 <= g < 56) implies #[trigger] ph_byte(out@, o, k, g) == ph_byte(b, o, k, g) by {
                assert(out@[o + 56 * k + g] == w0[o + 56 * k + g]);
                assert(ph_byte(w0, o, k, g) == ph_byte(b, o, k, g));
            }
            assert forall|k: int, f: int| 0 <= k < n && k != j && (f == 8 || f == 16 || f == 24 || f == 32 || f == 40) implies #[trigger] ph_field(out@, o, k, f, 8) == ph_field(w0, o, k, f, 8) by {
                lemma_le_at_unchanged(out@, w0, o + 56 * k + f, 8);
            }
            if plan.shift_start <= v && v < plan.shift_end {
                assert(moves(b, o, j as int, plan));
            } else {
                assert(!moves(b, o, j as int, plan));
                lemma_le_at_unchanged(out@, w0, o + 56 * j + 8, 8);
                lemma_le_at_unchanged(out@, w0, o + 56 * j + 16, 8);
                lemma_le_at_unchanged(out@, w0, o + 56 * j + 24, 8);
            }
            if !(j == i0 || (j < i0 && p_type == PT_PHDR)) {
                assert(!grows(b, o, j as int, i0 as int));
                lemma_le_at_unchanged(out@, w0, o + 56 * j + 32, 8);
                lemma_le_at_unchanged(out@, w0, o + 56 * j + 40, 8);
            } else {
                assert(grows(b, o, j as int, i0 as int));
            }
            let jj = j as int;
            let ad = ph_ent_size as int;
            assert(ph_field(w0, o, jj, 8, 8) == ph_field(b, o, jj, 8, 8));
            assert(ph_field(out@, o, jj, 8, 8) == raised(ph_field(b, o, jj, 8, 8), moves(b, o, jj, plan), ad));
            assert(ph_field(out@, o, jj, 16, 8) == raised(ph_field(b, o, jj, 16, 8), moves(b, o, jj, plan), ad));
            assert(ph_field(out@, o, jj, 24, 8) == raised(ph_field(b, o, jj, 24, 8), moves(b, o, jj, plan), ad));
            assert(ph_field(out@, o, jj, 32, 8) == raised(ph_field(b, o, jj, 32, 8), grows(b, o, jj, i0 as int), ad));
            assert(ph_field(out@, o, jj, 40, 8) == raised(ph_field(b, o, jj, 40, 8), grows(b, o, jj, i0 as int), ad));
            assert forall|k: int| 0 <= k < n implies #[trigger] ph_field(out@, o, k, 0, 4) == ph_field(b, o, k, 0, 4) by {
                assert forall|x: int| o + 56 * k <= x < o + 56 * k + 4 implies out@[x] == b[x] by {
                    assert(ph_byte(out@, o, k, x - o - 56 * k) == ph_byte(b, o, k, x - o - 56 * k));
                }
                lemma_le_at_unchanged(out@, b, o + 56 * k, 4);
            }
        }
        let ghost jprev = j as int;
        j = j + 1;
        proof {
            assert forall|k: int| 0 <= k < n implies {
                &&& #[trigger] ph_field(out@, o, k, 8, 8) == if k < j { raised(ph_field(b, o, k, 8, 8), moves(b, o, k, plan), ph_ent_size as int) } else { ph_field(b, o, k, 8, 8) as int }
                &&& ph_field(out@, o, k, 16, 8) == if k < j { raised(ph_field(b, o, k, 16, 8), moves(b, o, k, plan), ph_ent_size as int) } else { ph_field(b, o, k, 16, 8) as int }
                &&& ph_field(out@, o, k, 24, 8) == if k < j { raised(ph_field(b, o, k, 24, 8), moves(b, o, k, plan), ph_ent_size as int) } else { ph_field(b, o, k, 24, 8) as int }
                &&& ph_field(out@, o, k, 32, 8) == if k < j { raised(ph_field(b, o, k, 32, 8), grows(b, o, k, i0 as int), ph_ent_size as int) } else { ph_field(b, o, k, 32, 8) as int }
                &&& ph_field(out@, o, k, 40, 8) == if k < j { raised(ph_field(b, o, k, 40, 8), grows(b, o, k, i0 as int), ph_ent_size as int) } else { ph_field(b, o, k, 40, 8) as int }
                &&& ph_field(out@, o, k, 0, 4) == ph_field(b, o, k, 0, 4)
            } by {
                if k != jprev {
                    assert(ph_field(out@, o, k, 8, 8) == ph_field(w0, o, k, 8, 8));
                    assert(ph_field(out@, o, k, 16, 8) == ph_field(w0, o, k, 16, 8));
                    assert(ph_field(out@, o, k, 24, 8) == ph_field(w0, o, k, 24, 8));
                    assert(ph_field(out@, o, k, 32, 8) == ph_field(w0, o, k, 32, 8));
                    assert(ph_field(out@, o, k, 40, 8) == ph_field(w0, o, k, 40, 8));
                }
            }
        }
    }
    proof {
        assert(j == n);
    }
}

/// Makes room for one more program header in the padding after the first
/// loaded segment (the one at file offset zero): that segment, and the
/// program-header segments listed before it, grow by `ph_ent_size` bytes;
/// every segment whose address lies in the returned window
/// `[p_vaddr + ph_end, p_vaddr + aligned size)` moves up by that much, and must
/// stay aligned. The table at `ph_offset` must already have room for
/// `ph_num + 1` headers. On an error the table is left as it was.
#[verifier::rlimit(100)]
pub fn plan_padding(out: &mut Vec<u8>, ph_offset: usize, ph_num: usize, ph_ent_size: u64) -> (r: Result<ShiftPlan, PlanError>)
    requires
        ph_offset + 56 * (ph_num + 1) <= old(out)@.len(),
        ph_ent_size <= 0x1_0000,
    ensures
        final(out)@.len() == old(out)@.len(),
        (r == Err::<ShiftPlan, PlanError>(PlanError::NoFirstLoad)) <==> forall|j: int|
            0 <= j < ph_num + 1 ==> !is_first_load(old(out)@, ph_offset as int, j),
        r is Err ==> final(out)@ == old(out)@,
        forall|i: int|
            #[trigger] first_load_at(old(out)@, ph_offset as int, ph_num + 1, i) ==> {
                let b = old(out)@;
                let o = ph_offset as int;
                let n = ph_num + 1;
                let added = ph_ent_size as int;
                let plan = plan_for(b, o, i, o + 56 * ph_num, added);
                let early = first_load_overflows(b, o, i, added);
                let pad = lacks_padding(b, o, i, added);
                let wide = window_overflows(b, o, i, o + 56 * ph_num, added);
                let late = phdr_overflows(b, o, i, added) || moved_overflows(b, o, n, plan);
                &&& (r == Err::<ShiftPlan, PlanError>(PlanError::Overflow)) <==> (early || (!pad && (wide || late)))
                &&& (r == Err::<ShiftPlan, PlanError>(PlanError::NotEnoughPadding)) <==> (!early && pad)
                &&& (r is Err && r->Err_0 is MisalignedSegment) <==> (!early && !pad && !wide && !late
                    && exists|j: int| 0 <= j < n && #[trigger] misaligned(b, o, j, plan))
                &&& r matches Err(PlanError::MisalignedSegment { index }) ==> (misaligned(b, o, index as int, plan)
                    && index < n && forall|j: int| 0 <= j < index ==> !misaligned(b, o, j, plan))
                &&& r is Ok ==> r->Ok_0 == plan && padded(b, final(out)@, o, n, i, plan)
            },
{
    let len = out.len();
    let ph_end: u64 = (ph_offset + ph_num * 56) as u64;
    let n = ph_num + 1;
    let ghost b = out@;
    let ghost o = ph_offset as int;
    let i0 = match find_first_load(out, ph_offset, n) {
        Some(i) => i,
        None => {
            return Err(PlanError::NoFirstLoad);
        },
    };
    proof {
        assert forall|i: int| #[trigger] first_load_at(b, o, n as int, i) implies i == i0 by {
            if i < i0 {
                assert(is_first_load(b, o, i));
            } else if i > i0 {
                assert(!is_first_load(b, o, i0 as int));
            }
        }
    }
    let p_vaddr = read_ph(out, ph_offset, i0, 16, 8);
    let p_filesz = read_ph(out, ph_offset, i0, 32, 8);
    let p_memsz = read_ph(out, ph_offset, i0, 40, 8);
    let p_align = read_ph(out, ph_offset, i0, 48, 8);
    if p_align == 0 || p_filesz > u64::MAX - ph_ent_size || p_memsz > u64::MAX / 2 - ph_ent_size
        || p_align > u64::MAX / 4 || p_vaddr > u64::MAX / 2 {
        return Err(PlanError::Overflow);
    }
    if p_filesz / p_align != (p_filesz + ph_ent_size) / p_align {
        return Err(PlanError::NotEnoughPadding);
    }
    let new_memsz = p_memsz + ph_ent_size;
    let align_remainder = new_memsz % p_align;
    let aligned = if align_remainder == 0 {
        new_memsz
    } else {
        new_memsz + (p_align - align_remainder)
    };
    if aligned > u64::MAX / 2 || p_vaddr > u64::MAX / 2 - aligned || aligned < ph_end {
        return Err(PlanError::Overflow);
    }
    let plan = ShiftPlan {
        added_data: ph_ent_size,
        shift_start: p_vaddr + ph_end,
        shift_end: p_vaddr + aligned,
        first_load_aligned_size: aligned,
    };
    assert(plan == plan_for(b, o, i0 as int, o + 56 * ph_num, ph_ent_size as int));
    assert(!first_load_overflows(b, o, i0 as int, ph_ent_size as int));
    assert(!lacks_padding(b, o, i0 as int, ph_ent_size as int));
    assert(!window_overflows(b, o, i0 as int, o + 56 * ph_num, ph_ent_size as int));
    // every check comes before the first write
    let mut j: usize = 0;
    while j < i0
        invariant
            j <= i0 < n,
            n == ph_num + 1,
            o == ph_offset as int,
            first_load_at(b, o, n as int, i0 as int),
            plan == plan_for(b, o, i0 as int, o + 56 * ph_num, ph_ent_size as int),
            plan.added_data == ph_ent_size,
            ph_ent_size <= 0x1_0000,
            plan.shift_end <= u64::MAX / 2,
            forall|i: int| #[trigger] first_load_at(b, o, n as int, i) ==> i == i0,
            !first_load_overflows(b, o, i0 as int, ph_ent_size as int),
            !lacks_padding(b, o, i0 as int, ph_ent_size as int),
            !window_overflows(b, o, i0 as int, o + 56 * ph_num, ph_ent_size as int),
            ph_offset + 56 * n <= out@.len(),
            out@ == b,
            forall|k: int| 0 <= k < j ==> !(#[trigger] ph_field(b, o, k, 0, 4) == PT_PHDR && (ph_field(b, o, k, 32, 8) > u64::MAX - ph_ent_size
                || ph_field(b, o, k, 40, 8) > u64::MAX - ph_ent_size)),
        decreases i0 - j,
    {
        if read_ph(out, ph_offset, j, 0, 4) == PT_PHDR {
            if read_ph(out, ph_offset, j, 32, 8) > u64::MAX - ph_ent_size || read_ph(out, ph_offset, j, 40, 8) > u64::MAX - ph_ent_size {
                proof {
                    assert(phdr_overflows(b, o, i0 as int, ph_ent_size as int));
                }
                return Err(PlanError::Overflow);
            }
        }
        j = j + 1;
    }
    let mut j: usize = 0;
    while j < n
        invariant
            j <= n,
            n == ph_num + 1,
            o == ph_offset as int,
            first_load_at(b, o, n as int, i0 as int),
            plan == plan_for(b, o, i0 as int, o + 56 * ph_num, ph_ent_size as int),
            plan.added_data == ph_ent_size,
            ph_ent_size <= 0x1_0000,
            plan.shift_end <= u64::MAX / 2,
            forall|i: int| #[trigger] first_load_at(b, o, n as int, i) ==> i == i0,
            !first_load_overflows(b, o, i0 as int, ph_ent_size as int),
            !lacks_padding(b, o, i0 as int, ph_ent_size as int),
            !window_overflows(b, o, i0 as int, o + 56 * ph_num, ph_ent_size as int),
            ph_offset + 56 * n <= out@.len(),
            out@ == b,
            !phdr_overflows(b, o, i0 as int, ph_ent_size as int),
            forall|k: int| 0 <= k < j ==> !(#[trigger] moves(b, o, k, plan) && (ph_field(b, o, k, 8, 8) > u64::MAX - plan.added_data
                || ph_field(b, o, k, 24, 8) > u64::MAX - plan.added_data)),
        decreases n - j,
    {
        let v = read_ph(out, ph_offset, j, 16, 8);
        if plan.shift_start <= v && v < plan.shift_end {
            if read_ph(out, ph_offset, j, 8, 8) > u64::MAX - ph_ent_size || read_ph(out, ph_offset, j, 24, 8) > u64::MAX - ph_ent_size {
                proof {
                    assert(moves(b, o, j as int, plan));
                    assert(moved_overflows(b, o, n as int, plan));
                }
                return Err(PlanError::Overflow);
            }
        }
        j = j + 1;
    }
    let mut j: usize = 0;
    while j < n
        invariant
            j <= n,
            n == ph_num + 1,
            o == ph_offset as int,
            first_load_at(b, o, n as int, i0 as int),
            plan == plan_for(b, o, i0 as int, o + 56 * ph_num, ph_ent_size as int),
            plan.added_data == ph_ent_size,
            ph_ent_size <= 0x1_0000,
            plan.shift_end <= u64::MAX / 2,
            forall|i: int| #[trigger] first_load_at(b, o, n as int, i) ==> i == i0,
            !first_load_overflows(b, o, i0 as int, ph_ent_size as int),
            !lacks_padding(b, o, i0 as int, ph_ent_size as int),
            !window_overflows(b, o, i0 as int, o + 56 * ph_num, ph_ent_size as int),
            ph_offset + 56 * n <= out@.len(),
            out@ == b,
            !phdr_overflows(b, o, i0 as int, ph_ent_size as int),
            !moved_overflows(b, o, n as int, plan),
            forall|k: int| 0 <= k < j ==> !#[trigger] misaligned(b, o, k, plan),
        decreases n - j,
    {
        let v = read_ph(out, ph_offset, j, 16, 8);
        if plan.shift_start <= v && v < plan.shift_end {
            let off = read_ph(out, ph_offset, j, 8, 8);
            let al = read_ph(out, ph_offset, j, 48, 8);
            proof {
                assert(moves(b, o, j as int, plan));
            }
            if al != 0 && ((off + ph_ent_size) % al != 0 || (v + ph_ent_size) % al != 0) {
                proof {
                    assert(misaligned(b, o, j as int, plan));
                }
                return Err(PlanError::MisalignedSegment { index: j });
            }
        }
        j = j + 1;
    }
    proof {
        assert(!phdr_overflows(b, o, i0 as int, ph_ent_size as int));
    }
    grow_and_move(out, ph_offset, n, i0, plan, p_filesz, p_memsz);
    Ok(plan)
}

/// The dynamic tags whose values are addresses that move with the window.
pub open spec fn is_address_tag(tag: u32) -> bool {
    tag == 12 || tag == 13 || tag == 3 || tag == 4 || tag == 5 || tag == 6 || tag == 7 || tag == 17
        || tag == 21 || tag == 23 || tag == 25 || tag == 26 || tag == 32 || tag == 34 || (0x6fff_fef5
        <= tag <= 0x6fff_feff) || tag == 0x6fff_fff0 || tag == 0x6fff_fffc || tag == 0x6fff_fffe
}

pub fn address_tag(tag: u32) -> (r: bool)
    ensures
        r == is_address_tag(tag),
{
    tag == 12 || tag == 13 || tag == 3 || tag == 4 || tag == 5 || tag == 6 || tag == 7 || tag == 17
        || tag == 21 || tag == 23 || tag == 25 || tag == 26 || tag == 32 || tag == 34 || (0x6fff_fef5
        <= tag && tag <= 0x6fff_feff) || tag == 0x6fff_fff0 || tag == 0x6fff_fffc || tag == 0x6fff_fffe
}

/// The value `v` after the shift of `plan`.
pub open spec fn shifted(plan: ShiftPlan, v: int) -> int {
    if in_window(plan, v) {
        v + plan.added_data
    } else {
        v
    }
}

/// Moves the address values of the `count` dynamic entries at `dyn_offset`
/// that lie in the shift window.
#[verifier::rlimit(60)]
pub fn shift_dynamic_entries(out: &mut Vec<u8>, dyn_offset: usize, count: usize, plan: ShiftPlan)
    requires
        dyn_offset + 16 * count <= old(out)@.len(),
        plan.shift_end <= u64::MAX / 2,
        plan.added_data <= u64::MAX / 2,
    ensures
        final(out)@.len() == old(out)@.len(),
        forall|x: int| 0 <= x < old(out)@.len() && !(dyn_offset <= x < dyn_offset + 16 * count) ==> final(out)@[x] == old(out)@[x],
        forall|i: int, g: int| 0 <= i < count && 0 <= g < 16 && !(8 <= g < 16) ==> #[trigger] entry_byte(final(out)@, dyn_offset as int, 16, i, g) == entry_byte(old(out)@, dyn_offset as int, 16, i, g),
        forall|i: int| 0 <= i < count ==> {
            let tag = le_at(old(out)@, dyn_offset + 16 * i, 8);
            let v = le_at(old(out)@, dyn_offset + 16 * i + 8, 8);
            &&& #[trigger] le_at(final(out)@, dyn_offset + 16 * i + 8, 8) == if is_address_tag(tag as u64 as u32) {
                shifted(plan, v as int)
            } else {
                v as int
            }
            &&& le_at(final(out)@, dyn_offset + 16 * i, 8) == tag
        },
{
    let ghost orig = out@;
    let len = out.len();
    let mut i: usize = 0;
    while i < count
        invariant
            i <= count,
            len == out@.len(),
            dyn_offset + 16 * count <= out@.len(),
            out@.len() == orig.len(),
            orig == old(out)@,
            plan.shift_end <= u64::MAX / 2,
            plan.added_data <= u64::MAX / 2,
            forall|k: int| dyn_offset + 16 * i <= k < orig.len() ==> out@[k] == orig[k],
            forall|x: int| 0 <= x < dyn_offset ==> out@[x] == orig[x],
            forall|j: int, g: int| 0 <= j < i && 0 <= g < 16 && !(8 <= g < 16) ==> #[trigger] entry_byte(out@, dyn_offset as int, 16, j, g) == entry_byte(orig, dyn_offset as int, 16, j, g),
            forall|j: int| 0 <= j < i ==> {
                let tag = le_at(orig, dyn_offset + 16 * j, 8);
                let v = le_at(orig, dyn_offset + 16 * j + 8, 8);
                &&& #[trigger] le_at(out@, dyn_offset + 16 * j + 8, 8) == if is_address_tag(tag as u64 as u32) {
                    shifted(plan, v as int)
                } else {
                    v as int
                }
                &&& le_at(out@, dyn_offset + 16 * j, 8) == tag
            },
        decreases count - i,
    {
        let ghost before = out@;
        let base = dyn_offset + 16 * i;
        proof {
            assert(out@.subrange(base as int, base + 8) =~= orig.subrange(base as int, base + 8));
            assert(out@.subrange(base + 8, base + 16) =~= orig.subrange(base + 8, base + 16));
        }
        let tag = read_le(out, base, 8);
        let d_val = read_le(out, base + 8, 8);
        if address_tag(tag as u32) && plan.shift_start <= d_val && d_val < plan.shift_end {
            proof {
                lemma_pow256_8();
            }
            write_le(out, base + 8, 8, d_val + plan.added_data);
        }
        proof {
            assert(out@.subrange(base as int, base + 8) =~= before.subrange(base as int, base + 8));
            assert forall|j: int| 0 <= j < i implies #[trigger] le_at(out@, dyn_offset + 16 * j + 8, 8) == le_at(before, dyn_offset + 16 * j + 8, 8) by {
                lemma_le_at_unchanged(out@, before, dyn_offset + 16 * j + 8, 8);
            }
            assert forall|j: int| 0 <= j < i implies #[trigger] le_at(out@, dyn_offset + 16 * j, 8) == le_at(before, dyn_offset + 16 * j, 8) by {
                lemma_le_at_unchanged(out@, before, dyn_offset + 16 * j, 8);
            }
            lemma_le_at_unchanged(out@, orig, dyn_offset + 16 * i, 8);
        }
        proof {
            assert forall|x: int| 0 <= x < orig.len() && !(dyn_offset + 16 * i + 8 <= x < dyn_offset + 16 * i + 16) implies out@[x] == before[x] by {}
            assert forall|j: int, g: int| 0 <= j < i + 1 && 0 <= g < 16 && !(8 <= g < 16) implies #[trigger] entry_byte(out@, dyn_offset as int, 16, j, g) == entry_byte(orig, dyn_offset as int, 16, j, g) by {
                assert(out@[dyn_offset + 16 * j + g] == before[dyn_offset + 16 * j + g]);
                if j < i {
                    assert(entry_byte(before, dyn_offset as int, 16, j, g) == entry_byte(orig, dyn_offset as int, 16, j, g));
                } else {
                    assert(before[dyn_offset + 16 * j + g] == orig[dyn_offset + 16 * j + g]);
                }
            }
        }
        i = i + 1;
    }
}

/// Moves the values of the `count` symbols at `symtab_offset` that lie in the
/// shift window.
pub fn shift_symbol_values(out: &mut Vec<u8>, symtab_offset: usize, count: usize, plan: ShiftPlan)
    requires
        symtab_offset + 24 * count <= old(out)@.len(),
        plan.shift_end <= u64::MAX / 2,
        plan.added_data <= u64::MAX / 2,
    ensures
        final(out)@.len() == old(out)@.len(),
        forall|x: int| 0 <= x < old(out)@.len() && !(symtab_offset <= x < symtab_offset + 24 * count) ==> final(out)@[x] == old(out)@[x],
        forall|i: int, g: int| 0 <= i < count && 0 <= g < 24 && !(8 <= g < 16) ==> #[trigger] entry_byte(final(out)@, symtab_offset as int, 24, i, g) == entry_byte(old(out)@, symtab_offset as int, 24, i, g),
        forall|i: int| 0 <= i < count ==> #[trigger] le_at(final(out)@, symtab_offset + 24 * i + 8, 8) == shifted(
            plan,
            le_at(old(out)@, symtab_offset + 24 * i + 8, 8) as int,
        ),
{
    let ghost orig = out@;
    let len = out.len();
    let mut i: usize = 0;
    while i < count
        invariant
            i <= count,
            len == out@.len(),
            symtab_offset + 24 * count <= out@.len(),
            out@.len() == orig.len(),
            orig == old(out)@,
            plan.shift_end <= u64::MAX / 2,
            plan.added_data <= u64::MAX / 2,
            forall|k: int| symtab_offset + 24 * i <= k < orig.len() ==> out@[k] == orig[k],
            forall|x: int| 0 <= x < symtab_offset ==> out@[x] == orig[x],
            forall|j: int, g: int| 0 <= j < i && 0 <= g < 24 && !(8 <= g < 16) ==> #[trigger] entry_byte(out@, symtab_offset as int, 24, j, g) == entry_byte(orig, symtab_offset as int, 24, j, g),
            forall|j: int| 0 <= j < i ==> #[trigger] le_at(out@, symtab_offset + 24 * j + 8, 8) == shifted(
                plan,
                le_at(orig, symtab_offset + 24 * j + 8, 8) as int,
            ),
        decreases count - i,
    {
        let ghost before = out@;
        let base = symtab_offset + 24 * i + 8;
        proof {
            assert(out@.subrange(base as int, base + 8) =~= orig.subrange(base as int, base + 8));
        }
        let value = read_le(out, base, 8);
        if plan.shift_start <= value && value < plan.shift_end {
            proof {
                lemma_pow256_8();
            }
            write_le(out, base, 8, value + plan.added_data);
        }
        proof {
            assert forall|j: int| 0 <= j < i implies #[trigger] le_at(out@, symtab_offset + 24 * j + 8, 8) == le_at(
                before,
                symtab_offset + 24 * j + 8,
                8,
            ) by {
                assert(out@.subrange(symtab_offset + 24 * j + 8, symtab_offset + 24 * j + 16) =~= before.subrange(symtab_offset + 24 * j + 8, symtab_offset + 24 * j + 16));
            }
        }
        proof {
            assert forall|x: int| 0 <= x < orig.len() && !(symtab_offset + 24 * i + 8 <= x < symtab_offset + 24 * i + 16) implies out@[x] == before[x] by {}
            assert forall|j: int, g: int| 0 <= j < i + 1 && 0 <= g < 24 && !(8 <= g < 16) implies #[trigger] entry_byte(out@, symtab_offset as int, 24, j, g) == entry_byte(orig, symtab_offset as int, 24, j, g) by {
                assert(out@[symtab_offset + 24 * j + g] == before[symtab_offset + 24 * j + g]);
                if j < i {
                    assert(entry_byte(before, symtab_offset as int, 24, j, g) == entry_byte(orig, symtab_offset as int, 24, j, g));
                } else {
                    assert(before[symtab_offset + 24 * j + g] == orig[symtab_offset + 24 * j + g]);
                }
            }
        }
        i = i + 1;
    }
}

/// Kinds of relocation that surgery resolves.
#[derive(Copy, Clone, Debug, PartialEq, Eq, Structural)]
pub enum RelocationKind {
    Relative,
    PltRelative,
    GotRelative,
    Absolute,
    Other,
}

/// The value that a relocation at `reloc_offset` of a section placed at
/// `section_offset` of the new segment (at `segment_vaddr`) receives for a
/// target at segment offset `target_offset`. A relocation through the global
/// offset table refers to the table slot at segment offset `got_offset`.
pub open spec fn relocation_value_spec(
    kind: RelocationKind,
    target_offset: int,
    reloc_offset: int,
    section_offset: int,
    addend: int,
    segment_vaddr: int,
    got_offset: int,
) -> Option<int> {
    match kind {
        RelocationKind::Relative | RelocationKind::PltRelative => Some(
            target_offset - (reloc_offset + section_offset) + addend,
        ),
        RelocationKind::GotRelative => Some(got_offset - (reloc_offset + section_offset) + addend),
        RelocationKind::Absolute => Some(target_offset + segment_vaddr),
        RelocationKind::Other => None,
    }
}

/// Computes the value a relocation receives; `None` for a kind that is not resolved.
pub fn relocation_value(
    kind: RelocationKind,
    target_offset: i64,
    reloc_offset: i64,
    section_offset: i64,
    addend: i64,
    segment_vaddr: i64,
    got_offset: i64,
) -> (r: Option<i64>)
    requires
        -0x1_0000_0000_0000 <= target_offset <= 0x1_0000_0000_0000,
        -0x1_0000_0000_0000 <= reloc_offset <= 0x1_0000_0000_0000,
        -0x1_0000_0000_0000 <= section_offset <= 0x1_0000_0000_0000,
        -0x1_0000_0000_0000 <= addend <= 0x1_0000_0000_0000,
        -0x1_0000_0000_0000 <= segment_vaddr <= 0x1_0000_0000_0000,
        -0x1_0000_0000_0000 <= got_offset <= 0x1_0000_0000_0000,
    ensures
        r == match relocation_value_spec(kind, target_offset as int, reloc_offset as int, section_offset as int, addend as int, segment_vaddr as int, got_offset as int) {
            Some(v) => Some(v as i64),
            None => None::<i64>,
        },
{
    match kind {
        RelocationKind::Relative | RelocationKind::PltRelative => Some(target_offset - (reloc_offset + section_offset) + addend),
        RelocationKind::GotRelative => Some(got_offset - (reloc_offset + section_offset) + addend),
        RelocationKind::Absolute => Some(target_offset + segment_vaddr),
        RelocationKind::Other => None,
    }
}

/// Copies `exec` into `out` with the bytes of `[ph_end, aligned - added)`
/// moved up by `added`, into `[ph_end + added, aligned)`, and the rest from
/// `aligned` on in place. The first `ph_end` bytes of `out` stay.
pub fn copy_shifted(out: &mut Vec<u8>, exec: &Vec<u8>, ph_end: usize, added: usize, aligned: usize)
    requires
        ph_end + added <= aligned <= exec@.len(),
        old(out)@.len() == exec@.len(),
    ensures
        final(out)@.len() == exec@.len(),
        forall|k: int| 0 <= k < ph_end ==> final(out)@[k] == old(out)@[k],
        forall|k: int| ph_end <= k < ph_end + added ==> final(out)@[k] == old(out)@[k],
        forall|k: int| ph_end + added <= k < aligned ==> final(out)@[k] == exec@[k - added],
        forall|k: int| aligned <= k < exec@.len() ==> final(out)@[k] == exec@[k],
{
    let mut k: usize = ph_end + added;
    while k < aligned
        invariant
            ph_end + added <= k <= aligned,
            aligned <= exec@.len(),
            out@.len() == exec@.len(),
            forall|j: int| 0 <= j < ph_end ==> out@[j] == old(out)@[j],
            forall|j: int| ph_end <= j < ph_end + added ==> out@[j] == old(out)@[j],
            forall|j: int| ph_end + added <= j < k ==> out@[j] == exec@[j - added],
        decreases aligned - k,
    {
        out.set(k, exec[k - added]);
        k = k + 1;
    }
    let mut k: usize = aligned;
    while k < exec.len()
        invariant
            aligned <= k <= exec@.len(),
            out@.len() == exec@.len(),
            ph_end + added <= aligned,
            forall|j: int| 0 <= j < ph_end ==> out@[j] == old(out)@[j],
            forall|j: int| ph_end <= j < ph_end + added ==> out@[j] == old(out)@[j],
            forall|j: int| ph_end + added <= j < aligned ==> out@[j] == exec@[j - added],
            forall|j: int| aligned <= j < k ==> out@[j] == exec@[j],
        decreases exec@.len() - k,
    {
        out.set(k, exec[k]);
        k = k + 1;
    }
}

/// Program header `i` of the table at `ph_offset`, as bytes.
pub open spec fn ph_entry(bytes: Seq<u8>, ph_offset: int, i: int) -> Seq<u8> {
    bytes.subrange(ph_offset + 56 * i, ph_offset + 56 * i + 56)
}

/// Deletes program header `i` of the `ph_num` headers at `ph_offset`: the
/// later headers move down by one and the last slot is cleared, ready for a
/// new header.
pub fn remove_program_header(out: &mut Vec<u8>, ph_offset: usize, ph_num: usize, i: usize)
    requires
        i < ph_num,
        ph_offset + 56 * ph_num <= old(out)@.len(),
    ensures
        final(out)@.len() == old(out)@.len(),
        forall|j: int| 0 <= j < i ==> #[trigger] ph_entry(final(out)@, ph_offset as int, j) == ph_entry(old(out)@, ph_offset as int, j),
        forall|j: int| i <= j < ph_num - 1 ==> #[trigger] ph_entry(final(out)@, ph_offset as int, j) == ph_entry(old(out)@, ph_offset as int, j + 1),
        forall|k: int| ph_offset + 56 * (ph_num - 1) <= k < ph_offset + 56 * ph_num ==> final(out)@[k] == 0,
        forall|k: int| 0 <= k < old(out)@.len() && !(ph_offset + 56 * i <= k < ph_offset + 56 * ph_num) ==> final(out)@[k] == old(out)@[k],
{
    let len = out.len();
    let ghost orig = out@;
    let start = ph_offset + 56 * i;
    let last = ph_offset + 56 * (ph_num - 1);
    let end = ph_offset + 56 * ph_num;
    let mut k: usize = start;
    while k < last
        invariant
            start <= k <= last,
            start == ph_offset + 56 * i,
            last == ph_offset + 56 * (ph_num - 1),
            end == last + 56,
            end <= len,
            len == out@.len(),
            orig.len() == len,
            orig == old(out)@,
            forall|j: int| start <= j < k ==> out@[j] == orig[j + 56],
            forall|j: int| 0 <= j < len && !(start <= j < k) ==> out@[j] == orig[j],
        decreases last - k,
    {
        let b = out[k + 56];
        out.set(k, b);
        k = k + 1;
    }
    while k < end
        invariant
            last <= k <= end,
            start <= last,
            start == ph_offset + 56 * i,
            last == ph_offset + 56 * (ph_num - 1),
            end == last + 56,
            end <= len,
            len == out@.len(),
            orig.len() == len,
            orig == old(out)@,
            forall|j: int| start <= j < last ==> out@[j] == orig[j + 56],
            forall|j: int| last <= j < k ==> out@[j] == 0,
            forall|j: int| 0 <= j < len && !(start <= j < k) ==> out@[j] == orig[j],
        decreases end - k,
    {
        out.set(k, 0);
        k = k + 1;
    }
    proof {
        assert forall|j: int| 0 <= j < i implies #[trigger] ph_entry(out@, ph_offset as int, j) == ph_entry(orig, ph_offset as int, j) by {
            assert(ph_entry(out@, ph_offset as int, j) =~= ph_entry(orig, ph_offset as int, j));
        }
        assert forall|j: int| i <= j < ph_num - 1 implies #[trigger] ph_entry(out@, ph_offset as int, j) == ph_entry(orig, ph_offset as int, j + 1) by {
            assert(ph_entry(out@, ph_offset as int, j) =~= ph_entry(orig, ph_offset as int, j + 1));
        }
    }
}

/// A file offset `off` after the shift: moved when it lies between the end of
/// the program headers and the end of the first loaded segment.
pub open spec fn moved_offset(plan: ShiftPlan, ph_end: int, off: int) -> int {
    if ph_end <= off < plan.first_load_aligned_size {
        off + plan.added_data
    } else {
        off
    }
}

/// Moves the file offsets and addresses of the `count` section headers at
/// `sh_offset` that lie in the shifted part of the host.
#[verifier::rlimit(40)]
pub fn shift_section_headers(out: &mut Vec<u8>, sh_offset: usize, count: usize, ph_end: u64, plan: ShiftPlan)
    requires
        sh_offset + 64 * count <= old(out)@.len(),
        plan.shift_end <= u64::MAX / 2,
        plan.first_load_aligned_size <= u64::MAX / 2,
        plan.added_data <= u64::MAX / 2,
    ensures
        final(out)@.len() == old(out)@.len(),
        forall|x: int| 0 <= x < old(out)@.len() && !(sh_offset <= x < sh_offset + 64 * count) ==> final(out)@[x] == old(out)@[x],
        forall|i: int, g: int| 0 <= i < count && 0 <= g < 64 && !(0x10 <= g < 0x20) ==> #[trigger] entry_byte(final(out)@, sh_offset as int, 64, i, g) == entry_byte(old(out)@, sh_offset as int, 64, i, g),
        forall|i: int| 0 <= i < count ==> #[trigger] le_at(final(out)@, sh_offset + 64 * i + 0x18, 8) == moved_offset(
            plan,
            ph_end as int,
            le_at(old(out)@, sh_offset + 64 * i + 0x18, 8) as int,
        ),
        forall|i: int| 0 <= i < count ==> #[trigger] le_at(final(out)@, sh_offset + 64 * i + 0x10, 8) == shifted(
            plan,
            le_at(old(out)@, sh_offset + 64 * i + 0x10, 8) as int,
        ),
{
    let ghost orig = out@;
    let len = out.len();
    let mut i: usize = 0;
    proof {
        lemma_pow256_8();
    }
    while i < count
        invariant
            i <= count,
            len == out@.len(),
            sh_offset + 64 * count <= out@.len(),
            out@.len() == orig.len(),
            orig == old(out)@,
            plan.shift_end <= u64::MAX / 2,
            plan.first_load_aligned_size <= u64::MAX / 2,
            plan.added_data <= u64::MAX / 2,
            crate::elf::pow256(8) == 0x1_0000_0000_0000_0000,
            forall|k: int| sh_offset + 64 * i <= k < orig.len() ==> out@[k] == orig[k],
            forall|x: int| 0 <= x < sh_offset ==> out@[x] == orig[x],
            forall|j: int, g: int| 0 <= j < i && 0 <= g < 64 && !(0x10 <= g < 0x20) ==> #[trigger] entry_byte(out@, sh_offset as int, 64, j, g) == entry_byte(orig, sh_offset as int, 64, j, g),
            forall|j: int| 0 <= j < i ==> #[trigger] le_at(out@, sh_offset + 64 * j + 0x18, 8) == moved_offset(
                plan,
                ph_end as int,
                le_at(orig, sh_offset + 64 * j + 0x18, 8) as int,
            ),
            forall|j: int| 0 <= j < i ==> #[trigger] le_at(out@, sh_offset + 64 * j + 0x10, 8) == shifted(
                plan,
                le_at(orig, sh_offset + 64 * j + 0x10, 8) as int,
            ),
        decreases count - i,
    {
        let ghost before = out@;
        let base = sh_offset + 64 * i;
        proof {
            assert(out@.subrange(base + 0x10, base + 0x18) =~= orig.subrange(base + 0x10, base + 0x18));
            assert(out@.subrange(base + 0x18, base + 0x20) =~= orig.subrange(base + 0x18, base + 0x20));
        }
        let addr = read_le(out, base + 0x10, 8);
        let offset = read_le(out, base + 0x18, 8);
        if ph_end <= offset && offset < plan.first_load_aligned_size {
            write_le(out, base + 0x18, 8, offset + plan.added_data);
        }
        let ghost mid = out@;
        proof {
            assert(out@.subrange(base + 0x10, base + 0x18) =~= before.subrange(base + 0x10, base + 0x18));
        }
        if plan.shift_start <= addr && addr < plan.shift_end {
            write_le(out, base + 0x10, 8, addr + plan.added_data);
        } else {
            assert(out@.subrange(base + 0x10, base + 0x18) =~= orig.subrange(base + 0x10, base + 0x18));
        }
        proof {
            assert(le_at(out@, sh_offset + 64 * i + 0x10, 8) == shifted(plan, le_at(orig, sh_offset + 64 * i + 0x10, 8) as int));
            assert(out@.subrange(base + 0x18, base + 0x20) =~= mid.subrange(base + 0x18, base + 0x20));
            assert forall|j: int| 0 <= j < i implies #[trigger] le_at(out@, sh_offset + 64 * j + 0x18, 8) == le_at(before, sh_offset + 64 * j + 0x18, 8) by {
                assert(out@.subrange(sh_offset + 64 * j + 0x18, sh_offset + 64 * j + 0x20) =~= before.subrange(sh_offset + 64 * j + 0x18, sh_offset + 64 * j + 0x20));
            }
            assert forall|j: int| 0 <= j < i implies #[trigger] le_at(out@, sh_offset + 64 * j + 0x10, 8) == le_at(before, sh_offset + 64 * j + 0x10, 8) by {
                assert(out@.subrange(sh_offset + 64 * j + 0x10, sh_offset + 64 * j + 0x18) =~= before.subrange(sh_offset + 64 * j + 0x10, sh_offset + 64 * j + 0x18));
            }
        }
        proof {
            assert forall|x: int| 0 <= x < orig.len() && !(sh_offset + 64 * i + 0x10 <= x < sh_offset + 64 * i + 0x20) implies out@[x] == before[x] by {}
            assert forall|j: int, g: int| 0 <= j < i + 1 && 0 <= g < 64 && !(0x10 <= g < 0x20) implies #[trigger] entry_byte(out@, sh_offset as int, 64, j, g) == entry_byte(orig, sh_offset as int, 64, j, g) by {
                assert(out@[sh_offset + 64 * j + g] == before[sh_offset + 64 * j + g]);
                if j < i {
                    assert(entry_byte(before, sh_offset as int, 64, j, g) == entry_byte(orig, sh_offset as int, 64, j, g));
                } else {
                    assert(before[sh_offset + 64 * j + g] == orig[sh_offset + 64 * j + g]);
                }
            }
        }
        i = i + 1;
    }
}

/// Writes program header `i` of the table at `ph_offset` as the loadable,
/// readable, writable and executable segment of `size` bytes at file offset
/// `offset` and address `vaddr`, aligned to `align`.
#[verifier::rlimit(40)]
pub fn write_load_segment(out: &mut Vec<u8>, ph_offset: usize, i: usize, offset: u64, vaddr: u64, size: u64, align: u64)
    requires
        ph_offset + 56 * i + 56 <= old(out)@.len(),
    ensures
        final(out)@.len() == old(out)@.len(),
        ph_field(final(out)@, ph_offset as int, i as int, 0, 4) == PT_LOAD,
        ph_field(final(out)@, ph_offset as int, i as int, 4, 4) == 7,
        ph_field(final(out)@, ph_offset as int, i as int, 8, 8) == offset,
        ph_field(final(out)@, ph_offset as int, i as int, 16, 8) == vaddr,
        ph_field(final(out)@, ph_offset as int, i as int, 24, 8) == vaddr,
        ph_field(final(out)@, ph_offset as int, i as int, 32, 8) == size,
        ph_field(final(out)@, ph_offset as int, i as int, 40, 8) == size,
        ph_field(final(out)@, ph_offset as int, i as int, 48, 8) == align,
        forall|k: int| 0 <= k < old(out)@.len() && !(ph_offset + 56 * i <= k < ph_offset + 56 * i + 56) ==> final(out)@[k] == old(out)@[k],
{
    let len = out.len();
    let base = ph_offset + 56 * i;
    proof {
        lemma_pow256_8();
        crate::elf::lemma_pow256_4();
    }
    let ghost o0 = out@;
    write_le(out, base, 4, PT_LOAD);
    let ghost o1 = out@;
    write_le(out, base + 4, 4, 7);
    let ghost o2 = out@;
    write_le(out, base + 8, 8, offset);
    let ghost o3 = out@;
    write_le(out, base + 16, 8, vaddr);
    let ghost o4 = out@;
    write_le(out, base + 24, 8, vaddr);
    let ghost o5 = out@;
    write_le(out, base + 32, 8, size);
    let ghost o6 = out@;
    write_le(out, base + 40, 8, size);
    let ghost o7 = out@;
    write_le(out, base + 48, 8, align);
    proof {
        let f = out@;
        assert(f.subrange(base as int, base + 4) =~= o1.subrange(base as int, base + 4));
        assert(f.subrange(base + 4, base + 8) =~= o2.subrange(base + 4, base + 8));
        assert(f.subrange(base + 8, base + 16) =~= o3.subrange(base + 8, base + 16));
        assert(f.subrange(base + 16, base + 24) =~= o4.subrange(base + 16, base + 24));
        assert(f.subrange(base + 24, base + 32) =~= o5.subrange(base + 24, base + 32));
        assert(f.subrange(base + 32, base + 40) =~= o6.subrange(base + 32, base + 40));
        assert(f.subrange(base + 40, base + 48) =~= o7.subrange(base + 40, base + 48));
    }
}

/// Program-header type of the stack segment, which has no address.
pub const PT_GNU_STACK: u64 = 0x6474_e551;

/// What preprocessing reads off the program headers of the host.
#[derive(Copy, Clone, Debug, PartialEq, Eq, Structural)]
pub struct HeaderSurvey {
    /// The last note segment, if any.
    pub note_index: Option<usize>,
    /// The alignment of the last loadable segment at file offset zero, if any.
    pub load_align: Option<u64>,
    /// The highest end address of a segment (the stack segment aside).
    pub end_vaddr: u64,
}

/// The end address of segment `i`.
pub open spec fn segment_end(bytes: Seq<u8>, ph_offset: int, i: int) -> int {
    (ph_field(bytes, ph_offset, i, 16, 8) + ph_field(bytes, ph_offset, i, 40, 8)) as int
}

/// Surveys the `ph_num` program headers at `ph_offset`; `None` when a segment
/// end overflows the address space.
#[verifier::rlimit(40)]
pub fn survey_program_headers(bytes: &Vec<u8>, ph_offset: usize, ph_num: usize) -> (r: Option<HeaderSurvey>)
    requires
        ph_offset + 56 * ph_num <= bytes@.len(),
    ensures
        r is None <==> exists|j: int|
            0 <= j < ph_num && ph_field(bytes@, ph_offset as int, j, 0, 4) != PT_GNU_STACK && #[trigger] segment_end(bytes@, ph_offset as int, j) > u64::MAX,
        r matches Some(s) ==> {
            &&& match s.note_index {
                Some(i) => i < ph_num && ph_field(bytes@, ph_offset as int, i as int, 0, 4) == PT_NOTE
                    && forall|j: int| i < j < ph_num ==> ph_field(bytes@, ph_offset as int, j, 0, 4) != PT_NOTE,
                None => forall|j: int| 0 <= j < ph_num ==> ph_field(bytes@, ph_offset as int, j, 0, 4) != PT_NOTE,
            }
            &&& match s.load_align {
                Some(a) => exists|i: int|
                    0 <= i < ph_num && #[trigger] is_first_load(bytes@, ph_offset as int, i) && ph_field(bytes@, ph_offset as int, i, 48, 8) == a
                        && forall|j: int| i < j < ph_num ==> !is_first_load(bytes@, ph_offset as int, j),
                None => forall|j: int| 0 <= j < ph_num ==> !is_first_load(bytes@, ph_offset as int, j),
            }
            &&& forall|j: int| 0 <= j < ph_num && ph_field(bytes@, ph_offset as int, j, 0, 4) != PT_GNU_STACK ==> segment_end(bytes@, ph_offset as int, j) <= s.end_vaddr
            &&& (s.end_vaddr == 0 || exists|j: int| 0 <= j < ph_num && ph_field(bytes@, ph_offset as int, j, 0, 4) != PT_GNU_STACK && #[trigger] segment_end(bytes@, ph_offset as int, j) == s.end_vaddr)
        },
{
    let mut note_index: Option<usize> = None;
    let mut load_align: Option<u64> = None;
    let mut end_vaddr: u64 = 0;
    let mut load_at: Ghost<int> = Ghost(0);
    let mut end_at: Ghost<int> = Ghost(0);
    let mut i: usize = 0;
    while i < ph_num
        invariant
            i <= ph_num,
            ph_offset + 56 * ph_num <= bytes@.len(),
            match note_index {
                Some(k) => k < i && ph_field(bytes@, ph_offset as int, k as int, 0, 4) == PT_NOTE
                    && forall|j: int| k < j < i ==> ph_field(bytes@, ph_offset as int, j, 0, 4) != PT_NOTE,
                None => forall|j: int| 0 <= j < i ==> ph_field(bytes@, ph_offset as int, j, 0, 4) != PT_NOTE,
            },
            match load_align {
                Some(a) => 0 <= load_at@ < i && is_first_load(bytes@, ph_offset as int, load_at@)
                    && ph_field(bytes@, ph_offset as int, load_at@, 48, 8) == a
                    && forall|j: int| load_at@ < j < i ==> !is_first_load(bytes@, ph_offset as int, j),
                None => forall|j: int| 0 <= j < i ==> !is_first_load(bytes@, ph_offset as int, j),
            },
            forall|j: int| 0 <= j < i && ph_field(bytes@, ph_offset as int, j, 0, 4) != PT_GNU_STACK ==> segment_end(bytes@, ph_offset as int, j) <= end_vaddr,
            end_vaddr == 0 || (0 <= end_at@ < i && ph_field(bytes@, ph_offset as int, end_at@, 0, 4) != PT_GNU_STACK
                && segment_end(bytes@, ph_offset as int, end_at@) == end_vaddr),
        decreases ph_num - i,
    {
        let p_type = read_ph(bytes, ph_offset, i, 0, 4);
        if p_type == PT_NOTE {
            note_index = Some(i);
        }
        let p_offset = read_ph(bytes, ph_offset, i, 8, 8);
        if p_type == PT_LOAD && p_offset == 0 {
            load_align = Some(read_ph(bytes, ph_offset, i, 48, 8));
            load_at = Ghost(i as int);
        }
        if p_type != PT_GNU_STACK {
            let vaddr = read_ph(bytes, ph_offset, i, 16, 8);
            let memsz = read_ph(bytes, ph_offset, i, 40, 8);
            if vaddr > u64::MAX - memsz {
                assert(segment_end(bytes@, ph_offset as int, i as int) > u64::MAX);
                return None;
            }
            if vaddr + memsz > end_vaddr {
                end_vaddr = vaddr + memsz;
                end_at = Ghost(i as int);
            }
        }
        i = i + 1;
    }
    proof {
        if load_align is Some {
            assert(is_first_load(bytes@, ph_offset as int, load_at@));
        }
        if end_vaddr != 0 {
            assert(segment_end(bytes@, ph_offset as int, end_at@) == end_vaddr);
        }
    }
    Some(HeaderSurvey { note_index, load_align, end_vaddr })
}

/// The end address of section `i` of the table at `sh_offset`.
pub open spec fn section_end(bytes: Seq<u8>, sh_offset: int, i: int) -> int {
    (le_at(bytes, sh_offset + 64 * i + 0x10, 8) + le_at(bytes, sh_offset + 64 * i + 0x20, 8)) as int
}

/// The highest end address of the `sh_num` sections at `sh_offset`; `None`
/// when one overflows the address space.
pub fn sections_end_vaddr(bytes: &Vec<u8>, sh_offset: usize, sh_num: usize) -> (r: Option<u64>)
    requires
        sh_offset + 64 * sh_num <= bytes@.len(),
    ensures
        r is None <==> exists|j: int| 0 <= j < sh_num && #[trigger] section_end(bytes@, sh_offset as int, j) > u64::MAX,
        r matches Some(e) ==> {
            &&& forall|j: int| 0 <= j < sh_num ==> section_end(bytes@, sh_offset as int, j) <= e
            &&& (e == 0 || exists|j: int| 0 <= j < sh_num && #[trigger] section_end(bytes@, sh_offset as int, j) == e)
        },
{
    let len = bytes.len();
    let mut end: u64 = 0;
    let mut end_at: Ghost<int> = Ghost(0);
    let mut i: usize = 0;
    while i < sh_num
        invariant
            i <= sh_num,
            len == bytes@.len(),
            sh_offset + 64 * sh_num <= bytes@.len(),
            forall|j: int| 0 <= j < i ==> section_end(bytes@, sh_offset as int, j) <= end,
            end == 0 || (0 <= end_at@ < i && section_end(bytes@, sh_offset as int, end_at@) == end),
        decreases sh_num - i,
    {
        let addr = read_le(bytes, sh_offset + 64 * i + 0x10, 8);
        let size = read_le(bytes, sh_offset + 64 * i + 0x20, 8);
        if addr > u64::MAX - size {
            assert(section_end(bytes@, sh_offset as int, i as int) > u64::MAX);
            return None;
        }
        if addr + size > end {
            end = addr + size;
            end_at = Ghost(i as int);
        }
        i = i + 1;
    }
    proof {
        if end != 0 {
            assert(section_end(bytes@, sh_offset as int, end_at@) == end);
        }
    }
    Some(end)
}

/// Writes a section header at `at`: an allocated section of program bits
/// with flags `flags`, placed at `addr` in memory and `offset` in the file,
/// of `size` bytes, aligned to sixteen; unnamed and unlinked.
#[verifier::rlimit(40)]
pub fn write_section_header(out: &mut Vec<u8>, at: usize, flags: u64, addr: u64, offset: u64, size: u64)
    requires
        at + 64 <= old(out)@.len(),
    ensures
        final(out)@.len() == old(out)@.len(),
        le_at(final(out)@, at as int, 4) == 0,
        le_at(final(out)@, at + 4, 4) == 1,
        le_at(final(out)@, at + 0x8, 8) == flags,
        le_at(final(out)@, at + 0x10, 8) == addr,
        le_at(final(out)@, at + 0x18, 8) == offset,
        le_at(final(out)@, at + 0x20, 8) == size,
        le_at(final(out)@, at + 0x28, 8) == 0,
        le_at(final(out)@, at + 0x30, 8) == 16,
        le_at(final(out)@, at + 0x38, 8) == 0,
        forall|k: int| 0 <= k < old(out)@.len() && !(at <= k < at + 64) ==> final(out)@[k] == old(out)@[k],
{
    let len = out.len();
    proof {
        lemma_pow256_8();
        crate::elf::lemma_pow256_4();
    }
    write_le(out, at, 4, 0);
    let ghost o0 = out@;
    write_le(out, at + 4, 4, 1);
    let ghost o1 = out@;
    write_le(out, at + 0x8, 8, flags);
    let ghost o2 = out@;
    write_le(out, at + 0x10, 8, addr);
    let ghost o3 = out@;
    write_le(out, at + 0x18, 8, offset);
    let ghost o4 = out@;
    write_le(out, at + 0x20, 8, size);
    let ghost o5 = out@;
    write_le(out, at + 0x28, 8, 0);
    let ghost o6 = out@;
    write_le(out, at + 0x30, 8, 16);
    let ghost o7 = out@;
    write_le(out, at + 0x38, 8, 0);
    proof {
        let f = out@;
        lemma_le_at_unchanged(f, o0, at as int, 4);
        lemma_le_at_unchanged(f, o1, at + 4, 4);
        lemma_le_at_unchanged(f, o2, at + 0x8, 8);
        lemma_le_at_unchanged(f, o3, at + 0x10, 8);
        lemma_le_at_unchanged(f, o4, at + 0x18, 8);
        lemma_le_at_unchanged(f, o5, at + 0x20, 8);
        lemma_le_at_unchanged(f, o6, at + 0x28, 8);
        lemma_le_at_unchanged(f, o7, at + 0x30, 8);
    }
}

/// A recorded branch after the shift: its bytes, and the instruction after
/// it, move with the window they lie in.
pub fn shifted_site(site: SurgeryEntry, ph_end: u64, plan: ShiftPlan) -> (r: SurgeryEntry)
    requires
        plan.added_data <= u64::MAX / 2,
        site.file_offset <= u64::MAX / 2,
        site.virtual_offset <= u64::MAX / 2,
    ensures
        r.file_offset == moved_offset(plan, ph_end as int, site.file_offset as int),
        r.virtual_offset == shifted(plan, site.virtual_offset as int),
        r.size == site.size,
{
    SurgeryEntry {
        file_offset: shifted_offset(site.file_offset, ph_end, plan),
        virtual_offset: shifted_address(site.virtual_offset, plan),
        size: site.size,
    }
}

/// A file offset after the shift.
pub fn shifted_offset(off: u64, ph_end: u64, plan: ShiftPlan) -> (r: u64)
    requires
        plan.added_data <= u64::MAX / 2,
        off <= u64::MAX / 2,
    ensures
        r == moved_offset(plan, ph_end as int, off as int),
{
    if ph_end <= off && off < plan.first_load_aligned_size {
        off + plan.added_data
    } else {
        off
    }
}

/// An address after the shift.
pub fn shifted_address(addr: u64, plan: ShiftPlan) -> (r: u64)
    requires
        plan.added_data <= u64::MAX / 2,
        addr <= u64::MAX / 2,
    ensures
        r == shifted(plan, addr as int),
{
    if plan.shift_start <= addr && addr < plan.shift_end {
        addr + plan.added_data
    } else {
        addr
    }
}

/// Section `j` of the table at `sh_offset` reaches point `p` of the file:
/// `p` lies in it or at its end.
pub open spec fn section_reaches(bytes: Seq<u8>, sh_offset: int, j: int, p: int) -> bool {
    let off = le_at(bytes, sh_offset + 64 * j + 0x18, 8) as int;
    let size = le_at(bytes, sh_offset + 64 * j + 0x20, 8) as int;
    off <= p <= off + size
}

/// Whether one of the `sh_num` sections at `sh_offset` reaches point `p`: then
/// the padding that the shift drops at `p` is not free.
pub fn section_reaches_point(bytes: &Vec<u8>, sh_offset: usize, sh_num: usize, p: u64) -> (r: bool)
    requires
        sh_offset + 64 * sh_num <= bytes@.len(),
    ensures
        r == exists|j: int| 0 <= j < sh_num && #[trigger] section_reaches(bytes@, sh_offset as int, j, p as int),
{
    let len = bytes.len();
    let mut i: usize = 0;
    while i < sh_num
        invariant
            i <= sh_num,
            len == bytes@.len(),
            sh_offset + 64 * sh_num <= bytes@.len(),
            forall|j: int| 0 <= j < i ==> !#[trigger] section_reaches(bytes@, sh_offset as int, j, p as int),
        decreases sh_num - i,
    {
        let off = read_le(bytes, sh_offset + 64 * i + 0x18, 8);
        let size = read_le(bytes, sh_offset + 64 * i + 0x20, 8);
        if off <= p && (size > u64::MAX - off || off + size >= p) {
            assert(section_reaches(bytes@, sh_offset as int, i as int, p as int));
            return true;
        }
        i = i + 1;
    }
    false
}

} // verus!
