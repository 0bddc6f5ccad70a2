use vstd::prelude::*;

verus! {

/// `256` to the power `k`.
pub open spec fn pow256(k: nat) -> nat
    decreases k,
{
    if k == 0 {
        1
    } else {
        256 * pow256((k - 1) as nat)
    }
}

/// The unsigned value of the little-endian bytes `s`.
pub open spec fn le_value(s: Seq<u8>) -> nat
    decreases s.len(),
{
    if s.len() == 0 {
        0
    } else {
        s[0] as nat + 256 * le_value(s.subrange(1, s.len() as int))
    }
}

/// The `n` bytes of `bytes` at `off`, read as a little-endian number.
pub open spec fn le_at(bytes: Seq<u8>, off: int, n: int) -> nat {
    le_value(bytes.subrange(off, off + n))
}

pub proof fn lemma_pow256_positive(k: nat)
    ensures
        pow256(k) >= 1,
    decreases k,
{
    if k > 0 {
        lemma_pow256_positive((k - 1) as nat);
    }
}

/// Appending a byte adds it at the weight of its place.
pub proof fn lemma_le_value_push(s: Seq<u8>, b: u8)
    ensures
        le_value(s.push(b)) == le_value(s) + pow256(s.len()) * b,
    decreases s.len(),
{
    if s.len() == 0 {
        assert(s.push(b).subrange(1, 1) =~= Seq::<u8>::empty());
        assert(le_value(s.push(b).subrange(1, 1)) == 0);
        assert(s.push(b)[0] == b);
        assert(pow256(0) == 1);
        assert(le_value(s) == 0);
    } else {
        let t = s.subrange(1, s.len() as int);
        assert(s.push(b).subrange(1, s.len() + 1 as int) =~= t.push(b));
        lemma_le_value_push(t, b);
        assert(s.push(b)[0] == s[0]);
        assert(le_value(s.push(b)) == s[0] as nat + 256 * le_value(t.push(b)));
        assert(le_value(s) == s[0] as nat + 256 * le_value(t));
        assert(pow256(s.len()) == 256 * pow256(t.len()));
        let p = pow256(t.len());
        let lt = le_value(t);
        let ltb = le_value(t.push(b));
        assert(s[0] as nat + 256 * ltb == s[0] as nat + 256 * lt + (256 * p) * b) by (nonlinear_arith)
            requires
                ltb == lt + p * b,
        ;
    }
}

/// The number at `off` depends on its bytes alone.
pub proof fn lemma_le_at_unchanged(a: Seq<u8>, b: Seq<u8>, off: int, n: int)
    requires
        0 <= off,
        0 <= n,
        off + n <= a.len(),
        a.len() == b.len(),
        forall|k: int| off <= k < off + n ==> a[k] == b[k],
    ensures
        le_at(a, off, n) == le_at(b, off, n),
{
    assert(a.subrange(off, off + n) =~= b.subrange(off, off + n));
}

/// Reads the `n` (at most eight) little-endian bytes of `bytes` at `off`.
pub fn read_le(bytes: &Vec<u8>, off: usize, n: usize) -> (r: u64)
    requires
        n <= 8,
        off + n <= bytes@.len(),
    ensures
        r as nat == le_at(bytes@, off as int, n as int),
{
    let len = bytes.len();
    let mut v: u64 = 0;
    let mut i: usize = n;
    proof {
        assert(bytes@.subrange(off + n, off + n) =~= Seq::<u8>::empty());
        assert(pow256(0) == 1);
    }
    while i > 0
        invariant
            i <= n <= 8,
            off + n <= bytes@.len(),
            len == bytes@.len(),
            v as nat == le_value(bytes@.subrange(off + i, off + n)),
            v < pow256((n - i) as nat),
        decreases i,
    {
        i = i - 1;
        let ghost t = bytes@.subrange(off + i + 1, off + n);
        let ghost s = bytes@.subrange(off + i, off + n);
        proof {
            assert(s.subrange(1, s.len() as int) =~= t);
            assert(pow256((n - i) as nat) == 256 * pow256((n - i - 1) as nat));
            lemma_pow_le_64((n - i) as nat);
            assert(v * 256 + bytes@[off + i] < 256 * pow256((n - i - 1) as nat)) by (nonlinear_arith)
                requires
                    v < pow256((n - i - 1) as nat),
                    bytes@[off + i] < 256,
            ;
        }
        v = v * 256 + bytes[off + i] as u64;
    }
    v
}

pub proof fn lemma_pow256_4()
    ensures
        pow256(4) == 0x1_0000_0000,
{
    assert(pow256(0) == 1);
    assert(pow256(1) == 256);
    assert(pow256(2) == 0x1_0000);
    assert(pow256(3) == 0x100_0000);
}

pub proof fn lemma_pow256_8()
    ensures
        pow256(8) == 0x1_0000_0000_0000_0000,
{
    lemma_pow_le_64(8);
    lemma_pow256_4();
    assert(pow256(5) == 0x100_0000_0000);
    assert(pow256(6) == 0x1_0000_0000_0000);
    assert(pow256(7) == 0x100_0000_0000_0000);
}

/// `256^k` fits a `u64` plus one for `k` up to eight.
pub proof fn lemma_pow_le_64(k: nat)
    requires
        k <= 8,
    ensures
        pow256(k) <= 0x1_0000_0000_0000_0000,
{
    lemma_pow256_4();
    assert(pow256(3) == 0x100_0000);
    assert(pow256(2) == 0x1_0000);
    assert(pow256(1) == 256);
    assert(pow256(5) == 0x100_0000_0000);
    assert(pow256(6) == 0x1_0000_0000_0000);
    assert(pow256(7) == 0x100_0000_0000_0000);
    assert(pow256(8) == 0x1_0000_0000_0000_0000);
    if k == 0 {
    } else if k == 1 {
    } else if k == 2 {
    } else if k == 3 {
    } else if k == 4 {
    } else if k == 5 {
    } else if k == 6 {
    } else if k == 7 {
    } else {
        assert(k == 8);
    }
}

/// Writes `v` as `n` (at most eight) little-endian bytes at `off`; every
/// other byte stays.
#[verifier::rlimit(40)]
pub fn write_le(bytes: &mut Vec<u8>, off: usize, n: usize, v: u64)
    requires
        n <= 8,
        off + n <= old(bytes)@.len(),
        (v as nat) < pow256(n as nat),
    ensures
        final(bytes)@.len() == old(bytes)@.len(),
        le_at(final(bytes)@, off as int, n as int) == v as nat,
        forall|k: int| 0 <= k < old(bytes)@.len() && !(off <= k < off + n) ==> final(bytes)@[k] == old(bytes)@[k],
{
    let len = bytes.len();
    let mut x: u64 = v;
    let mut i: usize = 0;
    proof {
        assert(bytes@.subrange(off as int, off as int) =~= Seq::<u8>::empty());
        assert(le_value(bytes@.subrange(off as int, off as int)) == 0);
        assert(pow256(0) == 1);
        lemma_pow256_positive(n as nat);
    }
    while i < n
        invariant
            i <= n <= 8,
            off + n <= bytes@.len(),
            len == bytes@.len(),
            bytes@.len() == old(bytes)@.len(),
            le_value(bytes@.subrange(off as int, off + i)) + pow256(i as nat) * x == v,
            x < pow256((n - i) as nat),
            forall|k: int| 0 <= k < old(bytes)@.len() && !(off <= k < off + i) ==> bytes@[k] == old(bytes)@[k],
        decreases n - i,
    {
        let b = (x % 256) as u8;
        let ghost s = bytes@.subrange(off as int, off + i);
        bytes.set(off + i, b);
        proof {
            assert(bytes@.subrange(off as int, off + i) =~= s);
            assert(bytes@.subrange(off as int, off + i + 1) =~= s.push(b));
            lemma_le_value_push(s, b);
            assert(pow256((i + 1) as nat) == 256 * pow256(i as nat));
            assert(pow256((n - i) as nat) == 256 * pow256((n - i - 1) as nat));
            assert(pow256(i as nat) * x == pow256(i as nat) * (x % 256) + 256 * pow256(i as nat) * (x / 256)) by (nonlinear_arith);
            assert(x / 256 < pow256((n - i - 1) as nat)) by (nonlinear_arith)
                requires
                    x < 256 * pow256((n - i - 1) as nat),
            ;
        }
        x = x / 256;
        i = i + 1;
    }
    proof {
        lemma_pow256_positive(0);
        assert(pow256(0) == 1);
        assert(x == 0);
    }
}

/// Distance to the next multiple of sixteen, the alignment of functions and
/// sections in the appended segment.
pub const MIN_FUNC_ALIGNMENT: usize = 0x10;

/// Rounds `offset` up to a multiple of sixteen.
pub fn aligned_offset(offset: usize) -> (r: usize)
    requires
        offset <= usize::MAX - 15,
    ensures
        r % 16 == 0,
        offset <= r < offset + 16,
        offset % 16 == 0 ==> r == offset,
{
    if offset % MIN_FUNC_ALIGNMENT == 0 {
        offset
    } else {
        offset + MIN_FUNC_ALIGNMENT - (offset % MIN_FUNC_ALIGNMENT)
    }
}

/// The virtual address of the appended segment: the first address from
/// `last_vaddr` on that shares the residue of `segment_offset` modulo
/// `align`, as the loader needs of a loadable segment.
pub fn new_segment_vaddr(segment_offset: u64, last_vaddr: u64, align: u64) -> (r: u64)
    requires
        align > 0,
        last_vaddr + align <= u64::MAX,
    ensures
        r % align == segment_offset % align,
        last_vaddr <= r < last_vaddr + align,
{
    let remainder = segment_offset % align;
    let vremainder = last_vaddr % align;
    if remainder > vremainder {
        proof {
            assert((last_vaddr + (remainder - vremainder)) as int % align as int == remainder) by (nonlinear_arith)
                requires
                    align > 0,
                    remainder < align,
                    vremainder == last_vaddr % align,
                    remainder > vremainder,
            ;
        }
        last_vaddr + (remainder - vremainder)
    } else if vremainder > remainder {
        proof {
            assert((last_vaddr + ((remainder + align) - vremainder)) as int % align as int == remainder) by (nonlinear_arith)
                requires
                    align > 0,
                    vremainder < align,
                    vremainder == last_vaddr % align,
                    remainder < vremainder,
            ;
        }
        last_vaddr + (align - (vremainder - remainder))
    } else {
        last_vaddr
    }
}

/// A recorded branch whose displacement is rewritten by surgery.
#[derive(Copy, Clone, Debug, PartialEq, Eq, Structural)]
pub struct SurgeryEntry {
    pub file_offset: u64,
    pub virtual_offset: u64,
    pub size: u8,
}

/// The 32-bit displacement from `from` to `to`, as little-endian bytes read
/// back: `to - from` modulo `2^32`.
pub open spec fn disp32(to: int, from: int) -> nat {
    ((to - from) % 0x1_0000_0000) as nat
}

/// Writes the 32-bit displacement `to - from` at `off`.
fn write_disp32(bytes: &mut Vec<u8>, off: usize, to: u64, from: u64)
    requires
        off + 4 <= old(bytes)@.len(),
    ensures
        final(bytes)@.len() == old(bytes)@.len(),
        le_at(final(bytes)@, off as int, 4) == disp32(to as int, from as int),
        forall|k: int| 0 <= k < old(bytes)@.len() && !(off <= k < off + 4) ==> final(bytes)@[k] == old(bytes)@[k],
{
    let d: u64 = if to >= from {
        (to - from) % 0x1_0000_0000
    } else {
        (0x1_0000_0000 - (from - to) % 0x1_0000_0000) % 0x1_0000_0000
    };
    proof {
        lemma_pow256_4();
        assert(d as int == (to as int - from as int) % 0x1_0000_0000) by (nonlinear_arith)
            requires
                to >= from ==> d == (to - from) % 0x1_0000_0000,
                to < from ==> d == (0x1_0000_0000 - (from - to) % 0x1_0000_0000) % 0x1_0000_0000,
        ;
    }
    write_le(bytes, off, 4, d);
}

/// Why surgery cannot go on.
#[derive(Copy, Clone, Debug, PartialEq, Eq, Structural)]
pub enum SurgeryError {
    /// A branch displacement of a width other than four bytes.
    UnsupportedSurgerySize { size: u8 },
    /// A relocation of a width other than 32 or 64 bits.
    UnsupportedRelocationSize { size: u8 },
}

/// Rewrites the displacement of branch `site` so that it reaches `virt`.
pub fn patch_surgery_site(exec: &mut Vec<u8>, site: SurgeryEntry, virt: u64) -> (r: Result<(), SurgeryError>)
    requires
        site.file_offset + 4 <= old(exec)@.len(),
    ensures
        final(exec)@.len() == old(exec)@.len(),
        site.size == 4 <==> r is Ok,
        r is Err ==> r == Err::<(), SurgeryError>(SurgeryError::UnsupportedSurgerySize { size: site.size }) && final(exec)@ == old(exec)@,
        r is Ok ==> le_at(final(exec)@, site.file_offset as int, 4) == disp32(virt as int, site.virtual_offset as int),
        r is Ok ==> forall|k: int| 0 <= k < old(exec)@.len() && !(site.file_offset <= k < site.file_offset + 4) ==> final(exec)@[k] == old(exec)@[k],
{
    let len = exec.len();
    if site.size == 4 {
        write_disp32(exec, site.file_offset as usize, virt, site.virtual_offset);
        Ok(())
    } else {
        Err(SurgeryError::UnsupportedSurgerySize { size: site.size })
    }
}

/// Turns the linkage-table entry at file offset `plt_off` (virtual address
/// `plt_vaddr`) into a direct jump to `virt`, padded with no-ops.
#[verifier::rlimit(40)]
pub fn patch_plt_entry(exec: &mut Vec<u8>, plt_off: usize, plt_vaddr: u64, virt: u64)
    requires
        plt_off + 16 <= old(exec)@.len(),
        plt_vaddr + 5 <= u64::MAX,
    ensures
        final(exec)@.len() == old(exec)@.len(),
        final(exec)@[plt_off as int] == 0xE9,
        le_at(final(exec)@, plt_off + 1, 4) == disp32(virt as int, plt_vaddr + 5),
        forall|k: int| plt_off + 5 <= k < plt_off + 16 ==> final(exec)@[k] == 0x90,
        forall|k: int| 0 <= k < old(exec)@.len() && !(plt_off <= k < plt_off + 16) ==> final(exec)@[k] == old(exec)@[k],
{
    let len = exec.len();
    exec.set(plt_off, 0xE9);
    let ghost first = exec@;
    write_disp32(exec, plt_off + 1, virt, plt_vaddr + 5);
    let ghost mid = exec@;
    assert(mid[plt_off as int] == 0xE9);
    let mut i: usize = 5;
    while i < 16
        invariant
            5 <= i <= 16,
            plt_off + 16 <= exec@.len(),
            len == exec@.len(),
            exec@.len() == mid.len(),
            forall|k: int| 0 <= k < mid.len() && !(plt_off + 5 <= k < plt_off + i) ==> exec@[k] == mid[k],
            forall|k: int| plt_off + 5 <= k < plt_off + i ==> exec@[k] == 0x90,
        decreases 16 - i,
    {
        exec.set(plt_off + i, 0x90);
        i = i + 1;
    }
    assert(exec@.subrange(plt_off + 1, plt_off + 5) =~= mid.subrange(plt_off + 1, plt_off + 5));
    assert forall|k: int| 0 <= k < old(exec)@.len() && !(plt_off <= k < plt_off + 16) implies exec@[k] == old(exec)@[k] by {
        assert(exec@[k] == mid[k]);
        assert(mid[k] == first[k]);
    }
}

/// Tag of a dynamic entry that names a needed library.
pub const DT_NEEDED: u64 = 1;

/// The tag of dynamic entry `i` of the table at `dyn_offset`.
pub open spec fn dyn_tag(bytes: Seq<u8>, dyn_offset: int, i: int) -> nat {
    le_at(bytes, dyn_offset + 16 * i, 8)
}

/// The entry of the dynamic table at `dyn_offset` with index `i`.
pub open spec fn dyn_entry(bytes: Seq<u8>, dyn_offset: int, i: int) -> Seq<u8> {
    bytes.subrange(dyn_offset + 16 * i, dyn_offset + 16 * i + 16)
}

/// Removes entry `index` of the dynamic table of `count` entries (its end
/// marker not counted) at `dyn_offset`: the entries after it, the end marker
/// with them, move down by one.
pub fn remove_dynamic_entry(exec: &mut Vec<u8>, dyn_offset: usize, index: usize, count: usize)
    requires
        index < count,
        dyn_offset + 16 * (count + 1) <= old(exec)@.len(),
    ensures
        final(exec)@.len() == old(exec)@.len(),
        forall|i: int| 0 <= i < index ==> #[trigger] dyn_entry(final(exec)@, dyn_offset as int, i) == dyn_entry(old(exec)@, dyn_offset as int, i),
        forall|i: int| index <= i < count ==> #[trigger] dyn_entry(final(exec)@, dyn_offset as int, i) == dyn_entry(old(exec)@, dyn_offset as int, i + 1),
        forall|k: int| 0 <= k < old(exec)@.len() && !(dyn_offset + 16 * index <= k < dyn_offset + 16 * count) ==> final(exec)@[k] == old(exec)@[k],
{
    let len = exec.len();
    let start = dyn_offset + 16 * index;
    let end = dyn_offset + 16 * count;
    let ghost orig = exec@;
    let mut k: usize = start;
    while k < end
        invariant
            start <= k <= end,
            start == dyn_offset + 16 * index,
            end == dyn_offset + 16 * count,
            end + 16 <= exec@.len(),
            len == exec@.len(),
            exec@.len() == orig.len(),
            forall|j: int| start <= j < k ==> exec@[j] == orig[j + 16],
            forall|j: int| 0 <= j < orig.len() && !(start <= j < k) ==> exec@[j] == orig[j],
        decreases end - k,
    {
        let b = exec[k + 16];
        exec.set(k, b);
        k = k + 1;
    }
    proof {
        assert forall|i: int| index <= i < count implies #[trigger] dyn_entry(exec@, dyn_offset as int, i) == dyn_entry(orig, dyn_offset as int, i + 1) by {
            assert(dyn_entry(exec@, dyn_offset as int, i) =~= dyn_entry(orig, dyn_offset as int, i + 1));
        }
        assert forall|i: int| 0 <= i < index implies #[trigger] dyn_entry(exec@, dyn_offset as int, i) == dyn_entry(orig, dyn_offset as int, i) by {
            assert(dyn_entry(exec@, dyn_offset as int, i) =~= dyn_entry(orig, dyn_offset as int, i));
        }
    }
}

/// The tags of the first `n` dynamic entries.
pub open spec fn dyn_tags(bytes: Seq<u8>, dyn_offset: int, n: int) -> Seq<nat> {
    Seq::new(n as nat, |i: int| dyn_tag(bytes, dyn_offset, i))
}

/// How many of `tags` name a needed library.
pub open spec fn needed_count(tags: Seq<nat>) -> nat
    decreases tags.len(),
{
    if tags.len() == 0 {
        0
    } else {
        needed_count(tags.drop_last()) + if tags.last() == DT_NEEDED {
            1nat
        } else {
            0nat
        }
    }
}

proof fn lemma_needed_count_remove(tags: Seq<nat>, i: int)
    requires
        0 <= i < tags.len(),
    ensures
        needed_count(tags) == needed_count(tags.remove(i)) + if tags[i] == DT_NEEDED {
            1nat
        } else {
            0nat
        },
    decreases tags.len(),
{
    if i == tags.len() - 1 {
        assert(tags.remove(i) =~= tags.drop_last());
    } else {
        lemma_needed_count_remove(tags.drop_last(), i);
        assert(tags.remove(i).drop_last() =~= tags.drop_last().remove(i));
        assert(tags.remove(i).last() == tags.last());
    }
}

/// After the needed-library entry `index` is removed from a dynamic table of
/// `count` entries, the table lists the same tags but that one, and so one
/// fewer needed library.
pub proof fn lemma_remove_dynamic_entry_drops_one_needed(
    before: Seq<u8>,
    after: Seq<u8>,
    dyn_offset: int,
    index: int,
    count: int,
)
    requires
        0 <= index < count,
        0 <= dyn_offset,
        dyn_offset + 16 * (count + 1) <= before.len(),
        after.len() == before.len(),
        dyn_tag(before, dyn_offset, index) == DT_NEEDED,
        forall|i: int| 0 <= i < index ==> #[trigger] dyn_entry(after, dyn_offset, i) == dyn_entry(before, dyn_offset, i),
        forall|i: int| index <= i < count ==> #[trigger] dyn_entry(after, dyn_offset, i) == dyn_entry(before, dyn_offset, i + 1),
    ensures
        dyn_tags(after, dyn_offset, count - 1) == dyn_tags(before, dyn_offset, count).remove(index),
        needed_count(dyn_tags(after, dyn_offset, count - 1)) + 1 == needed_count(dyn_tags(before, dyn_offset, count)),
{
    let ta = dyn_tags(after, dyn_offset, count - 1);
    let tb = dyn_tags(before, dyn_offset, count);
    assert forall|i: int| 0 <= i < count - 1 implies ta[i] == tb.remove(index)[i] by {
        let j = if i < index { i } else { i + 1 };
        assert(dyn_entry(after, dyn_offset, i) == dyn_entry(before, dyn_offset, j));
        assert(after.subrange(dyn_offset + 16 * i, dyn_offset + 16 * i + 8) =~= dyn_entry(after, dyn_offset, i).subrange(0, 8));
        assert(before.subrange(dyn_offset + 16 * j, dyn_offset + 16 * j + 8) =~= dyn_entry(before, dyn_offset, j).subrange(0, 8));
    }
    assert(ta =~= tb.remove(index));
    lemma_needed_count_remove(tb, index);
}

/// The nul-terminated string at `off` of the string table `table` is `name`.
pub open spec fn names_at(table: Seq<u8>, off: int, name: Seq<u8>) -> bool {
    &&& 0 <= off
    &&& off + name.len() < table.len()
    &&& table.subrange(off, off + name.len()) == name
    &&& table[off + name.len()] == 0
}

/// Whether the string at `off` of `table` is `name`.
pub fn name_matches(table: &Vec<u8>, off: u64, name: &Vec<u8>) -> (r: bool)
    ensures
        r == names_at(table@, off as int, name@),
{
    let tlen = table.len();
    let nlen = name.len();
    if off >= tlen as u64 || (tlen as u64 - off) <= nlen as u64 {
        return false;
    }
    let start = off as usize;
    let mut k: usize = 0;
    while k < nlen
        invariant
            k <= nlen,
            nlen == name@.len(),
            tlen == table@.len(),
            start + nlen < tlen,
            start == off,
            forall|j: int| 0 <= j < k ==> table@[start + j] == name@[j],
        decreases nlen - k,
    {
        if table[start + k] != name[k] {
            proof {
                assert(table@.subrange(off as int, off + nlen)[k as int] != name@[k as int]);
            }
            return false;
        }
        k = k + 1;
    }
    assert(table@.subrange(off as int, off + nlen) =~= name@);
    table[start + nlen] == 0
}

/// Why the dummy library cannot be found among the host's needed libraries.
#[derive(Copy, Clone, Debug, PartialEq, Eq, Structural)]
pub enum DynamicError {
    /// The table has no end marker inside the file.
    TableOutOfFile,
    /// No needed-library entry names the library.
    LibraryNotNeeded,
}

/// The value of dynamic entry `i` of the table at `dyn_offset`.
pub open spec fn dyn_val(bytes: Seq<u8>, dyn_offset: int, i: int) -> nat {
    le_at(bytes, dyn_offset + 16 * i + 8, 8)
}

/// Entry `i` of the table names library `name` in string table `dynstr`.
pub open spec fn needs_library(bytes: Seq<u8>, dyn_offset: int, i: int, dynstr: Seq<u8>, name: Seq<u8>) -> bool {
    dyn_tag(bytes, dyn_offset, i) == DT_NEEDED && names_at(dynstr, dyn_val(bytes, dyn_offset, i) as int, name)
}

/// The first `n` entries of the table at `dyn_offset` lie in the file and
/// are not its end marker, and entry `n` runs past the end of the file.
pub open spec fn runs_out_at(bytes: Seq<u8>, dyn_offset: int, n: int) -> bool {
    &&& 0 <= n
    &&& dyn_offset + 16 * (n + 1) > bytes.len()
    &&& forall|j: int| 0 <= j < n ==> dyn_offset + 16 * (j + 1) <= bytes.len() && dyn_tag(bytes, dyn_offset, j) != 0
}

/// Walks the dynamic table at `dyn_offset` to its end marker and returns the
/// index of the (last) needed-library entry that names `name`, with the number
/// of entries before the end marker.
#[verifier::rlimit(40)]
pub fn find_needed_library(exec: &Vec<u8>, dyn_offset: usize, dynstr: &Vec<u8>, name: &Vec<u8>) -> (r: Result<(usize, usize), DynamicError>)
    ensures
        match r {
            Ok((i, n)) => {
                &&& i < n
                &&& dyn_offset + 16 * (n + 1) <= exec@.len()
                &&& dyn_tag(exec@, dyn_offset as int, n as int) == 0
                &&& forall|j: int| 0 <= j < n ==> dyn_tag(exec@, dyn_offset as int, j) != 0
                &&& needs_library(exec@, dyn_offset as int, i as int, dynstr@, name@)
                &&& forall|j: int| i < j < n ==> !needs_library(exec@, dyn_offset as int, j, dynstr@, name@)
            },
            Err(DynamicError::LibraryNotNeeded) => exists|n: int|
                {
                    &&& dyn_offset + 16 * (n + 1) <= exec@.len()
                    &&& dyn_tag(exec@, dyn_offset as int, n) == 0
                    &&& forall|j: int| 0 <= j < n ==> !needs_library(exec@, dyn_offset as int, j, dynstr@, name@)
                },
            Err(DynamicError::TableOutOfFile) => exists|n: int| #[trigger] runs_out_at(exec@, dyn_offset as int, n),
        },
{
    let len = exec.len();
    let mut found: Option<usize> = None;
    let mut idx: usize = 0;
    loop
        invariant
            len == exec@.len(),
            16 * idx <= len,
            idx > 0 ==> dyn_offset + 16 * idx <= len,
            forall|j: int| 0 <= j < idx ==> dyn_tag(exec@, dyn_offset as int, j) != 0,
            match found {
                Some(i) => i < idx && needs_library(exec@, dyn_offset as int, i as int, dynstr@, name@)
                    && forall|j: int| i < j < idx ==> !needs_library(exec@, dyn_offset as int, j, dynstr@, name@),
                None => forall|j: int| 0 <= j < idx ==> !needs_library(exec@, dyn_offset as int, j, dynstr@, name@),
            },
        decreases len - 16 * idx,
    {
        if dyn_offset > len || (len - dyn_offset) / 16 <= idx {
            proof {
                if dyn_offset <= len {
                    let room = (len - dyn_offset) as int;
                    assert(room < 16 * (idx + 1)) by (nonlinear_arith)
                        requires
                            room / 16 <= idx,
                            room >= 0,
                    ;
                }
                assert(dyn_offset + 16 * (idx + 1) > exec@.len());
                assert(runs_out_at(exec@, dyn_offset as int, idx as int));
            }
            return Err(DynamicError::TableOutOfFile);
        }
        proof {
            let room = (len - dyn_offset) as int;
            assert(16 * (idx + 1) <= room) by (nonlinear_arith)
                requires
                    room / 16 > idx,
                    room >= 0,
            ;
        }
        let entry = dyn_offset + 16 * idx;
        let tag = read_le(exec, entry, 8);
        if tag == 0 {
            assert(dyn_tag(exec@, dyn_offset as int, idx as int) == 0);
            assert(dyn_offset + 16 * (idx + 1) <= exec@.len());
            return match found {
                Some(i) => Ok((i, idx)),
                None => Err(DynamicError::LibraryNotNeeded),
            };
        }
        if tag == DT_NEEDED {
            let off = read_le(exec, entry + 8, 8);
            if name_matches(dynstr, off, name) {
                found = Some(idx);
            }
        }
        idx = idx + 1;
    }
}

/// Writes the resolved value `value` of a relocation of `size` bits at
/// `off`: as a little-endian `i32` for 32 bits, an `i64` for 64 bits.
pub fn write_relocation(exec: &mut Vec<u8>, off: usize, size: u8, value: i64) -> (r: Result<(), SurgeryError>)
    requires
        off + 8 <= old(exec)@.len(),
    ensures
        final(exec)@.len() == old(exec)@.len(),
        (size == 32 || size == 64) <==> r is Ok,
        r is Err ==> r == Err::<(), SurgeryError>(SurgeryError::UnsupportedRelocationSize { size }) && final(exec)@ == old(exec)@,
        size == 32 ==> le_at(final(exec)@, off as int, 4) == (value as i32 as u32) as nat,
        size == 64 ==> le_at(final(exec)@, off as int, 8) == (value as u64) as nat,
        r is Ok ==> forall|k: int| 0 <= k < old(exec)@.len() && !(off <= k < off + size / 8) ==> final(exec)@[k] == old(exec)@[k],
{
    proof {
        lemma_pow256_4();
        lemma_pow256_8();
    }
    if size == 32 {
        write_le(exec, off, 4, value as i32 as u32 as u64);
        Ok(())
    } else if size == 64 {
        write_le(exec, off, 8, value as u64);
        Ok(())
    } else {
        Err(SurgeryError::UnsupportedRelocationSize { size })
    }
}

/// Points dynamic symbol `index` of the table at `dynsym_offset` at the
/// function of `size` bytes at `value` in section `shndx`.
pub fn patch_dynamic_symbol(exec: &mut Vec<u8>, dynsym_offset: usize, index: usize, shndx: u16, value: u64, size: u64)
    requires
        dynsym_offset + 24 * index + 24 <= old(exec)@.len(),
    ensures
        final(exec)@.len() == old(exec)@.len(),
        le_at(final(exec)@, dynsym_offset + 24 * index + 6, 2) == shndx,
        le_at(final(exec)@, dynsym_offset + 24 * index + 8, 8) == value,
        le_at(final(exec)@, dynsym_offset + 24 * index + 16, 8) == size,
        forall|k: int| 0 <= k < old(exec)@.len() && !(dynsym_offset + 24 * index + 6 <= k < dynsym_offset + 24 * index + 24) ==> final(exec)@[k] == old(exec)@[k],
{
    let len = exec.len();
    let sym = dynsym_offset + 24 * index;
    proof {
        lemma_pow256_8();
        assert(pow256(2) == 0x1_0000) by {
            assert(pow256(0) == 1);
            assert(pow256(1) == 256);
        }
    }
    write_le(exec, sym + 6, 2, shndx as u64);
    let ghost a = exec@;
    write_le(exec, sym + 8, 8, value);
    let ghost b = exec@;
    write_le(exec, sym + 16, 8, size);
    proof {
        lemma_le_at_unchanged(exec@, a, sym + 6, 2);
        lemma_le_at_unchanged(exec@, b, sym + 8, 8);
    }
}

} // verus!
