use vstd::prelude::*;

verus! {

/// First byte offset of a free chunk `(offset, size)`.
pub open spec fn chunk_start(c: (i32, u32)) -> int {
    c.0 as int
}

/// One past the last byte offset of a free chunk `(offset, size)`.
pub open spec fn chunk_end(c: (i32, u32)) -> int {
    c.0 as int + c.1 as int
}

/// `n` rounded up to a multiple of eight.
pub open spec fn round8(n: int) -> int {
    if n % 8 == 0 {
        n
    } else {
        n + 8 - n % 8
    }
}

/// The free list of a frame of `stack_size` bytes: chunks of the used frame
/// `[-stack_size, 0)`, eight-byte aligned, sorted by offset, and pairwise
/// neither overlapping nor touching.
pub open spec fn chunks_wf(s: Seq<(i32, u32)>, stack_size: int) -> bool {
    &&& 0 <= stack_size <= i32::MAX
    &&& stack_size % 8 == 0
    &&& forall|i: int|
        0 <= i < s.len() ==> {
            &&& #[trigger] s[i].1 > 0
            &&& s[i].0 % 8 == 0
            &&& s[i].1 % 8 == 0
            &&& -stack_size <= s[i].0
            &&& chunk_end(s[i]) <= 0
        }
    &&& forall|i: int, j: int| 0 <= i < j < s.len() ==> chunk_end(#[trigger] s[i]) < chunk_start(#[trigger] s[j])
}

/// Chunk `p` is the smallest chunk of at least `amount` bytes, the first one among equals.
pub open spec fn is_best_fit(s: Seq<(i32, u32)>, amount: int, p: int) -> bool {
    &&& 0 <= p < s.len()
    &&& s[p].1 >= amount
    &&& forall|j: int| 0 <= j < p && #[trigger] s[j].1 >= amount ==> s[j].1 > s[p].1
    &&& forall|j: int| p < j < s.len() && #[trigger] s[j].1 >= amount ==> s[j].1 >= s[p].1
}

/// Some chunk holds at least `amount` bytes.
pub open spec fn any_fit(s: Seq<(i32, u32)>, amount: int) -> bool {
    exists|j: int| 0 <= j < s.len() && #[trigger] s[j].1 >= amount
}

/// The free list after `amount` bytes were taken from the low end of chunk `p`.
pub open spec fn taken_from(s: Seq<(i32, u32)>, p: int, amount: int) -> Seq<(i32, u32)> {
    if s[p].1 == amount {
        s.remove(p)
    } else {
        s.update(p, ((s[p].0 + amount) as i32, (s[p].1 - amount) as u32))
    }
}

/// A claim of `amount` bytes from free list `s` of a frame of `size` bytes
/// returned offset `r` and left free list `s2` of a frame of `size2` bytes:
/// it was cut from the low end of the best fitting chunk, or else the frame
/// grew by the rounded amount and `r` is its new bottom.
pub open spec fn claim_result(
    s: Seq<(i32, u32)>,
    size: int,
    amount: int,
    r: int,
    s2: Seq<(i32, u32)>,
    size2: int,
) -> bool {
    let a = round8(amount);
    if any_fit(s, a) {
        exists|p: int| is_best_fit(s, a, p) && r == s[p].0 && s2 == taken_from(s, p, a) && size2 == size
    } else {
        &&& size2 == size + a
        &&& r == -size2
        &&& s2 == s
    }
}

/// `[o, o + n)` shares no byte with chunk `c`.
pub open spec fn apart(c: (i32, u32), o: int, n: int) -> bool {
    chunk_end(c) <= o || o + n <= chunk_start(c)
}

/// `p` is where a chunk starting at `o` belongs in the sorted list.
pub open spec fn is_insert_pos(s: Seq<(i32, u32)>, o: int, p: int) -> bool {
    &&& 0 <= p <= s.len()
    &&& forall|j: int| 0 <= j < p ==> chunk_start(#[trigger] s[j]) < o
    &&& forall|j: int| p <= j < s.len() ==> chunk_start(#[trigger] s[j]) > o
}

/// The free list after `[o, o + n)` was inserted at position `p`, merged with
/// the neighbours that it exactly touches.
pub open spec fn merged_at(s: Seq<(i32, u32)>, p: int, o: int, n: int) -> Seq<(i32, u32)> {
    let with_prev = p > 0 && chunk_end(s[p - 1]) == o;
    let with_next = p < s.len() && o + n == chunk_start(s[p]);
    if with_prev && with_next {
        s.update(p - 1, (s[p - 1].0, (s[p - 1].1 + n + s[p].1) as u32)).remove(p)
    } else if with_prev {
        s.update(p - 1, (s[p - 1].0, (s[p - 1].1 + n) as u32))
    } else if with_next {
        s.update(p, (o as i32, (s[p].1 + n) as u32))
    } else {
        s.insert(p, (o as i32, n as u32))
    }
}

/// The free list after the chunk `[o, o + n)` was released.
pub open spec fn freed(s: Seq<(i32, u32)>, o: int, n: int) -> Seq<(i32, u32)> {
    merged_at(s, choose|p: int| is_insert_pos(s, o, p), o, n)
}

/// What a release of `[o, o + n)` asks of a frame: a whole number of aligned
/// words inside the used frame, free of every chunk already released.
pub open spec fn can_free(s: Seq<(i32, u32)>, stack_size: int, o: int, n: int) -> bool {
    &&& n > 0
    &&& o % 8 == 0
    &&& n % 8 == 0
    &&& -stack_size <= o
    &&& o + n <= 0
    &&& forall|i: int| 0 <= i < s.len() ==> apart(#[trigger] s[i], o, n)
}

/// The stack frame of one function: its size and the chunks of it that are free.
pub struct StackArena {
    pub free_stack_chunks: Vec<(i32, u32)>,
    pub stack_size: u32,
}

impl StackArena {
    pub open spec fn wf(&self) -> bool {
        chunks_wf(self.free_stack_chunks@, self.stack_size as int)
    }

    /// A claim of `amount` bytes succeeds: a chunk fits, or the frame can grow
    /// without its offsets leaving `i32`.
    pub open spec fn can_claim(&self, amount: int) -> bool {
        &&& amount > 0
        &&& any_fit(self.free_stack_chunks@, round8(amount)) || self.stack_size + round8(amount)
            <= i32::MAX
    }

    pub fn new() -> (r: StackArena)
        ensures
            r.wf(),
            r.free_stack_chunks@.len() == 0,
            r.stack_size == 0,
    {
        StackArena { free_stack_chunks: Vec::new(), stack_size: 0 }
    }

    /// Takes `amount` bytes, rounded up to a multiple of eight, from the best
    /// fitting free chunk, or else from a new region at the bottom of the frame.
    /// Returns the offset of the region.
    #[verifier::rlimit(40)]
    pub fn claim_stack_size(&mut self, amount: u32) -> (r: i32)
        requires
            old(self).wf(),
            old(self).can_claim(amount as int),
        ensures
            final(self).wf(),
            claim_result(
                old(self).free_stack_chunks@,
                old(self).stack_size as int,
                amount as int,
                r as int,
                final(self).free_stack_chunks@,
                final(self).stack_size as int,
            ),
            r % 8 == 0,
            -(final(self).stack_size as int) <= r,
            r + round8(amount as int) <= 0,
            forall|i: int|
                0 <= i < final(self).free_stack_chunks@.len() ==> apart(
                    #[trigger] final(self).free_stack_chunks@[i],
                    r as int,
                    round8(amount as int),
                ),
    {
        let ghost s = self.free_stack_chunks@;
        let ghost a_spec = round8(amount as int);
        proof {
            if any_fit(s, a_spec) {
                let j = choose|j: int| 0 <= j < s.len() && #[trigger] s[j].1 >= a_spec;
                assert(s[j].1 <= self.stack_size);
            }
        }
        let a: u32 = if amount % 8 != 0 {
            amount + 8 - (amount % 8)
        } else {
            amount
        };
        assert(a == a_spec);
        let mut best: Option<usize> = None;
        let mut i: usize = 0;
        let len = self.free_stack_chunks.len();
        while i < len
            invariant
                len == s.len(),
                self.free_stack_chunks@ == s,
                i <= len,
                a == a_spec,
                match best {
                    None => forall|j: int| 0 <= j < i ==> #[trigger] s[j].1 < a,
                    Some(p) => {
                        &&& p < i
                        &&& s[p as int].1 >= a
                        &&& forall|j: int| 0 <= j < p && #[trigger] s[j].1 >= a ==> s[j].1 > s[p as int].1
                        &&& forall|j: int| p < j < i && #[trigger] s[j].1 >= a ==> s[j].1 >= s[p as int].1
                    },
                },
            decreases len - i,
        {
            let size = self.free_stack_chunks[i].1;
            if size >= a {
                match best {
                    None => {
                        best = Some(i);
                    },
                    Some(p) => {
                        if size < self.free_stack_chunks[p].1 {
                            best = Some(i);
                        }
                    },
                }
            }
            i = i + 1;
        }
        match best {
            Some(p) => {
                assert(is_best_fit(s, a as int, p as int));
                let (offset, size) = self.free_stack_chunks[p];
                if size == a {
                    self.free_stack_chunks.remove(p);
                } else {
                    self.free_stack_chunks.set(p, (offset + a as i32, size - a));
                }
                proof {
                    let t = self.free_stack_chunks@;
                    assert(t == taken_from(s, p as int, a as int));
                    assert forall|i: int, j: int| 0 <= i < j < t.len() implies chunk_end(
                        #[trigger] t[i],
                    ) < chunk_start(#[trigger] t[j]) by {
                        if size == a {
                            if i >= p {
                                assert(t[i] == s[i + 1] && t[j] == s[j + 1]);
                            } else if j >= p {
                                assert(t[j] == s[j + 1]);
                            }
                        } else {
                            if i == p as int {
                                assert(chunk_end(s[i]) < chunk_start(s[j]));
                            } else if j == p as int {
                                assert(chunk_end(s[i]) < chunk_start(s[j]));
                            }
                        }
                    }
                    assert forall|i: int| 0 <= i < t.len() implies apart(
                        #[trigger] t[i],
                        offset as int,
                        a as int,
                    ) by {
                        if size == a {
                            if i >= p {
                                assert(t[i] == s[i + 1]);
                                assert(chunk_end(s[p as int]) < chunk_start(s[i + 1]));
                            } else {
                                assert(chunk_end(s[i]) < chunk_start(s[p as int]));
                            }
                        } else {
                            if i > p {
                                assert(chunk_end(s[p as int]) < chunk_start(s[i]));
                            } else if i < p {
                                assert(chunk_end(s[i]) < chunk_start(s[p as int]));
                            }
                        }
                    }
                }
                offset
            },
            None => {
                assert(!any_fit(s, a as int));
                self.stack_size = self.stack_size + a;
                proof {
                    assert forall|i: int| 0 <= i < s.len() implies apart(
                        #[trigger] s[i],
                        -(self.stack_size as int),
                        a as int,
                    ) by {}
                }
                -(self.stack_size as i32)
            },
        }
    }

    /// Returns `[base_offset, base_offset + size)` to the free list, merged with
    /// the free chunks that it exactly touches.
    #[verifier::rlimit(40)]
    pub fn free_stack_chunk(&mut self, base_offset: i32, size: u32)
        requires
            old(self).wf(),
            can_free(
                old(self).free_stack_chunks@,
                old(self).stack_size as int,
                base_offset as int,
                size as int,
            ),
        ensures
            final(self).wf(),
            final(self).stack_size == old(self).stack_size,
            final(self).free_stack_chunks@ == freed(
                old(self).free_stack_chunks@,
                base_offset as int,
                size as int,
            ),
    {
        let ghost s = self.free_stack_chunks@;
        let ghost o = base_offset as int;
        let ghost n = size as int;
        let len = self.free_stack_chunks.len();
        let mut pos: usize = 0;
        while pos < len
            invariant
                len == s.len(),
                self.free_stack_chunks@ == s,
                pos <= len,
                o == base_offset as int,
                forall|j: int| 0 <= j < pos ==> chunk_start(#[trigger] s[j]) < o,
            ensures
                pos == len || chunk_start(s[pos as int]) >= o,
                forall|j: int| 0 <= j < pos ==> chunk_start(#[trigger] s[j]) < o,
            decreases len - pos,
        {
            if self.free_stack_chunks[pos].0 >= base_offset {
                break;
            }
            pos = pos + 1;
        }
        proof {
            assert forall|j: int| pos <= j < s.len() implies chunk_start(#[trigger] s[j]) > o by {
                assert(apart(s[j], o, n));
                if j > pos {
                    assert(chunk_end(s[pos as int]) < chunk_start(s[j]));
                }
            }
            assert(is_insert_pos(s, o, pos as int));
            lemma_insert_pos_unique(s, self.stack_size as int, o, pos as int);
        }
        let with_prev = pos > 0 && self.free_stack_chunks[pos - 1].0 + self.free_stack_chunks[pos
            - 1].1 as i32 == base_offset;
        let with_next = pos < len && base_offset + size as i32 == self.free_stack_chunks[pos].0;
        if with_prev && with_next {
            let (prev_offset, prev_size) = self.free_stack_chunks[pos - 1];
            let next_size = self.free_stack_chunks[pos].1;
            self.free_stack_chunks.set(pos - 1, (prev_offset, prev_size + size + next_size));
            self.free_stack_chunks.remove(pos);
        } else if with_prev {
            let (prev_offset, prev_size) = self.free_stack_chunks[pos - 1];
            self.free_stack_chunks.set(pos - 1, (prev_offset, prev_size + size));
        } else if with_next {
            let next_size = self.free_stack_chunks[pos].1;
            self.free_stack_chunks.set(pos, (base_offset, next_size + size));
        } else {
            self.free_stack_chunks.insert(pos, (base_offset, size));
        }
        proof {
            let t = self.free_stack_chunks@;
            assert(t == merged_at(s, pos as int, o, n));
            lemma_merged_wf(s, self.stack_size as int, pos as int, o, n);
        }
    }
}

/// In a well-formed free list, the place of a new chunk is unique.
pub proof fn lemma_insert_pos_unique(s: Seq<(i32, u32)>, stack_size: int, o: int, p: int)
    requires
        chunks_wf(s, stack_size),
        is_insert_pos(s, o, p),
    ensures
        (choose|q: int| is_insert_pos(s, o, q)) == p,
{
    let q = choose|q: int| is_insert_pos(s, o, q);
    assert(is_insert_pos(s, o, q));
    if q < p {
        assert(chunk_start(s[q]) > o);
    } else if q > p {
        assert(chunk_start(s[p]) > o);
    }
}

/// Inserting a releasable chunk at its place keeps the free list well formed.
#[verifier::rlimit(40)]
pub proof fn lemma_merged_wf(s: Seq<(i32, u32)>, stack_size: int, p: int, o: int, n: int)
    requires
        chunks_wf(s, stack_size),
        can_free(s, stack_size, o, n),
        is_insert_pos(s, o, p),
    ensures
        chunks_wf(merged_at(s, p, o, n), stack_size),
{
    let t = merged_at(s, p, o, n);
    let with_prev = p > 0 && chunk_end(s[p - 1]) == o;
    let with_next = p < s.len() && o + n == chunk_start(s[p]);
    if p > 0 {
        assert(apart(s[p - 1], o, n));
    }
    if p < s.len() {
        assert(apart(s[p], o, n));
    }
    assert forall|i: int, j: int| 0 <= i < j < t.len() implies chunk_end(#[trigger] t[i])
        < chunk_start(#[trigger] t[j]) by {
        if with_prev && with_next {
            let ii = if i >= p { i + 1 } else { i };
            let jj = if j >= p { j + 1 } else { j };
            if i == p - 1 {
                assert(chunk_end(t[i]) == chunk_end(s[p]));
                assert(chunk_end(s[p]) < chunk_start(s[jj]));
            } else if j == p - 1 {
                assert(chunk_end(s[i]) < chunk_start(s[p - 1]));
            } else {
                assert(t[i] == s[ii] && t[j] == s[jj]);
                assert(chunk_end(s[ii]) < chunk_start(s[jj]));
            }
        } else if with_prev {
            if i == p - 1 {
                assert(chunk_end(t[i]) == o + n);
                assert(chunk_start(s[j]) > o);
                if j == p {
                    assert(chunk_end(t[i]) < chunk_start(s[j]));
                } else {
                    assert(chunk_end(s[p]) < chunk_start(s[j]));
                }
            } else if j == p - 1 {
                assert(chunk_end(s[i]) < chunk_start(s[p - 1]));
            } else {
                assert(chunk_end(s[i]) < chunk_start(s[j]));
            }
        } else if with_next {
            if i == p {
                assert(chunk_end(s[p]) < chunk_start(s[j]));
            } else if j == p {
                assert(chunk_end(s[i]) <= o);
                if i == p - 1 {
                    assert(chunk_end(s[i]) != o);
                } else {
                    assert(chunk_end(s[i]) < chunk_start(s[p - 1]));
                }
            } else {
                assert(chunk_end(s[i]) < chunk_start(s[j]));
            }
        } else {
            if i == p {
                if j - 1 == p {
                    assert(o + n != chunk_start(s[p]));
                } else {
                    assert(chunk_end(s[p]) < chunk_start(s[j - 1]));
                }
            } else if j == p {
                assert(chunk_end(s[i]) <= o);
                if i == p - 1 {
                    assert(chunk_end(s[i]) != o);
                } else {
                    assert(chunk_end(s[i]) < chunk_start(s[p - 1]));
                }
            } else if i > p {
                assert(chunk_end(s[i - 1]) < chunk_start(s[j - 1]));
            } else if j > p {
                assert(chunk_end(s[i]) < chunk_start(s[j - 1]));
            } else {
                assert(chunk_end(s[i]) < chunk_start(s[j]));
            }
        }
    }
}

/// A claim served from the free list, released again, leaves the free list as
/// it was.
#[verifier::rlimit(40)]
pub proof fn lemma_claim_free_round_trip(s: Seq<(i32, u32)>, stack_size: int, a: int, p: int)
    requires
        chunks_wf(s, stack_size),
        a > 0,
        a % 8 == 0,
        is_best_fit(s, a, p),
    ensures
        chunks_wf(taken_from(s, p, a), stack_size),
        can_free(taken_from(s, p, a), stack_size, s[p].0 as int, a),
        freed(taken_from(s, p, a), s[p].0 as int, a) == s,
{
    let t = taken_from(s, p, a);
    let o = s[p].0 as int;
    if s[p].1 == a {
        assert forall|i: int, j: int| 0 <= i < j < t.len() implies chunk_end(#[trigger] t[i])
            < chunk_start(#[trigger] t[j]) by {
            let ii = if i >= p { i + 1 } else { i };
            let jj = if j >= p { j + 1 } else { j };
            assert(t[i] == s[ii] && t[j] == s[jj]);
        }
        assert forall|i: int| 0 <= i < t.len() implies apart(#[trigger] t[i], o, a) by {
            if i >= p {
                assert(t[i] == s[i + 1]);
                assert(chunk_end(s[p]) < chunk_start(s[i + 1]));
            } else {
                assert(chunk_end(s[i]) < chunk_start(s[p]));
            }
        }
        assert forall|j: int| p <= j < t.len() implies chunk_start(#[trigger] t[j]) > o by {
            assert(t[j] == s[j + 1]);
            assert(chunk_end(s[p]) < chunk_start(s[j + 1]));
        }
        assert forall|j: int| 0 <= j < p implies chunk_start(#[trigger] t[j]) < o by {
            assert(chunk_end(s[j]) < chunk_start(s[p]));
        }
    } else {
        assert forall|i: int, j: int| 0 <= i < j < t.len() implies chunk_end(#[trigger] t[i])
            < chunk_start(#[trigger] t[j]) by {
            assert(chunk_end(s[i]) < chunk_start(s[j]));
        }
        assert forall|i: int| 0 <= i < t.len() implies apart(#[trigger] t[i], o, a) by {
            if i > p {
                assert(chunk_end(s[p]) < chunk_start(s[i]));
            } else if i < p {
                assert(chunk_end(s[i]) < chunk_start(s[p]));
            }
        }
        assert forall|j: int| p <= j < t.len() implies chunk_start(#[trigger] t[j]) > o by {
            if j > p {
                assert(chunk_end(s[p]) < chunk_start(s[j]));
            }
        }
        assert forall|j: int| 0 <= j < p implies chunk_start(#[trigger] t[j]) < o by {
            assert(chunk_end(s[j]) < chunk_start(s[p]));
        }
    }
    assert(chunks_wf(t, stack_size));
    assert(is_insert_pos(t, o, p));
    lemma_insert_pos_unique(t, stack_size, o, p);
    if p > 0 {
        assert(chunk_end(s[p - 1]) < chunk_start(s[p]));
    }
    if s[p].1 == a {
        if p + 1 < s.len() {
            assert(chunk_end(s[p]) < chunk_start(s[p + 1]));
        }
        assert(merged_at(t, p, o, a) =~= s);
    } else {
        assert(merged_at(t, p, o, a) =~= s);
    }
}

/// Two releasable chunks that exactly touch make one releasable chunk, and
/// both have the place of the lower one.
proof fn lemma_touching_place(s: Seq<(i32, u32)>, stack_size: int, o: int, n: int, m: int) -> (p: int)
    requires
        chunks_wf(s, stack_size),
        can_free(s, stack_size, o, n),
        can_free(s, stack_size, o + n, m),
    ensures
        can_free(s, stack_size, o, n + m),
        is_insert_pos(s, o, p),
        is_insert_pos(s, o + n, p),
        p < s.len() ==> o + n + m <= chunk_start(s[p]),
        p > 0 ==> chunk_end(s[p - 1]) <= o,
{
    lemma_insert_pos_exists(s, stack_size, o, n);
    let p = choose|p: int| is_insert_pos(s, o, p);
    assert forall|j: int| p <= j < s.len() implies chunk_start(#[trigger] s[j]) > o + n by {
        assert(apart(s[j], o + n, m));
        assert(apart(s[j], o, n));
    }
    assert(is_insert_pos(s, o + n, p));
    assert forall|i: int| 0 <= i < s.len() implies apart(#[trigger] s[i], o, n + m) by {
        assert(apart(s[i], o + n, m));
        assert(apart(s[i], o, n));
    }
    if p < s.len() {
        assert(apart(s[p], o + n, m));
    }
    if p > 0 {
        assert(apart(s[p - 1], o, n));
    }
    p
}

/// Releasing a chunk and then the chunk just above it is releasing their union.
#[verifier::rlimit(40)]
proof fn lemma_free_low_then_high(s: Seq<(i32, u32)>, stack_size: int, o: int, n: int, m: int)
    requires
        chunks_wf(s, stack_size),
        can_free(s, stack_size, o, n),
        can_free(s, stack_size, o + n, m),
    ensures
        can_free(freed(s, o, n), stack_size, o + n, m),
        freed(freed(s, o, n), o + n, m) == freed(s, o, n + m),
{
    let p = lemma_touching_place(s, stack_size, o, n, m);
    lemma_insert_pos_unique(s, stack_size, o, p);
    lemma_insert_pos_unique(s, stack_size, o + n, p);
    let with_prev = p > 0 && chunk_end(s[p - 1]) == o;
    let s1 = freed(s, o, n);
    let q = if with_prev { p } else { p + 1 };
    assert(is_insert_pos(s1, o + n, q)) by {
        assert forall|j: int| q <= j < s1.len() implies chunk_start(#[trigger] s1[j]) > o + n by {
            if with_prev {
                assert(s1[j] == s[j]);
            } else {
                assert(s1[j] == s[j - 1]);
            }
        }
        assert forall|j: int| 0 <= j < q implies chunk_start(#[trigger] s1[j]) < o + n by {
            if !with_prev && j < p {
                assert(s1[j] == s[j]);
            }
        }
    }
    lemma_merged_wf(s, stack_size, p, o, n);
    lemma_insert_pos_unique(s1, stack_size, o + n, q);
    assert forall|i: int| 0 <= i < s1.len() implies apart(#[trigger] s1[i], o + n, m) by {
        if with_prev {
            if i != p - 1 {
                assert(s1[i] == s[i]);
            }
        } else {
            if i < p {
                assert(s1[i] == s[i]);
            } else if i > p {
                assert(s1[i] == s[i - 1]);
            }
        }
    }
    assert(freed(s1, o + n, m) =~= freed(s, o, n + m));
}

/// Releasing a chunk and then the chunk just below it is releasing their union.
#[verifier::rlimit(40)]
proof fn lemma_free_high_then_low(s: Seq<(i32, u32)>, stack_size: int, o: int, n: int, m: int)
    requires
        chunks_wf(s, stack_size),
        can_free(s, stack_size, o, n),
        can_free(s, stack_size, o + n, m),
    ensures
        can_free(freed(s, o + n, m), stack_size, o, n),
        freed(freed(s, o + n, m), o, n) == freed(s, o, n + m),
{
    let p = lemma_touching_place(s, stack_size, o, n, m);
    lemma_insert_pos_unique(s, stack_size, o, p);
    lemma_insert_pos_unique(s, stack_size, o + n, p);
    let with_next = p < s.len() && o + n + m == chunk_start(s[p]);
    let s2 = freed(s, o + n, m);
    assert(is_insert_pos(s2, o, p)) by {
        assert forall|j: int| p <= j < s2.len() implies chunk_start(#[trigger] s2[j]) > o by {
            if with_next {
                if j > p {
                    assert(s2[j] == s[j]);
                }
            } else {
                if j > p {
                    assert(s2[j] == s[j - 1]);
                }
            }
        }
        assert forall|j: int| 0 <= j < p implies chunk_start(#[trigger] s2[j]) < o by {
            assert(s2[j] == s[j]);
        }
    }
    lemma_merged_wf(s, stack_size, p, o + n, m);
    lemma_insert_pos_unique(s2, stack_size, o, p);
    assert forall|i: int| 0 <= i < s2.len() implies apart(#[trigger] s2[i], o, n) by {
        if with_next {
            if i != p {
                assert(s2[i] == s[i]);
            }
        } else {
            if i < p {
                assert(s2[i] == s[i]);
            } else if i > p {
                assert(s2[i] == s[i - 1]);
            }
        }
    }
    assert(freed(s2, o, n) =~= freed(s, o, n + m));
}

/// After a release of `[o, o + n)`, one free chunk covers it.
pub proof fn lemma_freed_covers(s: Seq<(i32, u32)>, stack_size: int, o: int, n: int) -> (k: int)
    requires
        chunks_wf(s, stack_size),
        can_free(s, stack_size, o, n),
    ensures
        0 <= k < freed(s, o, n).len(),
        chunk_start(freed(s, o, n)[k]) <= o,
        o + n <= chunk_end(freed(s, o, n)[k]),
{
    lemma_insert_pos_exists(s, stack_size, o, n);
    let p = choose|p: int| is_insert_pos(s, o, p);
    let with_prev = p > 0 && chunk_end(s[p - 1]) == o;
    if with_prev {
        p - 1
    } else {
        p
    }
}

/// Releasing two chunks that exactly touch, in either order, gives one free
/// list, and in it one chunk covers both.
pub proof fn lemma_free_touching_commutes(s: Seq<(i32, u32)>, stack_size: int, o: int, n: int, m: int)
    requires
        chunks_wf(s, stack_size),
        can_free(s, stack_size, o, n),
        can_free(s, stack_size, o + n, m),
    ensures
        can_free(freed(s, o, n), stack_size, o + n, m),
        can_free(freed(s, o + n, m), stack_size, o, n),
        freed(freed(s, o, n), o + n, m) == freed(freed(s, o + n, m), o, n),
        exists|k: int|
            0 <= k < freed(freed(s, o, n), o + n, m).len() && chunk_start(
                #[trigger] freed(freed(s, o, n), o + n, m)[k],
            ) <= o && o + n + m <= chunk_end(freed(freed(s, o, n), o + n, m)[k]),
{
    lemma_free_low_then_high(s, stack_size, o, n, m);
    lemma_free_high_then_low(s, stack_size, o, n, m);
    lemma_touching_place(s, stack_size, o, n, m);
    let k = lemma_freed_covers(s, stack_size, o, n + m);
    assert(chunk_start(freed(s, o, n + m)[k]) <= o);
}

/// A releasable chunk has a place in a well-formed free list.
pub proof fn lemma_insert_pos_exists(s: Seq<(i32, u32)>, stack_size: int, o: int, n: int)
    requires
        chunks_wf(s, stack_size),
        can_free(s, stack_size, o, n),
    ensures
        exists|p: int| is_insert_pos(s, o, p),
    decreases s.len(),
{
    if s.len() == 0 {
        assert(is_insert_pos(s, o, 0));
    } else {
        let last = s.len() - 1;
        assert(apart(s[last], o, n));
        if chunk_start(s[last]) < o {
            assert forall|j: int| 0 <= j < s.len() implies chunk_start(#[trigger] s[j]) < o by {
                if j < last {
                    assert(chunk_end(s[j]) < chunk_start(s[last]));
                }
            }
            assert(is_insert_pos(s, o, s.len() as int));
        } else {
            let t = s.drop_last();
            assert(chunks_wf(t, stack_size)) by {
                assert forall|i: int, j: int| 0 <= i < j < t.len() implies chunk_end(
                    #[trigger] t[i],
                ) < chunk_start(#[trigger] t[j]) by {
                    assert(t[i] == s[i] && t[j] == s[j]);
                }
            }
            assert(can_free(t, stack_size, o, n)) by {
                assert forall|i: int| 0 <= i < t.len() implies apart(#[trigger] t[i], o, n) by {
                    assert(t[i] == s[i]);
                }
            }
            lemma_insert_pos_exists(t, stack_size, o, n);
            let q = choose|q: int| is_insert_pos(t, o, q);
            assert(chunk_start(s[last]) > o);
            assert(is_insert_pos(s, o, q)) by {
                assert forall|j: int| q <= j < s.len() implies chunk_start(#[trigger] s[j]) > o by {
                    if j < last {
                        assert(t[j] == s[j]);
                    }
                }
                assert forall|j: int| 0 <= j < q implies chunk_start(#[trigger] s[j]) < o by {
                    assert(t[j] == s[j]);
                }
            }
        }
    }
}

/// Byte `x` lies in some chunk of `s`.
pub open spec fn in_some_chunk(s: Seq<(i32, u32)>, x: int) -> bool {
    exists|k: int| 0 <= k < s.len() && chunk_start(#[trigger] s[k]) <= x < chunk_end(s[k])
}

/// Every byte that lies in a chunk of `s` lies in a chunk of `freed(s, o, n)`,
/// and so does every byte of `[o, o + n)`.
#[verifier::rlimit(40)]
pub proof fn lemma_freed_keeps_cover(s: Seq<(i32, u32)>, stack_size: int, o: int, n: int, x: int)
    requires
        chunks_wf(s, stack_size),
        can_free(s, stack_size, o, n),
        in_some_chunk(s, x) || (o <= x < o + n),
    ensures
        in_some_chunk(freed(s, o, n), x),
{
    lemma_insert_pos_exists(s, stack_size, o, n);
    let p = choose|p: int| is_insert_pos(s, o, p);
    lemma_insert_pos_unique(s, stack_size, o, p);
    let t = freed(s, o, n);
    let with_prev = p > 0 && chunk_end(s[p - 1]) == o;
    let with_next = p < s.len() && o + n == chunk_start(s[p]);
    if o <= x < o + n {
        let k = lemma_freed_covers(s, stack_size, o, n);
        assert(chunk_start(t[k]) <= x < chunk_end(t[k]));
    } else {
        let k = choose|k: int| 0 <= k < s.len() && chunk_start(#[trigger] s[k]) <= x < chunk_end(s[k]);
        if with_prev && with_next {
            if k < p - 1 {
                assert(t[k] == s[k]);
            } else if k == p - 1 || k == p {
                assert(chunk_start(t[p - 1]) <= x < chunk_end(t[p - 1]));
            } else {
                assert(t[k - 1] == s[k]);
            }
        } else if with_prev {
            if k == p - 1 {
                assert(chunk_start(t[p - 1]) <= x < chunk_end(t[p - 1]));
            } else {
                assert(t[k] == s[k]);
            }
        } else if with_next {
            if k == p {
                assert(chunk_start(t[p]) <= x < chunk_end(t[p]));
            } else {
                assert(t[k] == s[k]);
            }
        } else {
            if k < p {
                assert(t[k] == s[k]);
            } else {
                assert(t[k + 1] == s[k]);
            }
        }
    }
}

/// A byte of a chunk of `s` that a claim did not take stays in a chunk.
pub proof fn lemma_claim_keeps_cover(
    s: Seq<(i32, u32)>,
    size: int,
    a: int,
    r: int,
    s2: Seq<(i32, u32)>,
    size2: int,
    x: int,
)
    requires
        chunks_wf(s, size),
        a > 0,
        a % 8 == 0,
        claim_result(s, size, a, r, s2, size2),
        in_some_chunk(s, x) || (-size2 <= x < -size),
        !(r <= x < r + a),
    ensures
        in_some_chunk(s2, x),
{
    assert(round8(a) == a);
    if any_fit(s, a) {
        let p = choose|p: int| is_best_fit(s, a, p) && r == s[p].0 && s2 == taken_from(s, p, a) && size2 == size;
        let k = choose|k: int| 0 <= k < s.len() && chunk_start(#[trigger] s[k]) <= x < chunk_end(s[k]);
        if s[p].1 == a {
            if k < p {
                assert(s2[k] == s[k]);
            } else if k > p {
                assert(s2[k - 1] == s[k]);
            }
        } else {
            if k == p {
                assert(chunk_start(s2[p]) <= x < chunk_end(s2[p]));
            } else {
                assert(s2[k] == s[k]);
            }
        }
    } else {
        let k = choose|k: int| 0 <= k < s.len() && chunk_start(#[trigger] s[k]) <= x < chunk_end(s[k]);
        assert(s2[k] == s[k]);
    }
}

/// When chunks cover every byte of a non-empty frame, the free list is the one
/// chunk `(-stack_size, stack_size)`.
pub proof fn lemma_full_cover_is_one_chunk(s: Seq<(i32, u32)>, stack_size: int)
    requires
        chunks_wf(s, stack_size),
        stack_size > 0,
        forall|x: int| -stack_size <= x < 0 ==> #[trigger] in_some_chunk(s, x),
    ensures
        s == seq![((-stack_size) as i32, stack_size as u32)],
{
    assert(in_some_chunk(s, -stack_size));
    let k0 = choose|k: int| 0 <= k < s.len() && chunk_start(#[trigger] s[k]) <= -stack_size < chunk_end(s[k]);
    if k0 > 0 {
        assert(chunk_end(s[0]) < chunk_start(s[k0]));
    }
    assert(k0 == 0);
    assert(chunk_start(s[0]) == -stack_size);
    if s.len() > 1 {
        let gap = chunk_end(s[0]);
        assert(chunk_end(s[0]) < chunk_start(s[1]));
        assert(s[1].1 > 0 && chunk_end(s[1]) <= 0);
        assert(s[0].1 > 0);
        assert(-stack_size <= gap < 0);
        assert(in_some_chunk(s, gap));
        let k = choose|k: int| 0 <= k < s.len() && chunk_start(#[trigger] s[k]) <= gap < chunk_end(s[k]);
        if k > 0 {
            assert(chunk_end(s[0]) < chunk_start(s[k]));
        }
    }
    assert(s.len() == 1);
    if chunk_end(s[0]) < 0 {
        let gap = chunk_end(s[0]);
        assert(-stack_size <= gap < 0);
        assert(in_some_chunk(s, gap));
        let k = choose|k: int| 0 <= k < s.len() && chunk_start(#[trigger] s[k]) <= gap < chunk_end(s[k]);
        assert(k == 0);
    }
    assert(s =~= seq![((-stack_size) as i32, stack_size as u32)]);
}

} // verus!
