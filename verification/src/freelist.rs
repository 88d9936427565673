//! Free-list allocator: serves requests by first-fit search over a
//! list of free regions, splitting a region when the leftover space is
//! large enough to host a region record of its own. Released blocks
//! are reinserted at the head of the list; adjacent free regions are
//! never merged, so the arena fragments as traffic proceeds — an
//! accepted limitation of the strategy.
//!
//! An intrusive list would store each record inside the free bytes it
//! describes; here the list is a side table of arena-relative offsets,
//! and every region the table describes is still required to be able
//! to host one record, so the intrusive embedding stays possible.

use vstd::prelude::*;

verus! {

use crate::layout::{AllocError, Layout, is_pow2, lemma_mod_add_zero, lemma_pad_up_properties,
    lemma_pow2_multiple, lemma_mod_transfer, pad_up};
use crate::region::{lemma_disjoint_sub, lemma_disjoint_sum_bounded, lemma_remove_rest_disjoint,
    lemma_sum_take_le, lemma_sum_take_succ, pairwise_disjoint, region_disjoint, regions_within,
    sum_sizes};

/// Arena capacity used when no other size is called for.
pub const DEFAULT_SIZE: usize = 128 * 1024;

/// Bytes a free region must be able to host for its bookkeeping
/// record: a size word and a next link.
pub const NODE_SIZE: usize = 16;

/// Alignment of a region record, and the least alignment of every
/// block this allocator hands out.
pub const NODE_ALIGN: usize = 8;

/// One free region of the arena: `size` bytes starting at offset
/// `start`.
#[derive(Clone, Copy, Debug)]
pub struct ListNode {
    pub start: usize,
    pub size: usize,
}

impl ListNode {
    /// A record describing the free region `[start, start + size)`.
    pub fn new(start: usize, size: usize) -> (r: ListNode)
        ensures
            r.start == start,
            r.size == size,
    {
        ListNode { start, size }
    }

    /// The offset where the region begins.
    pub fn start_addr(&self) -> (r: usize)
        ensures
            r == self.start,
    {
        self.start
    }

    /// Whether this region can serve a request of `size` bytes: it
    /// must be large enough, and carving the request out of it must
    /// leave either nothing or enough space to host a region record —
    /// a smaller remainder would fall out of the list's reach.
    pub open spec fn suitable_spec(self, size: int) -> bool {
        size <= self.size && (self.size - size == 0 || self.size - size >= NODE_SIZE)
    }

    /// Runtime check matching `suitable_spec`.
    pub fn suitable_for(&self, size: usize) -> (r: bool)
        ensures
            r == self.suitable_spec(size as int),
    {
        if size <= self.size {
            let excess = self.size - size;
            excess == 0 || excess >= NODE_SIZE
        } else {
            false
        }
    }
}

/// The region pairs (start, size) described by a list of records.
pub open spec fn free_pairs(s: Seq<ListNode>) -> Seq<(int, int)> {
    s.map_values(|n: ListNode| (n.start as int, n.size as int))
}

/// The index of the first region of `rs` that can serve a request of
/// `size` bytes, if any: the first-fit policy.
pub open spec fn first_fit(rs: Seq<ListNode>, size: int) -> Option<int>
    decreases rs.len(),
{
    if rs.len() == 0 {
        None
    } else if rs[0].suitable_spec(size) {
        Some(0)
    } else {
        match first_fit(rs.drop_first(), size) {
            Some(i) => Some(i + 1),
            None => None,
        }
    }
}

/// What the first-fit index means: it points at a suitable region,
/// everything before it is unsuitable, and a `None` means nothing
/// suits.
pub proof fn lemma_first_fit_characterization(rs: Seq<ListNode>, size: int)
    ensures
        match first_fit(rs, size) {
            Some(i) => 0 <= i < rs.len() && rs[i].suitable_spec(size)
                && forall|k: int| #![trigger rs[k]] 0 <= k < i ==> !rs[k].suitable_spec(size),
            None => forall|k: int| #![trigger rs[k]] 0 <= k < rs.len()
                ==> !rs[k].suitable_spec(size),
        },
    decreases rs.len(),
{
    if rs.len() > 0 && !rs[0].suitable_spec(size) {
        let tail = rs.drop_first();
        lemma_first_fit_characterization(tail, size);
        match first_fit(tail, size) {
            Some(i0) => {
                assert(rs[i0 + 1] == tail[i0]);
                assert forall|k: int| #![trigger rs[k]] 0 <= k < i0 + 1
                    implies !rs[k].suitable_spec(size) by {
                    if k > 0 {
                        assert(rs[k] == tail[k - 1]);
                    }
                }
            },
            None => {
                assert forall|k: int| #![trigger rs[k]] 0 <= k < rs.len()
                    implies !rs[k].suitable_spec(size) by {
                    if k > 0 {
                        assert(rs[k] == tail[k - 1]);
                    }
                }
            },
        }
    }
}

/// Collections of regions the allocator may track: each inside the
/// arena, able to host a region record, aligned for one, and no two
/// overlapping.
pub open spec fn regions_ok(s: Seq<(int, int)>, cap: int) -> bool {
    &&& regions_within(s, cap)
    &&& forall|i: int| #![trigger s[i]] 0 <= i < s.len()
        ==> s[i].0 % (NODE_ALIGN as int) == 0 && NODE_SIZE <= s[i].1
    &&& pairwise_disjoint(s)
}

/// Removing a region keeps a collection ok.
pub proof fn lemma_regions_ok_remove(s: Seq<(int, int)>, cap: int, i: int)
    requires
        regions_ok(s, cap),
        0 <= i < s.len(),
    ensures
        regions_ok(s.remove(i), cap),
{
    let rest = s.remove(i);
    assert(forall|k: int| #![trigger rest[k]] 0 <= k < rest.len()
        ==> rest[k] == (if k < i { s[k] } else { s[k + 1] }));
    assert forall|a: int, b: int|
        0 <= a < rest.len() && 0 <= b < rest.len() && a != b
        implies region_disjoint(#[trigger] rest[a], #[trigger] rest[b]) by {
        let a0 = if a < i { a } else { a + 1 };
        let b0 = if b < i { b } else { b + 1 };
        assert(rest[a] == s[a0]);
        assert(rest[b] == s[b0]);
    }
}

/// Adding a region that fits the arena, can host a record, is aligned
/// and overlaps nothing keeps a collection ok, wherever it is added.
pub proof fn lemma_regions_ok_insert(s: Seq<(int, int)>, cap: int, at: int, x: (int, int))
    requires
        regions_ok(s, cap),
        0 <= at <= s.len(),
        0 <= x.0,
        x.0 + x.1 <= cap,
        x.0 % (NODE_ALIGN as int) == 0,
        NODE_SIZE <= x.1,
        forall|k: int| #![trigger s[k]] 0 <= k < s.len() ==> region_disjoint(x, s[k]),
    ensures
        regions_ok(s.insert(at, x), cap),
{
    let grown = s.insert(at, x);
    assert(forall|k: int| #![trigger grown[k]] 0 <= k < grown.len()
        ==> grown[k] == (if k < at { s[k] } else if k == at { x } else { s[k - 1] }));
    assert forall|a: int, b: int|
        0 <= a < grown.len() && 0 <= b < grown.len() && a != b
        implies region_disjoint(#[trigger] grown[a], #[trigger] grown[b]) by {
        if a != at && b != at {
            let a0 = if a < at { a } else { a - 1 };
            let b0 = if b < at { b } else { b - 1 };
            assert(grown[a] == s[a0]);
            assert(grown[b] == s[b0]);
        } else if a == at {
            let b0 = if b < at { b } else { b - 1 };
            assert(grown[b] == s[b0]);
        } else {
            let a0 = if a < at { a } else { a - 1 };
            assert(grown[a] == s[a0]);
        }
    }
}

/// The free-list allocator's state: the arena capacity, the table of
/// free regions in list order (head first), and whether the lazy
/// first-use initialization has happened.
pub struct FreeListImpl {
    pub capacity: usize,
    pub regions: Vec<ListNode>,
    pub initialized: bool,
    /// Blocks currently handed out, as (offset, adjusted size).
    pub allocated: Ghost<Seq<(int, int)>>,
}

impl FreeListImpl {
    /// Every region the allocator tracks, free ones first.
    pub open spec fn all_pairs(self) -> Seq<(int, int)> {
        free_pairs(self.regions@) + self.allocated@
    }

    /// Internal consistency: all tracked regions are ok for this
    /// arena, and nothing is tracked before initialization.
    pub open spec fn wf(self) -> bool {
        &&& regions_ok(self.all_pairs(), self.capacity as int)
        &&& !self.initialized ==> self.regions@.len() == 0 && self.allocated@.len() == 0
    }

    /// The free list that the next allocation will see: the current
    /// one, or the single region spanning the whole arena that lazy
    /// initialization installs (none at all if the arena cannot even
    /// host one record).
    pub open spec fn spec_init_regions(self) -> Seq<ListNode> {
        if self.initialized {
            self.regions@
        } else if self.capacity >= NODE_SIZE {
            seq![ListNode { start: 0, size: self.capacity }]
        } else {
            Seq::empty()
        }
    }

    /// A fresh, uninitialized allocator over an arena of `capacity`
    /// bytes.
    pub fn new(capacity: usize) -> (r: FreeListImpl)
        ensures
            r.wf(),
            r.capacity == capacity,
            !r.initialized,
            r.regions@.len() == 0,
            r.allocated@.len() == 0,
    {
        FreeListImpl {
            capacity,
            regions: Vec::new(),
            initialized: false,
            allocated: Ghost(Seq::empty()),
        }
    }

    /// Number of free regions in the list.
    pub fn free_list_length(&self) -> (r: usize)
        ensures
            r == self.regions@.len(),
    {
        self.regions.len()
    }

    /// The layout an allocation is actually served with: at least a
    /// region record's size and alignment, so a released block can
    /// host its free-list record again.
    pub open spec fn spec_adjusted(layout: Layout) -> Layout {
        Layout {
            size: if layout.size >= NODE_SIZE { layout.size } else { NODE_SIZE },
            align: if layout.align >= NODE_ALIGN { layout.align } else { NODE_ALIGN },
        }
    }

    /// The padded size of the adjusted layout: what first-fit search,
    /// splitting and release all work with.
    pub open spec fn adjusted_size(layout: Layout) -> int {
        pad_up(
            Self::spec_adjusted(layout).size as int,
            Self::spec_adjusted(layout).align as int,
        )
    }

    /// The adjusted size is a positive multiple of the record
    /// alignment, no smaller than a record.
    pub proof fn lemma_adjusted_size_properties(layout: Layout)
        requires
            layout.wf(),
            Self::adjusted_size(layout) <= usize::MAX,
        ensures
            NODE_SIZE <= Self::adjusted_size(layout),
            layout.size <= Self::adjusted_size(layout),
            Self::adjusted_size(layout) % (NODE_ALIGN as int) == 0,
            Self::spec_adjusted(layout).wf(),
    {
        let adj = Self::spec_adjusted(layout);
        reveal_with_fuel(is_pow2, 5);
        assert(is_pow2(adj.align as int));
        lemma_pad_up_properties(adj.size as int, adj.align as int);
        lemma_pow2_multiple(adj.align as int, NODE_ALIGN as int);
        lemma_mod_transfer(Self::adjusted_size(layout), NODE_ALIGN as int, adj.align as int);
        lemma_pad_up_properties(Self::adjusted_size(layout), adj.align as int);
    }

    /// Normalizes a layout as `spec_adjusted` describes.
    pub fn adjust_layout(layout: Layout) -> (r: Layout)
        requires
            layout.wf(),
            Self::adjusted_size(layout) <= usize::MAX,
        ensures
            r == Self::spec_adjusted(layout),
            r.wf(),
    {
        proof {
            Self::lemma_adjusted_size_properties(layout);
        }
        let size = if layout.size() >= NODE_SIZE { layout.size() } else { NODE_SIZE };
        let align = if layout.align() >= NODE_ALIGN { layout.align() } else { NODE_ALIGN };
        let r = Layout::from_size_align(size, align);
        r.unwrap()
    }

    /// First-fit search: unlinks and returns the first free region
    /// that can serve `size` bytes, or returns `None` and leaves the
    /// list unchanged.
    pub fn find_region(&mut self, size: usize) -> (r: Option<ListNode>)
        requires
            old(self).wf(),
            old(self).initialized,
        ensures
            final(self).wf(),
            final(self).capacity == old(self).capacity,
            final(self).initialized,
            final(self).allocated@ == old(self).allocated@,
            match first_fit(old(self).regions@, size as int) {
                Some(i) => r == Some(old(self).regions@[i])
                    && final(self).regions@ == old(self).regions@.remove(i),
                None => r is None && final(self).regions@ == old(self).regions@,
            },
    {
        proof {
            lemma_first_fit_characterization(self.regions@, size as int);
        }
        let ghost rs0 = self.regions@;
        let mut j: usize = 0;
        while j < self.regions.len()
            invariant
                old(self).wf(),
                old(self).initialized,
                *self == *old(self),
                rs0 == self.regions@,
                j <= rs0.len(),
                forall|k: int| #![trigger rs0[k]] 0 <= k < j ==> !rs0[k].suitable_spec(size as int),
                match first_fit(rs0, size as int) {
                    Some(i) => 0 <= i < rs0.len() && rs0[i].suitable_spec(size as int)
                        && forall|k: int| #![trigger rs0[k]] 0 <= k < i
                            ==> !rs0[k].suitable_spec(size as int),
                    None => forall|k: int| #![trigger rs0[k]] 0 <= k < rs0.len()
                        ==> !rs0[k].suitable_spec(size as int),
                },
            decreases rs0.len() - j,
        {
            let node = self.regions[j];
            if node.suitable_for(size) {
                proof {
                    assert(first_fit(rs0, size as int) == Some(j as int));
                    assert(self.all_pairs().remove(j as int)
                        =~= free_pairs(rs0.remove(j as int)) + self.allocated@);
                    lemma_regions_ok_remove(self.all_pairs(), self.capacity as int, j as int);
                }
                let found = self.regions.remove(j);
                return Some(found);
            }
            j = j + 1;
        }
        None
    }

    /// Inserts the free region `[addr, addr + size)` at the head of
    /// the list. Inserting a region makes the list live: lazy
    /// initialization will not overwrite it afterwards.
    ///
    /// The region must be able to host a record, be aligned for one,
    /// lie inside the arena, and overlap nothing the allocator tracks
    /// — a caller that releases memory it was never handed breaks
    /// these, which is a fatal contract violation, not a recoverable
    /// condition.
    pub fn add_free_region(&mut self, addr: usize, size: usize)
        requires
            old(self).wf(),
            addr as int % (NODE_ALIGN as int) == 0,
            NODE_SIZE <= size,
            addr + size <= old(self).capacity,
            forall|k: int| #![trigger old(self).all_pairs()[k]]
                0 <= k < old(self).all_pairs().len()
                    ==> region_disjoint((addr as int, size as int), old(self).all_pairs()[k]),
        ensures
            final(self).wf(),
            final(self).capacity == old(self).capacity,
            final(self).initialized,
            final(self).allocated@ == old(self).allocated@,
            final(self).regions@ == old(self).regions@.insert(
                0,
                (ListNode { start: addr, size }),
            ),
    {
        let node = ListNode::new(addr, size);
        self.regions.insert(0, node);
        self.initialized = true;
        proof {
            assert(self.all_pairs()
                =~= old(self).all_pairs().insert(0, (addr as int, size as int)));
            lemma_regions_ok_insert(
                old(self).all_pairs(),
                self.capacity as int,
                0,
                (addr as int, size as int),
            );
        }
    }

    /// Total bytes held by the free list. Never exceeds the arena
    /// capacity: the tracked regions are disjoint and all lie inside
    /// the arena.
    pub fn free_space(&self) -> (r: usize)
        requires
            self.wf(),
        ensures
            r == sum_sizes(free_pairs(self.regions@)),
            r <= self.capacity,
    {
        let ghost fp = free_pairs(self.regions@);
        proof {
            assert(forall|k: int| #![trigger fp[k]] 0 <= k < fp.len()
                ==> fp[k] == self.all_pairs()[k]);
            lemma_disjoint_sum_bounded(fp, self.capacity as int);
        }
        let mut space: usize = 0;
        let mut j: usize = 0;
        while j < self.regions.len()
            invariant
                self.wf(),
                fp == free_pairs(self.regions@),
                j <= self.regions@.len(),
                space == sum_sizes(fp.take(j as int)),
                sum_sizes(fp) <= self.capacity,
            decreases self.regions@.len() - j,
        {
            proof {
                assert(forall|k: int| #![trigger fp[k]] 0 <= k < fp.len()
                    ==> fp[k] == self.all_pairs()[k]);
                lemma_sum_take_succ(fp, j as int);
                lemma_sum_take_le(fp, j as int + 1);
            }
            space = space + self.regions[j].size;
            j = j + 1;
        }
        proof {
            assert(fp.take(self.regions@.len() as int) =~= fp);
        }
        space
    }

    /// Serves an allocation request by first-fit search.
    ///
    /// The first call initializes the free list to one region spanning
    /// the whole arena (or to nothing, if the arena cannot host even
    /// one region record). The request is then normalized to its
    /// adjusted size `sz`; the first region that can serve it is
    /// unlinked, a leftover tail is reinserted at the head of the
    /// list, and the region's start is returned. Succeeds exactly when
    /// some single region can serve the request — free space split
    /// across several regions does not help, since regions are never
    /// merged.
    pub fn allocate(&mut self, layout: Layout) -> (r: Result<usize, AllocError>)
        requires
            old(self).wf(),
            layout.wf(),
            Self::adjusted_size(layout) <= usize::MAX,
        ensures
            final(self).wf(),
            final(self).capacity == old(self).capacity,
            final(self).initialized,
            ({
                let rs0 = old(self).spec_init_regions();
                let sz = Self::adjusted_size(layout);
                &&& (r is Ok <==> first_fit(rs0, sz) is Some)
                &&& (r matches Ok(p) ==> {
                    let i = first_fit(rs0, sz)->Some_0;
                    let n = rs0[i];
                    &&& p == n.start
                    &&& p as int % (NODE_ALIGN as int) == 0
                    &&& p + sz <= old(self).capacity
                    &&& final(self).allocated@ == old(self).allocated@.push((p as int, sz))
                    &&& final(self).regions@ == (if n.size - sz > 0 {
                        rs0.remove(i).insert(
                            0,
                            (ListNode { start: (n.start + sz) as usize, size: (n.size - sz) as usize }),
                        )
                    } else {
                        rs0.remove(i)
                    })
                })
                &&& (r is Err ==> r == Err::<usize, AllocError>(AllocError::OutOfMemory)
                    && final(self).regions@ == rs0
                    && final(self).allocated@ == old(self).allocated@)
            }),
    {
        if !self.initialized {
            if self.capacity >= NODE_SIZE {
                let cap = self.capacity;
                self.add_free_region(0, cap);
            } else {
                self.initialized = true;
            }
        }
        proof {
            assert(self.regions@ =~= old(self).spec_init_regions());
            Self::lemma_adjusted_size_properties(layout);
        }
        let ghost rs0 = self.regions@;
        let ghost s1 = *self;
        let size = Self::adjust_layout(layout).pad_to_align().size();
        let ghost sz = size as int;
        match self.find_region(size) {
            Some(node) => {
                proof {
                    lemma_first_fit_characterization(rs0, sz);
                }
                let ghost i = first_fit(rs0, sz)->Some_0;
                let ghost removed = (node.start as int, node.size as int);
                let ghost block = (node.start as int, sz);
                proof {
                    assert(free_pairs(rs0)[i] == removed);
                    assert(s1.all_pairs()[i] == removed);
                    assert(self.all_pairs() =~= s1.all_pairs().remove(i));
                    lemma_remove_rest_disjoint(s1.all_pairs(), i);
                    assert forall|k: int| 0 <= k < self.all_pairs().len()
                        implies region_disjoint(block, #[trigger] self.all_pairs()[k]) by {
                        lemma_disjoint_sub(removed, block, self.all_pairs()[k]);
                    }
                    let with_block = self.all_pairs().push(block);
                    lemma_regions_ok_insert(
                        self.all_pairs(),
                        self.capacity as int,
                        self.all_pairs().len() as int,
                        block,
                    );
                    assert(self.all_pairs().insert(self.all_pairs().len() as int, block)
                        =~= with_block);
                    self.allocated@ = self.allocated@.push(block);
                    assert(self.all_pairs() =~= with_block);
                }
                let alloc_start = node.start_addr();
                let excess = node.size - size;
                if excess > 0 {
                    proof {
                        lemma_mod_add_zero(node.start as int, sz, NODE_ALIGN as int);
                        lemma_remove_rest_disjoint(s1.all_pairs(), i);
                        let leftover = (node.start + sz, node.size - sz);
                        assert forall|k: int| 0 <= k < self.all_pairs().len()
                            implies region_disjoint(leftover, #[trigger] self.all_pairs()[k]) by {
                            if k < self.all_pairs().len() - 1 {
                                assert(self.all_pairs()[k] == s1.all_pairs().remove(i)[k]);
                                lemma_disjoint_sub(removed, leftover, self.all_pairs()[k]);
                            } else {
                                assert(self.all_pairs()[k] == block);
                            }
                        }
                    }
                    self.add_free_region(alloc_start + size, excess);
                }
                Ok(alloc_start)
            },
            None => Err(AllocError::OutOfMemory),
        }
    }

    /// Releases the block at `ptr` that was allocated with `layout`:
    /// recomputes the adjusted size used when it was served and
    /// reinserts the block at the head of the free list. Releasing
    /// memory this allocator never handed out, or with a layout other
    /// than the allocation's, is a fatal contract violation.
    pub fn deallocate(&mut self, ptr: usize, layout: Layout)
        requires
            old(self).wf(),
            layout.wf(),
            Self::adjusted_size(layout) <= usize::MAX,
            old(self).allocated@.contains((ptr as int, Self::adjusted_size(layout))),
        ensures
            final(self).wf(),
            final(self).capacity == old(self).capacity,
            final(self).initialized,
            final(self).regions@ == old(self).regions@.insert(
                0,
                (ListNode { start: ptr, size: Self::adjusted_size(layout) as usize }),
            ),
            exists|i: int|
                0 <= i < old(self).allocated@.len()
                    && old(self).allocated@[i] == (ptr as int, Self::adjusted_size(layout))
                    && final(self).allocated@ == old(self).allocated@.remove(i),
    {
        proof {
            Self::lemma_adjusted_size_properties(layout);
        }
        let size = Self::adjust_layout(layout).pad_to_align().size();
        proof {
            let pair = (ptr as int, size as int);
            let i = choose|i: int|
                0 <= i < self.allocated@.len() && self.allocated@[i] == pair;
            let s = self.all_pairs();
            let nf = self.regions@.len() as int;
            assert(s[nf + i] == pair);
            lemma_remove_rest_disjoint(s, nf + i);
            lemma_regions_ok_remove(s, self.capacity as int, nf + i);
            self.allocated@ = self.allocated@.remove(i);
            assert(self.all_pairs() =~= s.remove(nf + i));
            assert forall|k: int| 0 <= k < self.all_pairs().len()
                implies region_disjoint(pair, #[trigger] self.all_pairs()[k]) by {
                assert(self.all_pairs()[k] == s.remove(nf + i)[k]);
            }
        }
        self.add_free_region(ptr, size);
    }

    /// Distinctness: any two blocks currently handed out occupy
    /// disjoint byte ranges, however allocations and releases were
    /// interleaved.
    pub proof fn lemma_allocations_distinct(self, i: int, j: int)
        requires
            self.wf(),
            0 <= i < self.allocated@.len(),
            0 <= j < self.allocated@.len(),
            i != j,
        ensures
            region_disjoint(self.allocated@[i], self.allocated@[j]),
    {
        let nf = self.regions@.len() as int;
        assert(self.all_pairs()[nf + i] == self.allocated@[i]);
        assert(self.all_pairs()[nf + j] == self.allocated@[j]);
    }

    /// Exhaustion: the blocks handed out at any one time cover at most
    /// the arena capacity. Requests totalling more than the capacity
    /// can therefore never all be outstanding: once the arena is spent,
    /// allocation fails until something is released.
    pub proof fn lemma_outstanding_bounded(self)
        requires
            self.wf(),
        ensures
            sum_sizes(self.allocated@) <= self.capacity,
    {
        let s = self.all_pairs();
        let nf = self.regions@.len() as int;
        assert(forall|k: int| #![trigger self.allocated@[k]] 0 <= k < self.allocated@.len()
            ==> self.allocated@[k] == s[nf + k]);
        assert forall|i: int, j: int|
            0 <= i < self.allocated@.len() && 0 <= j < self.allocated@.len() && i != j
            implies region_disjoint(
                #[trigger] self.allocated@[i],
                #[trigger] self.allocated@[j],
            ) by {
            assert(self.allocated@[i] == s[nf + i]);
            assert(self.allocated@[j] == s[nf + j]);
        }
        lemma_disjoint_sum_bounded(self.allocated@, self.capacity as int);
    }
}

/// Reuse: releasing a block puts its record at the head of the free
/// list, and the very next allocation whose adjusted size matches is
/// served by that head record exactly (it fits with no leftover), so
/// the same start address comes back.
pub proof fn lemma_release_then_allocate_reuses(rs: Seq<ListNode>, start: usize, size: usize)
    ensures
        first_fit(rs.insert(0, (ListNode { start, size })), size as int) == Some(0int),
        rs.insert(0, (ListNode { start, size })).remove(0) == rs,
{
    let n = ListNode { start, size };
    let grown = rs.insert(0, n);
    assert(grown[0] == n);
    assert(n.suitable_spec(size as int));
    assert(grown.remove(0) =~= rs);
}

/// List stability: when the head region's size equals the request
/// exactly, allocation unlinks just that head without splitting, and
/// releasing the block restores the list as it was — an allocate and
/// release cycle of one fixed size leaves the free list's length at
/// its steady value instead of growing it.
pub proof fn lemma_same_size_cycle_stable(rs: Seq<ListNode>, size: usize)
    requires
        rs.len() > 0,
        rs[0].size == size,
    ensures
        first_fit(rs, size as int) == Some(0int),
        rs[0].size - size as int == 0,
        rs.remove(0).insert(0, rs[0]) == rs,
{
    assert(rs[0].suitable_spec(size as int));
    assert(rs.remove(0).insert(0, rs[0]) =~= rs);
}

/// Fragmentation exposure: a request is served by a single region or
/// not at all. When every free region is smaller than the request the
/// search fails, even if the regions' total size would cover it —
/// free regions are never merged.
pub proof fn lemma_no_single_region_no_fit(rs: Seq<ListNode>, size: int)
    requires
        forall|k: int| #![trigger rs[k]] 0 <= k < rs.len() ==> rs[k].size < size,
    ensures
        first_fit(rs, size) is None,
{
    lemma_first_fit_characterization(rs, size);
    match first_fit(rs, size) {
        Some(i) => {
            assert(rs[i].suitable_spec(size));
            assert(rs[i].size < size);
        },
        None => {},
    }
}

/// A free-list allocator over an arena of `capacity` bytes: the
/// public face of `FreeListImpl`. A wrapper that shares one between
/// threads must keep calls exclusive (for instance behind a
/// mutual-exclusion lock), since the list splice is not decomposable
/// into smaller atomic steps.
pub struct FreeListAlloc {
    pub details: FreeListImpl,
}

impl FreeListAlloc {
    /// A fresh allocator over an arena of `capacity` bytes.
    pub fn new(capacity: usize) -> (r: FreeListAlloc)
        ensures
            r.details.wf(),
            r.details.capacity == capacity,
            !r.details.initialized,
            r.details.regions@.len() == 0,
            r.details.allocated@.len() == 0,
    {
        FreeListAlloc { details: FreeListImpl::new(capacity) }
    }

    /// Number of free regions in the list.
    pub fn free_list_length(&self) -> (r: usize)
        ensures
            r == self.details.regions@.len(),
    {
        self.details.free_list_length()
    }

    /// Total bytes held by the free list.
    pub fn free_space(&self) -> (r: usize)
        requires
            self.details.wf(),
        ensures
            r == sum_sizes(free_pairs(self.details.regions@)),
            r <= self.details.capacity,
    {
        self.details.free_space()
    }

    /// Serves an allocation request; see `FreeListImpl::allocate`.
    pub fn allocate(&mut self, layout: Layout) -> (r: Result<usize, AllocError>)
        requires
            old(self).details.wf(),
            layout.wf(),
            FreeListImpl::adjusted_size(layout) <= usize::MAX,
        ensures
            final(self).details.wf(),
            final(self).details.capacity == old(self).details.capacity,
            final(self).details.initialized,
            ({
                let rs0 = old(self).details.spec_init_regions();
                let sz = FreeListImpl::adjusted_size(layout);
                &&& (r is Ok <==> first_fit(rs0, sz) is Some)
                &&& (r matches Ok(p) ==> {
                    let i = first_fit(rs0, sz)->Some_0;
                    let n = rs0[i];
                    &&& p == n.start
                    &&& p as int % (NODE_ALIGN as int) == 0
                    &&& p + sz <= old(self).details.capacity
                    &&& final(self).details.allocated@
                        == old(self).details.allocated@.push((p as int, sz))
                    &&& final(self).details.regions@ == (if n.size - sz > 0 {
                        rs0.remove(i).insert(
                            0,
                            (ListNode { start: (n.start + sz) as usize, size: (n.size - sz) as usize }),
                        )
                    } else {
                        rs0.remove(i)
                    })
                })
                &&& (r is Err ==> r == Err::<usize, AllocError>(AllocError::OutOfMemory)
                    && final(self).details.regions@ == rs0
                    && final(self).details.allocated@ == old(self).details.allocated@)
            }),
    {
        self.details.allocate(layout)
    }

    /// Releases the block at `ptr`; see `FreeListImpl::deallocate`.
    pub fn deallocate(&mut self, ptr: usize, layout: Layout)
        requires
            old(self).details.wf(),
            layout.wf(),
            FreeListImpl::adjusted_size(layout) <= usize::MAX,
            old(self).details.allocated@.contains(
                (ptr as int, FreeListImpl::adjusted_size(layout)),
            ),
        ensures
            final(self).details.wf(),
            final(self).details.capacity == old(self).details.capacity,
            final(self).details.initialized,
            final(self).details.regions@ == old(self).details.regions@.insert(
                0,
                (ListNode { start: ptr, size: FreeListImpl::adjusted_size(layout) as usize }),
            ),
            exists|i: int|
                0 <= i < old(self).details.allocated@.len()
                    && old(self).details.allocated@[i]
                        == (ptr as int, FreeListImpl::adjusted_size(layout))
                    && final(self).details.allocated@ == old(self).details.allocated@.remove(i),
    {
        self.details.deallocate(ptr, layout)
    }
}

} // verus!
