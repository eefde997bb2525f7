//! The hierarchy of translation tables.
//!
//! Tables live in one arena of entries, 512 per table, and are found by the key of
//! their self-referential address (see `table_address`): no table holds a pointer
//! to another, and the shape of the hierarchy is given by the root and the present
//! bits of the entries alone.
use crate::addr::{
    is_pow2, lemma_align_up_multiple, lemma_page_sizes_pow2, spec_align_down, PAddr, VAddr,
};
use crate::entry::{
    lemma_entry_word, lemma_flags_known, spec_entry_address, spec_entry_present,
    spec_entry_word, PageTableEntry, PageTableEntryFlags, ALL_FLAGS, NORMAL,
    PRIVILEGED_EXECUTE_NEVER, READ_ONLY, TABLE_OR_4KIB_PAGE, UNPRIVILEGED_EXECUTE_NEVER,
};
use crate::error::PagingError;
use crate::page::{Page, PageIter};
use crate::page_size::{
    extra_flag_at_level, lemma_table_index_bound, size_at_level, spec_table_index,
    BasePageSize, LargePageSize, PageSize, VIRTUAL_ADDRESS_LIMIT,
};
use crate::physicalmem::{
    allocate, allocated, allocated_run, deallocate, lemma_base_frame_taken, lemma_base_frames_fewer,
    lemma_no_base_frame, FrameAllocator,
};
use crate::table_address::{
    lemma_key_level, lemma_page_number, lemma_subtable_address, lemma_table_key,
    lemma_table_number_next, page_number, subtable_address, table_key, L0TABLE_ADDRESS,
};
use crate::virtualmem::{
    task_heap_end, task_heap_start, KERNEL_VIRTUAL_MEMORY_END, TASK_VIRTUAL_MEMORY_END,
};
use std::collections::HashMap;
use vstd::prelude::*;

verus! {

broadcast use vstd::std_specs::hash::group_hash_axioms;

/// The page-table hierarchy of one address space, with the log of pages whose stale
/// translations must be flushed from the TLBs.
///
/// Every change takes `&mut self`: cores that share one hierarchy hold it behind one
/// lock, so that no two of them create the same subtable or remap the same slot.
pub struct PageTables {
    slots: HashMap<u64, usize>,
    keys: Vec<u64>,
    entries: Vec<PageTableEntry>,
    flushed: Vec<u64>,
}

impl PageTables {
    /// The table at `level` on the path of `va` exists.
    pub closed spec fn has_table(self, level: nat, va: u64) -> bool {
        level <= 3 && self.slots@.contains_key(table_key(level, va))
    }

    /// Where the entry for `va` in the table at `level` sits in the arena.
    closed spec fn position(self, level: nat, va: u64) -> int {
        self.slots@[table_key(level, va)] as int * 512 + spec_table_index(level, va) as int
    }

    /// The entry for `va` in the table at `level`, which must exist.
    pub closed spec fn raw_entry(self, level: nat, va: u64) -> PageTableEntry {
        self.entries@[self.position(level, va)]
    }

    /// The pages flushed so far, oldest first.
    pub closed spec fn spec_flushed(self) -> Seq<u64> {
        self.flushed@
    }

    /// The arena holds one table per key; the root exists; and a table below the root
    /// exists only under a present entry of its parent.
    pub closed spec fn wf(self) -> bool {
        &&& self.entries@.len() == self.keys@.len() * 512
        &&& forall|k: u64| #[trigger]
            self.slots@.contains_key(k) ==> (self.slots@[k] as int) < self.keys@.len()
                && self.keys@[self.slots@[k] as int] == k
        &&& self.slots@.contains_key(table_key(0, 0))
        &&& forall|l: nat, va: u64|
            0 < l <= 3 && va < VIRTUAL_ADDRESS_LIMIT && #[trigger] self.has_table(l, va) ==> {
                &&& self.has_table((l - 1) as nat, va)
                &&& spec_entry_present(self.raw_entry((l - 1) as nat, va)@)
            }
    }

    /// The entry that maps the page of size level `level` holding `va`: present, in an
    /// existing table, and not pointing to a subtable.
    pub open spec fn lookup(self, level: nat, va: u64) -> Option<PageTableEntry> {
        if self.has_table(level, va) && spec_entry_present(self.raw_entry(level, va)@)
            && !self.has_table(level + 1, va) {
            Some(self.raw_entry(level, va))
        } else {
            None
        }
    }

    /// `va` is mapped at `level` by an entry holding exactly `word`.
    pub open spec fn maps_to(self, level: nat, va: u64, word: u64) -> bool {
        self.lookup(level, va) matches Some(e) && e@ == word
    }

    /// Pages `0..count` of the run starting at the page-aligned `first` are mapped, page
    /// `k` to `physical_address + k * size` with `flags` and the level's extra flag.
    pub open spec fn maps_run(
        self,
        level: nat,
        first: u64,
        physical_address: u64,
        count: nat,
        flags: u64,
    ) -> bool {
        forall|k: int, x: u64|
            0 <= k < count && x < VIRTUAL_ADDRESS_LIMIT && page_number(level, x) == page_number(
                level,
                first,
            ) + k ==> #[trigger] self.maps_to(
                level,
                x,
                spec_entry_word(
                    (physical_address + k * size_at_level(level)) as u64,
                    flags | extra_flag_at_level(level),
                ),
            )
    }

    /// The lookup of `x` at `l` is not at or below the level of the run of `count`
    /// pages that starts at `first`, inside that run.
    pub open spec fn outside_run(level: nat, first: u64, count: nat, l: nat, x: u64) -> bool {
        !(l >= level && page_number(level, first) <= page_number(level, x) < page_number(
            level,
            first,
        ) + count)
    }

    /// The frames that unmapping pages `0..count` of the run at `first` gives back, in
    /// order: the frame of each page that is mapped, with the page size.
    pub open spec fn mapped_frames(self, level: nat, first: u64, count: nat) -> Seq<(u64, u64)>
        decreases count,
    {
        if count == 0 {
            Seq::empty()
        } else {
            let prev = self.mapped_frames(level, first, (count - 1) as nat);
            match self.lookup(level, (first + (count - 1) * size_at_level(level)) as u64) {
                Some(e) => prev.push((spec_entry_address(e@), size_at_level(level))),
                None => prev,
            }
        }
    }

    /// The addresses of the pages among `0..count` of the run at `first` that are
    /// mapped, in order.
    pub open spec fn mapped_pages(self, level: nat, first: u64, count: nat) -> Seq<u64>
        decreases count,
    {
        if count == 0 {
            Seq::empty()
        } else {
            let prev = self.mapped_pages(level, first, (count - 1) as nat);
            let p = (first + (count - 1) * size_at_level(level)) as u64;
            if self.lookup(level, p) is Some {
                prev.push(p)
            } else {
                prev
            }
        }
    }

    /// The present entry at `level` on the walk to `va`, in an existing table: a page
    /// of that level's size, or a pointer to a subtable.
    pub open spec fn entry_at(self, level: nat, va: u64) -> Option<PageTableEntry> {
        if self.has_table(level, va) && spec_entry_present(self.raw_entry(level, va)@) {
            Some(self.raw_entry(level, va))
        } else {
            None
        }
    }

    /// The addresses of the pages among `0..count` of the run at `first` whose slot is
    /// occupied (by a page or by a pointer to a subtable), in order.
    pub open spec fn occupied_pages(self, level: nat, first: u64, count: nat) -> Seq<u64>
        decreases count,
    {
        if count == 0 {
            Seq::empty()
        } else {
            let prev = self.occupied_pages(level, first, (count - 1) as nat);
            let p = (first + (count - 1) * size_at_level(level)) as u64;
            if self.entry_at(level, p) is Some {
                prev.push(p)
            } else {
                prev
            }
        }
    }

    /// The physical address that `va` translates to through the present entry at
    /// `level`: its frame address combined with the offset of `va` in the page.
    pub open spec fn physical_of(self, level: nat, va: u64) -> u64 {
        spec_entry_address(self.entry_at(level, va).unwrap()@) | (va % size_at_level(level))
    }

    /// The deepest level, at most `level`, whose table on the walk to `va` exists.
    pub open spec fn table_depth(self, level: nat, va: u64) -> nat
        decreases level,
    {
        if level == 0 || self.has_table(level, va) {
            level
        } else {
            self.table_depth((level - 1) as nat, va)
        }
    }

    /// The frames of the level-3 tables below the first `count` entries of the level-2
    /// table that covers the 1 GiB region starting at `base`, in entry order.
    pub open spec fn sub_frames(self, base: u64, count: nat) -> Seq<(u64, u64)>
        decreases count,
    {
        if count == 0 {
            Seq::empty()
        } else {
            let prev = self.sub_frames(base, (count - 1) as nat);
            let x = (base + (count - 1) * 0x20_0000) as u64;
            if self.has_table(3, x) {
                prev.push((spec_entry_address(self.raw_entry(2, x)@), 4096u64))
            } else {
                prev
            }
        }
    }

    /// The frames of the tables that hang below the slot for the page at `va` of
    /// level `level`: the tables of the level below, then the subtable itself.
    pub open spec fn subtree_frames(self, level: nat, va: u64) -> Seq<(u64, u64)> {
        let below = if level == 1 {
            self.sub_frames(va, 512)
        } else {
            Seq::empty()
        };
        below.push((spec_entry_address(self.raw_entry(level, va)@), 4096u64))
    }

    /// The walk to `va` at `level` ends early in a mapping of a larger page.
    pub open spec fn leaf_above(self, level: nat, va: u64) -> bool {
        ||| (0 < level && self.lookup(0, va) is Some)
        ||| (1 < level && self.lookup(1, va) is Some)
        ||| (2 < level && self.lookup(2, va) is Some)
    }

    /// A page of level `level` cannot be mapped at `va`: a larger page is mapped on
    /// the walk to its slot.
    pub open spec fn blocked(self, level: nat, va: u64) -> bool {
        self.leaf_above(level, va)
    }

    /// The tables on the path to an existing table exist, under present entries.
    proof fn lemma_path(self, m: nat, va: u64)
        requires
            self.wf(),
            m <= 3,
            va < VIRTUAL_ADDRESS_LIMIT,
            self.has_table(m, va),
        ensures
            forall|j: nat| j <= m ==> #[trigger] self.has_table(j, va),
            forall|j: nat| j < m ==> spec_entry_present(#[trigger] self.raw_entry(j, va)@),
    {
        if m >= 1 {
            assert(self.has_table((m - 1) as nat, va));
        }
        if m >= 2 {
            assert(self.has_table((m - 2) as nat, va));
        }
        if m >= 3 {
            assert(self.has_table((m - 3) as nat, va));
        }
        assert forall|j: nat| j <= m implies #[trigger] self.has_table(j, va) by {
            if j == 0 {
                assert(self.has_table(0, va));
            }
        }
        assert forall|j: nat| j < m implies spec_entry_present(#[trigger] self.raw_entry(j, va)@) by {
            assert(self.has_table(j + 1, va));
        }
    }

    /// The tables on the walk exist down to `table_depth` and no further.
    proof fn lemma_table_depth(self, level: nat, va: u64)
        requires
            self.wf(),
            level <= 3,
            va < VIRTUAL_ADDRESS_LIMIT,
        ensures
            self.table_depth(level, va) <= level,
            self.has_table(self.table_depth(level, va), va),
            forall|j: nat|
                j <= level ==> (#[trigger] self.has_table(j, va) <==> j <= self.table_depth(level, va)),
        decreases level,
    {
        lemma_key_level(0, va);
        lemma_key_level(0, 0);
        if level > 0 && !self.has_table(level, va) {
            self.lemma_table_depth((level - 1) as nat, va);
        }
        let d = self.table_depth(level, va);
        self.lemma_path(d, va);
        assert forall|j: nat| j <= level implies (#[trigger] self.has_table(j, va) <==> j <= d) by {
            if self.has_table(j, va) && j > d {
                self.lemma_path(j, va);
                assert(self.has_table(level, va) || level > d);
            }
        }
    }

    /// An existing table's entries lie inside the arena.
    proof fn lemma_position_bound(self, level: nat, va: u64)
        requires
            self.wf(),
            self.has_table(level, va),
        ensures
            (self.slots@[table_key(level, va)] as int) < self.keys@.len(),
            0 <= self.position(level, va) < self.entries@.len(),
    {
        let k = table_key(level, va);
        assert(self.slots@.contains_key(k));
        let s = self.slots@[k] as int;
        let n = self.keys@.len() as int;
        let i = spec_table_index(level, va) as int;
        lemma_table_index_bound(level, va);
        assert(0 <= s * 512 + i < n * 512) by (nonlinear_arith)
            requires
                0 <= s < n,
                0 <= i < 512,
        ;
    }

    /// Two entries of existing tables share a place in the arena only if they are the
    /// same entry: same level and same page number.
    proof fn lemma_position(self, l1: nat, x: u64, l2: nat, y: u64)
        requires
            self.wf(),
            l1 <= 3,
            l2 <= 3,
            x < VIRTUAL_ADDRESS_LIMIT,
            y < VIRTUAL_ADDRESS_LIMIT,
            self.has_table(l1, x),
            self.has_table(l2, y),
            self.position(l1, x) == self.position(l2, y),
        ensures
            l1 == l2,
            page_number(l1, x) == page_number(l1, y),
    {
        let s1 = self.slots@[table_key(l1, x)] as int;
        let s2 = self.slots@[table_key(l2, y)] as int;
        let i1 = spec_table_index(l1, x) as int;
        let i2 = spec_table_index(l2, y) as int;
        lemma_table_index_bound(l1, x);
        lemma_table_index_bound(l2, y);
        assert(s1 == s2 && i1 == i2) by (nonlinear_arith)
            requires
                s1 * 512 + i1 == s2 * 512 + i2,
                0 <= i1 < 512,
                0 <= i2 < 512,
                s1 >= 0,
                s2 >= 0,
        ;
        lemma_table_key(l1, x, l2, y);
        lemma_page_number(l1, x, y);
    }

    /// What the model says of `va` at `level` depends only on its page number there.
    pub proof fn lemma_lookup_page(self, level: nat, x: u64, y: u64)
        requires
            level <= 3,
            x < VIRTUAL_ADDRESS_LIMIT,
            y < VIRTUAL_ADDRESS_LIMIT,
            page_number(level, x) == page_number(level, y),
        ensures
            self.lookup(level, x) == self.lookup(level, y),
            self.entry_at(level, x) == self.entry_at(level, y),
            self.has_table(level, x) == self.has_table(level, y),
            self.has_table(level + 1, x) == self.has_table(level + 1, y),
    {
        lemma_page_number(level, x, y);
        lemma_table_key(level, x, level, y);
        if level < 3 {
            lemma_table_number_next(level, x);
            lemma_table_number_next(level, y);
            lemma_table_key(level + 1, x, level + 1, y);
        }
    }

    /// The pages flushed from the TLBs so far, oldest first.
    pub fn flushed(&self) -> (r: &[u64])
        ensures
            r@ == self.spec_flushed(),
    {
        self.flushed.as_slice()
    }

    /// An address space with an empty root table and nothing mapped.
    pub fn new() -> (r: Self)
        ensures
            r.wf(),
            r.spec_flushed() == Seq::<u64>::empty(),
            forall|level: nat, va: u64| #[trigger] r.lookup(level, va) is None,
            forall|level: nat, va: u64| #[trigger] r.has_table(level, va) ==> level == 0,
    {
        let mut entries: Vec<PageTableEntry> = Vec::new();
        let mut i: usize = 0;
        while i < 512
            invariant
                i <= 512,
                entries@.len() == i,
                forall|j: int| 0 <= j < i ==> !spec_entry_present(#[trigger] entries@[j]@),
            decreases 512 - i,
        {
            entries.push(PageTableEntry::unused());
            i = i + 1;
        }
        let mut slots: HashMap<u64, usize> = HashMap::new();
        slots.insert(L0TABLE_ADDRESS, 0);
        let mut keys: Vec<u64> = Vec::new();
        keys.push(L0TABLE_ADDRESS);
        let r = PageTables { slots, keys, entries, flushed: Vec::new() };
        proof {
            lemma_key_level(0, 0);
        }
        assert forall|l: nat, va: u64| #[trigger] r.has_table(l, va) implies l == 0 by {
            lemma_key_level(l, va);
            lemma_key_level(0, va);
        }
        assert forall|level: nat, va: u64| #[trigger] r.lookup(level, va) is None by {
            if r.has_table(level, va) {
                lemma_table_index_bound(level, va);
            }
        }
        r
    }

    /// Reads the entry for `va` in the table at `level`, kept in `slot`.
    fn read_entry(&self, slot: usize, level: Ghost<nat>, va: Ghost<u64>, idx: u64) -> (r: PageTableEntry)
        requires
            self.wf(),
            self.has_table(level@, va@),
            slot == self.slots@[table_key(level@, va@)],
            idx == spec_table_index(level@, va@),
        ensures
            r == self.raw_entry(level@, va@),
    {
        proof {
            self.lemma_position_bound(level@, va@);
        }
        let n = self.entries.len();
        assert(slot * 512 + idx < n);
        self.entries[slot * 512 + idx as usize]
    }

    /// Writes `e` into the leaf slot for `va` at `level`, a slot with no subtable below.
    /// Only the lookups of that page change.
    fn write_leaf(&mut self, slot: usize, level: Ghost<nat>, va: Ghost<u64>, idx: u64, e: PageTableEntry)
        requires
            old(self).wf(),
            level@ <= 3,
            va@ < VIRTUAL_ADDRESS_LIMIT,
            old(self).has_table(level@, va@),
            !old(self).has_table(level@ + 1, va@),
            slot == old(self).slots@[table_key(level@, va@)],
            idx == spec_table_index(level@, va@),
        ensures
            final(self).wf(),
            final(self).spec_flushed() == old(self).spec_flushed(),
            forall|l: nat, x: u64| #[trigger] final(self).has_table(l, x) == old(self).has_table(l, x),
            final(self).raw_entry(level@, va@) == e,
            forall|l: nat, x: u64|
                l <= 3 && x < VIRTUAL_ADDRESS_LIMIT && old(self).has_table(l, x) && !(l == level@
                    && page_number(l, x) == page_number(l, va@)) ==> #[trigger] final(self).raw_entry(l, x)
                    == old(self).raw_entry(l, x),
            forall|l: nat, x: u64|
                x < VIRTUAL_ADDRESS_LIMIT ==> #[trigger] final(self).lookup(l, x) == if l == level@
                    && page_number(l, x) == page_number(l, va@) {
                    if spec_entry_present(e@) {
                        Some(e)
                    } else {
                        None
                    }
                } else {
                    old(self).lookup(l, x)
                },
    {
        proof {
            self.lemma_position_bound(level@, va@);
        }
        let n = self.entries.len();
        assert(slot * 512 + idx < n);
        let pos = slot * 512 + idx as usize;
        let ghost old_self = *self;
        self.entries.set(pos, e);
        let ghost new_self = *self;
        assert forall|l: nat, x: u64|
            x < VIRTUAL_ADDRESS_LIMIT && l <= 3 && old_self.has_table(l, x) && old_self.position(l, x) != pos
            implies #[trigger] new_self.raw_entry(l, x) == old_self.raw_entry(l, x) by {
            old_self.lemma_position_bound(l, x);
        }
        assert forall|l: nat, x: u64|
            x < VIRTUAL_ADDRESS_LIMIT && l <= 3 && old_self.has_table(l, x) && old_self.position(l, x) == pos
            implies l == level@ && page_number(l, x) == page_number(l, va@) by {
            old_self.lemma_position(l, x, level@, va@);
        }
        assert forall|l: nat, x: u64|
            x < VIRTUAL_ADDRESS_LIMIT && l == level@ && page_number(l, x) == page_number(l, va@)
            implies old_self.position(l, x) == pos && #[trigger] old_self.has_table(l, x) && !old_self.has_table(l + 1, x) by {
            old_self.lemma_lookup_page(l, x, va@);
            lemma_page_number(l, x, va@);
            lemma_table_key(l, x, l, va@);
        }
        assert forall|l: nat, x: u64|
            0 < l <= 3 && x < VIRTUAL_ADDRESS_LIMIT && #[trigger] new_self.has_table(l, x) implies {
                &&& new_self.has_table((l - 1) as nat, x)
                &&& spec_entry_present(new_self.raw_entry((l - 1) as nat, x)@)
            } by {
            assert(old_self.has_table(l, x));
            assert(old_self.has_table((l - 1) as nat, x));
            if old_self.position((l - 1) as nat, x) == pos {
                old_self.lemma_position((l - 1) as nat, x, level@, va@);
                old_self.lemma_lookup_page(level@, x, va@);
            }
        }
        assert forall|l: nat, x: u64|
            l <= 3 && x < VIRTUAL_ADDRESS_LIMIT && old_self.has_table(l, x) && !(l == level@
                && page_number(l, x) == page_number(l, va@)) implies #[trigger] new_self.raw_entry(l, x)
                == old_self.raw_entry(l, x) by {
            old_self.lemma_position_bound(l, x);
            if old_self.position(l, x) == pos {
                old_self.lemma_position(l, x, level@, va@);
            }
        }
        assert forall|l: nat, x: u64| x < VIRTUAL_ADDRESS_LIMIT implies #[trigger] new_self.lookup(l, x) == if l == level@
            && page_number(l, x) == page_number(l, va@) {
            if spec_entry_present(e@) {
                Some(e)
            } else {
                None
            }
        } else {
            old_self.lookup(l, x)
        } by {
            if l <= 3 && old_self.has_table(l, x) {
                if old_self.position(l, x) == pos {
                    old_self.lemma_position(l, x, level@, va@);
                }
            }
            if l == level@ && page_number(l, x) == page_number(l, va@) {
                old_self.lemma_lookup_page(l, x, va@);
            }
        }
    }

    /// Hangs a new table, backed by the frame at `frame`, below the absent slot for `va`
    /// at `level`: the slot becomes a present, normal table entry and every entry of the
    /// new table is unused. No lookup changes. Gives the new table's slot.
    fn create_subtable(
        &mut self,
        slot: usize,
        level: usize,
        va: Ghost<u64>,
        idx: u64,
        child_key: u64,
        frame: u64,
    ) -> (r: usize)
        requires
            old(self).wf(),
            level < 3,
            va@ < VIRTUAL_ADDRESS_LIMIT,
            old(self).has_table(level as nat, va@),
            !spec_entry_present(old(self).raw_entry(level as nat, va@)@),
            slot == old(self).slots@[table_key(level as nat, va@)],
            idx == spec_table_index(level as nat, va@),
            child_key == table_key(level as nat + 1, va@),
            frame % 4096 == 0,
            frame < VIRTUAL_ADDRESS_LIMIT,
        ensures
            spec_entry_address(final(self).raw_entry(level as nat, va@)@) == frame,
            final(self).raw_entry(level as nat, va@)@ == spec_entry_word(
                frame,
                NORMAL | TABLE_OR_4KIB_PAGE,
            ),
            forall|l: nat, x: u64|
                l <= 3 && x < VIRTUAL_ADDRESS_LIMIT && #[trigger] final(self).has_table(l, x) && !old(
                    self).has_table(l, x) ==> final(self).raw_entry(l, x)@ == 0 && !spec_entry_present(
                    final(self).raw_entry(l, x)@,
                ),
            forall|l: nat, x: u64|
                l <= 3 && x < VIRTUAL_ADDRESS_LIMIT && old(self).has_table(l, x) && !(l == level
                    && page_number(l, x) == page_number(l, va@)) ==> #[trigger] final(self).raw_entry(l, x)
                    == old(self).raw_entry(l, x),
            final(self).wf(),
            final(self).spec_flushed() == old(self).spec_flushed(),
            final(self).has_table(level as nat + 1, va@),
            r == final(self).slots@[table_key(level as nat + 1, va@)],
            forall|l: nat, x: u64|
                #[trigger] old(self).has_table(l, x) ==> final(self).has_table(l, x),
            forall|l: nat, x: u64|
                #[trigger] final(self).has_table(l, x) ==> old(self).has_table(l, x) || l == level
                    + 1,
            forall|l: nat, x: u64|
                x < VIRTUAL_ADDRESS_LIMIT ==> #[trigger] final(self).lookup(l, x) == old(self).lookup(l, x),
    {
        let ghost lv = level as nat;
        let ghost old_self = *self;
        proof {
            if old_self.has_table(lv + 1, va@) {
                assert(spec_entry_present(old_self.raw_entry(lv, va@)@));
            }
            lemma_flags_known();
        }
        let flags = PageTableEntryFlags::from_bits(NORMAL).unwrap().union(
            PageTableEntryFlags::from_bits(TABLE_OR_4KIB_PAGE).unwrap(),
        );
        let mut e = PageTableEntry::unused();
        e.set(frame, flags);
        assert(spec_entry_present(e@)) by {
            let w = flags@;
            assert((frame | w | 0x701u64) & 1u64 != 0) by (bit_vector);
        }
        proof {
            lemma_entry_word(frame, flags@);
        }
        self.write_leaf(slot, Ghost(lv), va, idx, e);
        let ghost mid = *self;
        let n = self.keys.len();
        let mut i: usize = 0;
        while i < 512
            invariant
                mid.wf(),
                self.slots@ == mid.slots@,
                self.keys@ == mid.keys@,
                self.flushed@ == mid.flushed@,
                n == mid.keys@.len(),
                i <= 512,
                self.entries@.len() == mid.entries@.len() + i,
                forall|j: int| 0 <= j < mid.entries@.len() ==> #[trigger] self.entries@[j] == mid.entries@[j],
                forall|j: int|
                    mid.entries@.len() <= j < self.entries@.len() ==> !spec_entry_present(#[trigger] self.entries@[j]@)
                        && self.entries@[j]@ == 0,
            decreases 512 - i,
        {
            self.entries.push(PageTableEntry::unused());
            i = i + 1;
        }
        self.keys.push(child_key);
        self.slots.insert(child_key, n);
        let ghost new_self = *self;
        proof {
            assert(mid.has_table(lv + 1, va@) == old_self.has_table(lv + 1, va@));
            assert(!mid.slots@.contains_key(child_key));
            // Entries of tables that existed keep their place and value.
            assert forall|l: nat, x: u64| l <= 3 && #[trigger] mid.has_table(l, x) implies
                new_self.has_table(l, x) && new_self.position(l, x) == mid.position(l, x)
                && new_self.raw_entry(l, x) == mid.raw_entry(l, x) by {
                mid.lemma_position_bound(l, x);
            }
            // The new table is the one at `level + 1` in the region of `va`'s slot.
            assert forall|l: nat, x: u64| x < VIRTUAL_ADDRESS_LIMIT && l <= 3 && table_key(l, x) == child_key
                implies l == lv + 1 && page_number(lv, x) == page_number(lv, va@) by {
                lemma_table_key(l, x, lv + 1, va@);
                lemma_table_number_next(lv, x);
                lemma_table_number_next(lv, va@);
            }
            assert forall|l: nat, x: u64| x < VIRTUAL_ADDRESS_LIMIT && l <= 3 && #[trigger] new_self.has_table(l, x)
                && !mid.has_table(l, x) implies !spec_entry_present(new_self.raw_entry(l, x)@)
                && new_self.raw_entry(l, x)@ == 0 && table_key(l, x) == child_key by {
                lemma_table_index_bound(l, x);
                let p = n as int * 512 + spec_table_index(l, x) as int;
                assert(mid.entries@.len() <= p < new_self.entries@.len()) by (nonlinear_arith)
                    requires
                        mid.entries@.len() == n * 512,
                        new_self.entries@.len() == n * 512 + 512,
                        p == n * 512 + spec_table_index(l, x) as int,
                        spec_table_index(l, x) < 512,
                ;
            }
            assert forall|k: u64| #[trigger] new_self.slots@.contains_key(k) implies (new_self.slots@[k] as int)
                < new_self.keys@.len() && new_self.keys@[new_self.slots@[k] as int] == k by {
                if k != child_key {
                    assert(mid.slots@.contains_key(k));
                }
            }
            assert forall|l: nat, x: u64|
                0 < l <= 3 && x < VIRTUAL_ADDRESS_LIMIT && #[trigger] new_self.has_table(l, x) implies {
                    &&& new_self.has_table((l - 1) as nat, x)
                    &&& spec_entry_present(new_self.raw_entry((l - 1) as nat, x)@)
                } by {
                if mid.has_table(l, x) {
                    assert(mid.has_table((l - 1) as nat, x));
                } else {
                    lemma_table_number_next(lv, x);
                    lemma_table_number_next(lv, va@);
                    mid.lemma_lookup_page(lv, x, va@);
                    lemma_page_number(lv, x, va@);
                    lemma_table_key(lv, x, lv, va@);
                    assert(mid.has_table(lv, x));
                    assert(mid.position(lv, x) == mid.position(lv, va@));
                    assert(mid.has_table(lv, va@));
                }
            }
            assert(new_self.wf());
            assert(mid.has_table(lv, va@));
            assert(new_self.raw_entry(lv, va@) == mid.raw_entry(lv, va@));
            assert forall|l: nat, x: u64| x < VIRTUAL_ADDRESS_LIMIT implies #[trigger] new_self.lookup(l, x)
                == old_self.lookup(l, x) by {
                if l == lv && page_number(l, x) == page_number(l, va@) {
                    old_self.lemma_lookup_page(lv, x, va@);
                    lemma_table_number_next(lv, x);
                    lemma_table_number_next(lv, va@);
                    lemma_table_key(lv + 1, x, lv + 1, va@);
                    assert(new_self.has_table(lv + 1, x));
                } else {
                    assert(mid.lookup(l, x) == old_self.lookup(l, x));
                }
                if l <= 3 {
                    if mid.has_table(l, x) {
                        if l < 3 && !mid.has_table(l + 1, x) && new_self.has_table(l + 1, x) {
                            // The slot above the new table: absent before, a table entry now.
                            lemma_table_number_next(lv, x);
                            lemma_table_number_next(lv, va@);
                            mid.lemma_lookup_page(lv, x, va@);
                            lemma_page_number(lv, x, va@);
                            lemma_table_key(lv, x, lv, va@);
                            assert(mid.position(l, x) == mid.position(lv, va@));
                        }
                    }
                }
            }
            assert forall|l: nat, x: u64| #[trigger] old_self.has_table(l, x) implies new_self.has_table(l, x) by {
                assert(mid.has_table(l, x));
            }
            assert forall|l: nat, x: u64| #[trigger] new_self.has_table(l, x) implies old_self.has_table(l, x) || l == lv + 1 by {
                assert(mid.has_table(l, x) == old_self.has_table(l, x));
                if !mid.has_table(l, x) {
                    lemma_key_level(l, x);
                    lemma_key_level(lv + 1, va@);
                }
            }
        }
        n
    }

    /// Maps `page` in the table kept in `slot`, reached at `table_address`, which is the
    /// table at the page's own level, to `physical_address`. If the slot was occupied,
    /// by a page or by a pointer to a subtable, the page is flushed from the TLBs after
    /// the new entry is written. A subtable that hung below the slot leaves the
    /// hierarchy with every table below it, and their frames go back to `mem`; the
    /// smaller pages mapped there are no longer mapped.
    fn map_page_in_this_table<S: PageSize>(
        &mut self,
        mem: &mut FrameAllocator,
        page: Page<S>,
        slot: usize,
        table_address: u64,
        physical_address: u64,
        flags: PageTableEntryFlags,
    )
        requires
            old(self).wf(),
            old(mem).wf(),
            page.valid(),
            old(self).has_table(S::spec_map_level(), page@),
            slot == old(self).slots@[table_key(S::spec_map_level(), page@)],
            table_address == crate::table_address::table_address(S::spec_map_level(), page@),
            physical_address % 4096 == 0,
            physical_address < VIRTUAL_ADDRESS_LIMIT,
            flags.valid(),
        ensures
            final(self).wf(),
            final(mem).wf(),
            final(mem).spec_start() == old(mem).spec_start(),
            final(mem).spec_next() == old(mem).spec_next(),
            final(mem).spec_limit() == old(mem).spec_limit(),
            old(self).has_table(S::spec_map_level() + 1, page@) ==> final(mem).spec_free() == old(
                mem).spec_free() + old(self).subtree_frames(S::spec_map_level(), page@),
            !old(self).has_table(S::spec_map_level() + 1, page@) ==> *final(mem) == *old(mem),
            forall|l: nat, x: u64|
                x < VIRTUAL_ADDRESS_LIMIT ==> #[trigger] final(self).has_table(l, x) == (old(
                    self).has_table(l, x) && !(l > S::spec_map_level() && page_number(
                    S::spec_map_level(),
                    x,
                ) == page_number(S::spec_map_level(), page@))),
            forall|l: nat, x: u64|
                l <= 3 && x < VIRTUAL_ADDRESS_LIMIT && final(self).has_table(l, x) && !(l
                    == S::spec_map_level() && page_number(l, x) == page_number(l, page@))
                    ==> #[trigger] final(self).raw_entry(l, x) == old(self).raw_entry(l, x),
            forall|x: u64|
                x < VIRTUAL_ADDRESS_LIMIT && page_number(S::spec_map_level(), x) == page_number(
                    S::spec_map_level(),
                    page@,
                ) ==> #[trigger] final(self).maps_to(
                    S::spec_map_level(),
                    x,
                    spec_entry_word(
                        physical_address,
                        flags@ | extra_flag_at_level(S::spec_map_level()),
                    ),
                ),
            forall|l: nat, x: u64|
                x < VIRTUAL_ADDRESS_LIMIT && l > S::spec_map_level() && page_number(
                    S::spec_map_level(),
                    x,
                ) == page_number(S::spec_map_level(), page@) ==> #[trigger] final(self).lookup(l, x)
                    is None,
            forall|l: nat, x: u64|
                x < VIRTUAL_ADDRESS_LIMIT && !(l >= S::spec_map_level() && page_number(
                    S::spec_map_level(),
                    x,
                ) == page_number(S::spec_map_level(), page@)) ==> #[trigger] final(self).lookup(l, x)
                    == old(self).lookup(l, x),
            final(self).spec_flushed() == if old(self).entry_at(S::spec_map_level(), page@) is Some {
                old(self).spec_flushed().push(page@)
            } else {
                old(self).spec_flushed()
            },
    {
        let level = S::map_level();
        let ghost old_self = *self;
        let ghost lv = level as nat;
        if level < 3 && self.subtable(level, table_address, page).1.is_some() {
            self.free_subtree(mem, page, table_address);
        }
        let ghost freed = *self;
        proof {
            if !(lv < 3 && old_self.has_table(lv + 1, page@)) {
                assert forall|l: nat, x: u64|
                    x < VIRTUAL_ADDRESS_LIMIT && l > lv && page_number(lv, x) == page_number(lv, page@)
                    implies !#[trigger] old_self.has_table(l, x) by {
                    if old_self.has_table(l, x) && l <= 3 {
                        old_self.lemma_path(l, x);
                        assert(old_self.has_table(lv + 1, x));
                        lemma_table_number_next(lv, x);
                        lemma_table_number_next(lv, page@);
                        lemma_table_key(lv + 1, x, lv + 1, page@);
                    }
                }
            }
            assert forall|l: nat, x: u64| x < VIRTUAL_ADDRESS_LIMIT implies #[trigger] freed.has_table(l, x)
                == (old_self.has_table(l, x) && !(l > lv && page_number(lv, x) == page_number(lv, page@))) by {
                if !(lv < 3 && old_self.has_table(lv + 1, page@)) {
                    if l > lv && page_number(lv, x) == page_number(lv, page@) {
                        assert(!old_self.has_table(l, x));
                    }
                }
            }
            assert(freed.has_table(lv, page@));
            assert(freed.slots@.contains_key(table_key(lv, page@)));
            assert(freed.slots@[table_key(lv, page@)] == slot);
            assert(freed.raw_entry(lv, page@) == old_self.raw_entry(lv, page@));
            assert(!freed.has_table(lv + 1, page@));
            assert forall|l: nat, x: u64|
                x < VIRTUAL_ADDRESS_LIMIT && !(l >= lv && page_number(lv, x) == page_number(lv, page@))
                implies #[trigger] freed.lookup(l, x) == old_self.lookup(l, x) by {
                if freed.has_table(l, x) {
                    assert(freed.raw_entry(l, x) == old_self.raw_entry(l, x));
                }
                if l + 1 > lv && page_number(lv, x) == page_number(lv, page@) {
                    assert(l < lv);
                }
            }
        }
        let va = page.address();
        let idx = page.table_index(level);
        let flush = self.read_entry(slot, Ghost(level as nat), Ghost(va), idx).is_present();
        let all_flags = S::map_extra_flag().union(flags);
        let mut e = PageTableEntry::unused();
        e.set(physical_address, all_flags);
        proof {
            lemma_entry_word(physical_address, all_flags@);
            let f = flags@;
            let x = extra_flag_at_level(level as nat);
            assert(x | f == f | x) by (bit_vector);
        }
        self.write_leaf(slot, Ghost(level as nat), Ghost(va), idx, e);
        let ghost written = *self;
        if flush {
            page.flush_from_tlb(&mut self.flushed);
        }
        assert(self.slots@ == written.slots@ && self.keys@ == written.keys@ && self.entries@
            == written.entries@);
        assert forall|l: nat, x: u64| #[trigger] self.has_table(l, x) == written.has_table(l, x) by {}
        assert forall|l: nat, x: u64| #[trigger] self.lookup(l, x) == written.lookup(l, x) by {
            if self.has_table(l, x) {
                assert(self.raw_entry(l, x) == written.raw_entry(l, x));
            }
        }
        assert forall|l: nat, x: u64|
            l <= 3 && x < VIRTUAL_ADDRESS_LIMIT && self.has_table(l, x) && !(l == lv && page_number(l, x)
                == page_number(l, va)) implies #[trigger] self.raw_entry(l, x) == old_self.raw_entry(l, x) by {
            assert(self.raw_entry(l, x) == written.raw_entry(l, x));
            assert(written.raw_entry(l, x) == freed.raw_entry(l, x));
        }
        assert forall|l: nat, x: u64|
            x < VIRTUAL_ADDRESS_LIMIT && l > lv && page_number(lv, x) == page_number(lv, va)
            implies #[trigger] self.lookup(l, x) is None by {
            assert(!freed.has_table(l, x));
        }
    }

    /// Maps `page` to `physical_address`, walking from the root and creating each
    /// missing table on the way from a base frame of `mem`; each new table entry holds
    /// its frame as a normal table entry, and each new table starts with every entry
    /// unused. At the page's own level the slot is set (see `map_page_in_this_table`):
    /// a page there is remapped, and a subtable there is taken out with all tables
    /// below it, their frames going back to `mem`.
    ///
    /// Fails with `LevelMismatch`, changing nothing, exactly when a larger page is
    /// mapped on the way (`blocked`). Fails with `AllocationFailure` only when `mem` has
    /// no base frame left. On failure, tables created on the way stay, but no lookup
    /// changes.
    pub fn map_page<S: PageSize>(
        &mut self,
        mem: &mut FrameAllocator,
        page: Page<S>,
        physical_address: u64,
        flags: PageTableEntryFlags,
    ) -> (r: Result<(), PagingError>)
        requires
            old(self).wf(),
            old(mem).wf(),
            page.valid(),
            physical_address % 4096 == 0,
            physical_address < VIRTUAL_ADDRESS_LIMIT,
            flags.valid(),
        ensures
            final(self).wf(),
            final(mem).wf(),
            final(mem).spec_start() == old(mem).spec_start(),
            final(mem).spec_limit() == old(mem).spec_limit(),
            (r == Err::<(), PagingError>(PagingError::LevelMismatch)) <==> old(self).blocked(S::spec_map_level(), page@),
            r == Err::<(), PagingError>(PagingError::AllocationFailure) ==> !old(mem).has_base_frames(S::spec_map_level())
                && !final(mem).has_base_frames(1),
            forall|n: nat|
                #[trigger] old(mem).has_base_frames(n + S::spec_map_level()) ==> final(mem).has_base_frames(n),
            old(self).blocked(S::spec_map_level(), page@) ==> *final(self) == *old(self) && *final(mem) == *old(mem),
            old(self).has_table(S::spec_map_level(), page@) && !old(self).has_table(S::spec_map_level() + 1, page@) ==> *final(mem)
                == *old(mem),
            old(self).has_table(S::spec_map_level() + 1, page@) ==> r is Ok && final(mem).spec_next() == old(
                mem).spec_next() && final(mem).spec_free() == old(mem).spec_free() + old(
                self).subtree_frames(S::spec_map_level(), page@),
            r is Ok && !old(self).has_table(S::spec_map_level() + 1, page@) ==> exists|frames: Seq<u64>|
                {
                    &&& frames.len() + old(self).table_depth(S::spec_map_level(), page@) == S::spec_map_level()
                    &&& allocated_run(*old(mem), *final(mem), frames)
                    &&& forall|i: int|
                        0 <= i < frames.len() ==> #[trigger] final(self).raw_entry(
                            (old(self).table_depth(S::spec_map_level(), page@) + i) as nat,
                            page@,
                        )@ == spec_entry_word(frames[i], NORMAL | TABLE_OR_4KIB_PAGE)
                },
            forall|l: nat, x: u64|
                l <= 3 && x < VIRTUAL_ADDRESS_LIMIT && #[trigger] final(self).has_table(l, x) && !old(
                    self).has_table(l, x) && page_number(l, x) != page_number(l, page@) ==> final(
                    self).raw_entry(l, x)@ == 0,
            old(self).has_table(S::spec_map_level(), page@) && !old(self).blocked(S::spec_map_level(), page@) ==> r is Ok,
            forall|l: nat, x: u64|
                x < VIRTUAL_ADDRESS_LIMIT && #[trigger] old(self).has_table(l, x) && !(l > S::spec_map_level()
                    && page_number(S::spec_map_level(), x) == page_number(S::spec_map_level(), page@)) ==> final(self).has_table(l, x),
            forall|x: u64|
                x < VIRTUAL_ADDRESS_LIMIT && page_number(S::spec_map_level(), x) != page_number(S::spec_map_level(), page@)
                    ==> #[trigger] final(self).has_table(S::spec_map_level() + 1, x) == old(self).has_table(S::spec_map_level() + 1, x),
            forall|x: u64|
                x < VIRTUAL_ADDRESS_LIMIT && page_number(S::spec_map_level(), x) != page_number(S::spec_map_level(), page@)
                    ==> #[trigger] final(self).entry_at(S::spec_map_level(), x) == old(self).entry_at(S::spec_map_level(), x),
            r is Err ==> r == Err::<(), PagingError>(PagingError::LevelMismatch) || r == Err::<
                (),
                PagingError,
            >(PagingError::AllocationFailure),
            r is Err ==> final(self).spec_flushed() == old(self).spec_flushed(),
            r is Err ==> forall|l: nat, x: u64|
                x < VIRTUAL_ADDRESS_LIMIT ==> #[trigger] final(self).lookup(l, x) == old(self).lookup(l, x),
            r is Ok ==> forall|x: u64|
                x < VIRTUAL_ADDRESS_LIMIT && page_number(S::spec_map_level(), x) == page_number(S::spec_map_level(), page@)
                    ==> #[trigger] final(self).maps_to(
                    S::spec_map_level(),
                    x,
                    spec_entry_word(physical_address, flags@ | extra_flag_at_level(S::spec_map_level())),
                ),
            r is Ok ==> forall|l: nat, x: u64|
                x < VIRTUAL_ADDRESS_LIMIT && l > S::spec_map_level() && page_number(S::spec_map_level(), x) == page_number(
                    S::spec_map_level(),
                    page@,
                ) ==> #[trigger] final(self).lookup(l, x) is None,
            r is Ok ==> forall|l: nat, x: u64|
                x < VIRTUAL_ADDRESS_LIMIT && !(l >= S::spec_map_level() && page_number(S::spec_map_level(), x) == page_number(
                    S::spec_map_level(),
                    page@,
                )) ==> #[trigger] final(self).lookup(l, x) == old(self).lookup(l, x),
            r is Ok ==> final(self).spec_flushed() == if old(self).entry_at(S::spec_map_level(), page@) is Some {
                old(self).spec_flushed().push(page@)
            } else {
                old(self).spec_flushed()
            },
    {
        let level = S::map_level();
        let va = page.address();
        proof {
            lemma_key_level(0, va);
            lemma_key_level(0, 0);
            lemma_page_sizes_pow2();
        }
        let ghost old_self = *self;
        let ghost old_mem = *mem;
        let ghost depth = old_self.table_depth(level as nat, va);
        let ghost mut frames: Seq<u64> = Seq::empty();
        proof {
            old_self.lemma_table_depth(level as nat, va);
        }
        let mut addr: u64 = L0TABLE_ADDRESS;
        let mut slot: usize = *self.slots.get(&L0TABLE_ADDRESS).unwrap();
        let mut l: usize = 0;
        while l < level
            invariant
                old_mem == *old(mem),
                old_self == *old(self),
                self.wf(),
                mem.wf(),
                mem.spec_start() == old_mem.spec_start(),
                mem.spec_limit() == old_mem.spec_limit(),
                page.valid(),
                va == page@,
                level == S::spec_map_level(),
                l <= level <= 3,
                self.has_table(l as nat, va),
                addr == crate::table_address::table_address(l as nat, va),
                slot == self.slots@[table_key(l as nat, va)],
                self.spec_flushed() == old_self.spec_flushed(),
                forall|j: nat, x: u64|
                    x < VIRTUAL_ADDRESS_LIMIT ==> #[trigger] self.lookup(j, x) == old_self.lookup(j, x),
                forall|j: nat, x: u64|
                    #[trigger] self.has_table(j, x) ==> old_self.has_table(j, x) || j <= level,
                old_self.blocked(level as nat, va) ==> *self == old_self && *mem == old_mem,
                old_self.has_table(level as nat, va) ==> *self == old_self && *mem == old_mem,
                forall|n: nat|
                    #[trigger] old_mem.has_base_frames((n + level) as nat) ==> mem.has_base_frames((n + level - l) as nat),
                forall|j: nat, x: u64|
                    #[trigger] old_self.has_table(j, x) ==> self.has_table(j, x),
                is_pow2(4096),
                depth == old_self.table_depth(level as nat, va),
                depth <= level,
                forall|j: nat| j <= level ==> (#[trigger] old_self.has_table(j, va) <==> j <= depth),
                allocated_run(old_mem, *mem, frames),
                frames.len() == if l > depth { l - depth } else { 0 },
                forall|i: int|
                    0 <= i < frames.len() ==> #[trigger] self.raw_entry((depth + i) as nat, va)@
                        == spec_entry_word(frames[i], NORMAL | TABLE_OR_4KIB_PAGE),
                forall|j: nat, x: u64|
                    j <= 3 && x < VIRTUAL_ADDRESS_LIMIT && #[trigger] self.has_table(j, x) && !old_self.has_table(j, x)
                        && page_number(j, x) != page_number(j, va) ==> self.raw_entry(j, x)@ == 0,
                forall|j: nat, x: u64|
                    j <= 3 && x < VIRTUAL_ADDRESS_LIMIT && #[trigger] self.has_table(j, x) && !old_self.has_table(j, x)
                        ==> !spec_entry_present(self.raw_entry(j, x)@) || page_number(j, x) == page_number(j, va),
                forall|j: nat, x: u64|
                    j <= 3 && x < VIRTUAL_ADDRESS_LIMIT && #[trigger] old_self.has_table(j, x) && page_number(j, x)
                        != page_number(j, va) ==> self.raw_entry(j, x) == old_self.raw_entry(j, x),
                forall|j: nat| l < j <= 3 ==> #[trigger] self.has_table(j, va) == old_self.has_table(j, va),
            decreases level - l,
        {
            let idx = page.table_index(l);
            let e = self.read_entry(slot, Ghost(l as nat), Ghost(va), idx);
            let (child, sub) = self.subtable(l, addr, page);
            proof {
                lemma_key_level(l as nat, va);
            }
            let child_key = child | (l as u64 + 1);
            if !e.is_present() {
                proof {
                    if old_self.has_table(level as nat, va) {
                        self.lemma_path(level as nat, va);
                    }
                    if old_self.blocked(level as nat, va) {
                        if self.has_table(level as nat + 1, va) {
                            self.lemma_path(level as nat + 1, va);
                        }
                        assert forall|j: nat| j < level && #[trigger] self.lookup(j, va) is Some implies false by {
                            if j < l {
                                self.lemma_path(l as nat, va);
                                assert(self.has_table(j + 1, va));
                            } else if j > l {
                                self.lemma_path(j, va);
                            }
                        }
                    }
                }
                let ghost mem_before = *mem;
                let frame = match allocate(mem, 4096) {
                    Ok(f) => f,
                    Err(_) => {
                        proof {
                            lemma_align_up_multiple(old_mem.spec_next() as int, 4096);
                            assert(old_mem.has_base_frames((0 + level) as nat) ==> mem.has_base_frames((0 + level - l) as nat));
                            lemma_no_base_frame(*mem);
                            if old_mem.has_base_frames(level as nat) {
                                lemma_base_frames_fewer(*mem, (level - l) as nat, 1);
                            }
                        }
                        return Err(PagingError::AllocationFailure);
                    },
                };
                proof {
                    let m = *mem;
                    lemma_align_up_multiple(m.spec_next() as int, 4096);
                    assert(!self.has_table(l as nat + 1, va));
                    assert(l >= depth);
                    let prev = frames;
                    frames = frames.push(frame);
                    assert(frames.subrange(0, frames.len() - 1) =~= prev);
                    assert(allocated(mem_before, *mem, 4096, 4096, frame));
                    assert(frames.last() == frame);
                    assert(allocated(mem_before, *mem, 4096, 4096, frames.last()));
                    assert(allocated_run(old_mem, mem_before, frames.subrange(0, frames.len() - 1)));
                    assert(allocated_run(old_mem, *mem, frames));
                    assert forall|n: nat| #[trigger] old_mem.has_base_frames((n + level) as nat) implies mem.has_base_frames(
                        (n + level - (l + 1)) as nat,
                    ) by {
                        assert(mem_before.has_base_frames((n + level - l) as nat));
                        lemma_base_frame_taken(mem_before, *mem, frame, (n + level - (l + 1)) as nat);
                    }
                }
                let ghost before_create = *self;
                slot = self.create_subtable(slot, l, Ghost(va), idx, child_key, frame);
                proof {
                    assert forall|i: int| 0 <= i < frames.len() implies #[trigger] self.raw_entry((depth + i) as nat, va)@
                        == spec_entry_word(frames[i], NORMAL | TABLE_OR_4KIB_PAGE) by {
                        if i < frames.len() - 1 {
                            before_create.lemma_path(l as nat, va);
                            assert(before_create.has_table((depth + i) as nat, va));
                            assert(self.raw_entry((depth + i) as nat, va) == before_create.raw_entry((depth + i) as nat, va));
                        }
                    }
                    assert forall|j: nat| l + 1 < j <= 3 implies #[trigger] self.has_table(j, va) == old_self.has_table(j, va) by {
                        assert(before_create.has_table(j, va) == old_self.has_table(j, va));
                        if self.has_table(j, va) {
                            assert(before_create.has_table(j, va) || j == l + 1);
                        }
                    }
                }
            } else {
                match sub {
                    Some(s) => {
                        proof {
                            assert(old_self.has_table(l as nat + 1, va));
                            assert forall|n: nat| #[trigger] old_mem.has_base_frames((n + level) as nat) implies mem.has_base_frames(
                                (n + level - (l + 1)) as nat,
                            ) by {
                                lemma_base_frames_fewer(*mem, (n + level - l) as nat, (n + level - (l + 1)) as nat);
                            }
                        }
                        slot = s;
                    },
                    None => {
                        proof {
                            assert(self.lookup(l as nat, va) is Some);
                            assert(old_self.lookup(l as nat, va) is Some);
                        }
                        return Err(PagingError::LevelMismatch);
                    },
                }
            }
            addr = child;
            l = l + 1;
        }
        proof {
            if old_self.blocked(level as nat, va) {
                assert forall|j: nat| j < level && #[trigger] self.lookup(j, va) is Some implies false by {
                    self.lemma_path(level as nat, va);
                    assert(self.has_table(j + 1, va));
                }
            }
            assert(self.lookup(level as nat, va) == old_self.lookup(level as nat, va));
        }
        let ghost before_leaf = *self;
        let ghost mem_before_leaf = *mem;
        proof {
            before_leaf.lemma_path(level as nat, va);
            assert(before_leaf.entry_at(level as nat, va) == old_self.entry_at(level as nat, va)) by {
                if !old_self.has_table(level as nat, va) {
                    assert(!spec_entry_present(before_leaf.raw_entry(level as nat, va)@));
                }
            }
            if old_self.has_table(level as nat + 1, va) {
                assert(before_leaf == old_self);
            }
        }
        self.map_page_in_this_table(mem, page, slot, addr, physical_address, flags);
        proof {
            assert forall|i: int| 0 <= i < frames.len() implies #[trigger] self.raw_entry((depth + i) as nat, va)@
                == spec_entry_word(frames[i], NORMAL | TABLE_OR_4KIB_PAGE) by {
                assert(before_leaf.has_table((depth + i) as nat, va));
                assert(self.has_table((depth + i) as nat, va));
                assert(self.raw_entry((depth + i) as nat, va) == before_leaf.raw_entry((depth + i) as nat, va));
            }
            assert forall|n: nat| #[trigger] old_mem.has_base_frames((n + level) as nat) implies mem.has_base_frames(n) by {
                assert(old_mem.has_base_frames((n + level) as nat));
                assert(mem_before_leaf.has_base_frames(n));
                if old_self.has_table(level as nat + 1, va) {
                    crate::physicalmem::lemma_base_frames_returned(
                        mem_before_leaf,
                        *mem,
                        old_self.subtree_frames(level as nat, va),
                        n,
                    );
                }
            }
        }
        Ok(())
    }

    /// Unmaps `page` if it is mapped as a page of size `S`: clears its entry, flushes it
    /// from the TLBs and gives its frame back to `mem`. An unmapped page is left alone.
    pub fn unmap_page<S: PageSize>(&mut self, mem: &mut FrameAllocator, page: Page<S>)
        requires
            old(self).wf(),
            old(mem).wf(),
            page.valid(),
        ensures
            final(self).wf(),
            final(mem).wf(),
            final(mem).spec_start() == old(mem).spec_start(),
            final(mem).spec_next() == old(mem).spec_next(),
            final(mem).spec_limit() == old(mem).spec_limit(),
            forall|x: u64|
                x < VIRTUAL_ADDRESS_LIMIT && page_number(S::spec_map_level(), x) == page_number(
                    S::spec_map_level(),
                    page@,
                ) ==> #[trigger] final(self).lookup(S::spec_map_level(), x) is None,
            forall|l: nat, x: u64|
                x < VIRTUAL_ADDRESS_LIMIT && !(l == S::spec_map_level() && page_number(l, x)
                    == page_number(l, page@)) ==> #[trigger] final(self).lookup(l, x) == old(self).lookup(l, x),
            match old(self).lookup(S::spec_map_level(), page@) {
                Some(e) => {
                    &&& final(mem).spec_free() == old(mem).spec_free().push(
                        (spec_entry_address(e@), size_at_level(S::spec_map_level())),
                    )
                    &&& final(self).spec_flushed() == old(self).spec_flushed().push(page@)
                },
                None => {
                    &&& final(mem).spec_free() == old(mem).spec_free()
                    &&& final(self).spec_flushed() == old(self).spec_flushed()
                    &&& *final(self) == *old(self)
                },
            },
    {
        let level = S::map_level();
        let va = page.address();
        let ghost old_self = *self;
        let found = self.find_table(page, level);
        proof {
            if !self.has_table(level as nat, va) {
                assert forall|x: u64|
                    x < VIRTUAL_ADDRESS_LIMIT && page_number(level as nat, x) == page_number(level as nat, va)
                    implies #[trigger] self.lookup(level as nat, x) is None by {
                    self.lemma_lookup_page(level as nat, x, va);
                }
            }
        }
        let (addr, slot) = match found {
            Some(t) => t,
            None => {
                return;
            },
        };
        let idx = page.table_index(level);
        let e = self.read_entry(slot, Ghost(level as nat), Ghost(va), idx);
        if !e.is_present() {
            proof {
                assert forall|x: u64|
                    x < VIRTUAL_ADDRESS_LIMIT && page_number(level as nat, x) == page_number(level as nat, va)
                    implies #[trigger] self.lookup(level as nat, x) is None by {
                    self.lemma_lookup_page(level as nat, x, va);
                }
            }
            return;
        }
        if level < 3 {
            if self.subtable(level, addr, page).1.is_some() {
                proof {
                    assert(self.has_table(level as nat + 1, va));
                    assert forall|x: u64|
                        x < VIRTUAL_ADDRESS_LIMIT && page_number(level as nat, x) == page_number(level as nat, va)
                        implies #[trigger] self.lookup(level as nat, x) is None by {
                        self.lemma_lookup_page(level as nat, x, va);
                    }
                }
                return;
            }
        }
        let size = S::size();
        let frame = e.address();
        self.write_leaf(slot, Ghost(level as nat), Ghost(va), idx, PageTableEntry::unused());
        let ghost written = *self;
        page.flush_from_tlb(&mut self.flushed);
        assert(self.slots@ == written.slots@ && self.keys@ == written.keys@ && self.entries@
            == written.entries@);
        assert forall|l: nat, x: u64| #[trigger] self.has_table(l, x) == written.has_table(l, x) by {}
        assert forall|l: nat, x: u64| #[trigger] self.lookup(l, x) == written.lookup(l, x) by {
            if self.has_table(l, x) {
                assert(self.raw_entry(l, x) == written.raw_entry(l, x));
            }
        }
        deallocate(mem, frame, size);
    }

    /// Maps the pages of `range` to consecutive frames from `physical_address` on.
    ///
    /// Not atomic: when a page fails (see `map_page`), the pages before it stay mapped,
    /// and neither it nor the pages after it change.
    pub fn map_pages<S: PageSize>(
        &mut self,
        mem: &mut FrameAllocator,
        range: PageIter<S>,
        physical_address: u64,
        flags: PageTableEntryFlags,
    ) -> (r: Result<(), PagingError>)
        requires
            old(self).wf(),
            old(mem).wf(),
            range.valid(),
            flags.valid(),
            physical_address % 4096 == 0,
            range.remaining() > 0 ==> physical_address + (range.remaining() - 1) * size_at_level(
                S::spec_map_level(),
            ) < VIRTUAL_ADDRESS_LIMIT,
        ensures
            final(self).wf(),
            final(mem).wf(),
            (forall|k: int|
                0 <= k < range.remaining() ==> !#[trigger] old(self).blocked(
                    S::spec_map_level(),
                    (range@.0 + k * size_at_level(S::spec_map_level())) as u64,
                )) && old(mem).has_base_frames(S::spec_map_level() * range.remaining()) ==> r is Ok,
            (forall|k: int|
                #![trigger old(self).has_table(S::spec_map_level(), (range@.0 + k * size_at_level(S::spec_map_level())) as u64)]
                #![trigger old(self).blocked(S::spec_map_level(), (range@.0 + k * size_at_level(S::spec_map_level())) as u64)]
                0 <= k < range.remaining() ==> old(self).has_table(
                    S::spec_map_level(),
                    (range@.0 + k * size_at_level(S::spec_map_level())) as u64,
                ) && !old(self).blocked(
                    S::spec_map_level(),
                    (range@.0 + k * size_at_level(S::spec_map_level())) as u64,
                ) && !old(self).has_table(
                    S::spec_map_level() + 1,
                    (range@.0 + k * size_at_level(S::spec_map_level())) as u64,
                )) ==> r is Ok && *final(mem) == *old(mem),
            final(mem).spec_start() == old(mem).spec_start(),
            final(mem).spec_limit() == old(mem).spec_limit(),
            r == Err::<(), PagingError>(PagingError::AllocationFailure) ==> !final(mem).has_base_frames(1),
            forall|m: nat|
                #[trigger] old(mem).has_base_frames(m + S::spec_map_level() * range.remaining())
                    ==> final(mem).has_base_frames(m),
            r is Ok ==> final(self).maps_run(
                S::spec_map_level(),
                range@.0,
                physical_address,
                range.remaining(),
                flags@,
            ),
            r is Ok ==> final(self).spec_flushed() == old(self).spec_flushed() + old(
                self,
            ).occupied_pages(S::spec_map_level(), range@.0, range.remaining()),
            r is Ok ==> forall|l: nat, x: u64|
                x < VIRTUAL_ADDRESS_LIMIT && l > S::spec_map_level() && !Self::outside_run(
                    S::spec_map_level(),
                    range@.0,
                    range.remaining(),
                    l,
                    x,
                ) ==> #[trigger] final(self).lookup(l, x) is None,
            r is Ok ==> forall|l: nat, x: u64|
                x < VIRTUAL_ADDRESS_LIMIT && Self::outside_run(
                    S::spec_map_level(),
                    range@.0,
                    range.remaining(),
                    l,
                    x,
                ) ==> #[trigger] final(self).lookup(l, x) == old(self).lookup(l, x),
            r is Err ==> exists|m: nat|
                m < range.remaining() && (r == Err::<(), PagingError>(PagingError::LevelMismatch)
                    <==> old(self).blocked(
                    S::spec_map_level(),
                    (range@.0 + m * size_at_level(S::spec_map_level())) as u64,
                )) && (r == Err::<(), PagingError>(PagingError::LevelMismatch) || r == Err::<
                    (),
                    PagingError,
                >(PagingError::AllocationFailure)) && final(self).spec_flushed() == old(self).spec_flushed()
                    + old(self).occupied_pages(S::spec_map_level(), range@.0, m) && final(self).maps_run(
                    S::spec_map_level(),
                    range@.0,
                    physical_address,
                    m,
                    flags@,
                ) && forall|l: nat, x: u64|
                    x < VIRTUAL_ADDRESS_LIMIT && Self::outside_run(
                        S::spec_map_level(),
                        range@.0,
                        m,
                        l,
                        x,
                    ) ==> #[trigger] final(self).lookup(l, x) == old(self).lookup(l, x),
    {
        let size = S::size();
        let ghost level = S::spec_map_level();
        let ghost first = range@.0;
        let ghost n = range.remaining();
        let ghost old_self = *self;
        let ghost old_mem = *mem;
        let ghost good = (forall|k: int|
            0 <= k < n ==> !#[trigger] old_self.blocked(level, (first + k * size_at_level(level)) as u64))
            && old_mem.has_base_frames(level * n);
        let mut pages = range;
        let mut current_physical_address = physical_address;
        let mut done: u64 = 0;
        proof {
            lemma_page_sizes_pow2();
            vstd::arithmetic::div_mod::lemma_fundamental_div_mod(first as int, size as int);
        }
        loop
            invariant
                old_mem == *old(mem),
                old_self == *old(self),
                self.wf(),
                mem.wf(),
                mem.spec_start() == old_mem.spec_start(),
                mem.spec_limit() == old_mem.spec_limit(),
                flags.valid(),
                pages.valid(),
                first == range@.0,
                n == range.remaining(),
                size == size_at_level(level),
                level == S::spec_map_level(),
                first % size == 0,
                first == size * (first as int / size as int),
                pages@.0 == first + done * size,
                pages.remaining() + done == n,
                current_physical_address == physical_address + done * size,
                physical_address % 4096 == 0,
                n > 0 ==> physical_address + (n - 1) * size < VIRTUAL_ADDRESS_LIMIT,
                self.maps_run(level, first, physical_address, done as nat, flags@),
                self.spec_flushed() == old_self.spec_flushed() + old_self.occupied_pages(level, first, done as nat),
                good == ((forall|k: int|
                    0 <= k < n ==> !#[trigger] old_self.blocked(level, (first + k * size_at_level(level)) as u64))
                    && old_mem.has_base_frames(level * n)),
                good ==> mem.has_base_frames(level * (n - done) as nat),
                forall|k: int|
                    done <= k < n ==> #[trigger] self.blocked(level, (first + k * size_at_level(level)) as u64)
                        == old_self.blocked(level, (first + k * size_at_level(level)) as u64),
                (forall|k: int|
                    #![trigger old_self.has_table(level, (first + k * size_at_level(level)) as u64)]
                    #![trigger old_self.blocked(level, (first + k * size_at_level(level)) as u64)]
                    0 <= k < n ==> old_self.has_table(level, (first + k * size_at_level(level)) as u64)
                        && !old_self.blocked(level, (first + k * size_at_level(level)) as u64)
                        && !old_self.has_table(level + 1, (first + k * size_at_level(level)) as u64)) ==> *mem == old_mem,
                (forall|k: int|
                    #![trigger old_self.has_table(level, (first + k * size_at_level(level)) as u64)]
                    #![trigger old_self.blocked(level, (first + k * size_at_level(level)) as u64)]
                    0 <= k < n ==> old_self.has_table(level, (first + k * size_at_level(level)) as u64)
                        && !old_self.blocked(level, (first + k * size_at_level(level)) as u64)
                        && !old_self.has_table(level + 1, (first + k * size_at_level(level)) as u64)) ==> forall|k: int|
                    done <= k < n ==> #[trigger] self.has_table(level, (first + k * size_at_level(level)) as u64)
                        && !self.has_table(level + 1, (first + k * size_at_level(level)) as u64),
                1 <= level <= 3,
                forall|m: nat|
                    #[trigger] old_mem.has_base_frames((m + level * done) as nat) ==> mem.has_base_frames(m),
                forall|k: int|
                    done <= k < n ==> #[trigger] self.entry_at(level, (first + k * size_at_level(level)) as u64)
                        == old_self.entry_at(level, (first + k * size_at_level(level)) as u64),
                forall|l: nat, x: u64|
                    x < VIRTUAL_ADDRESS_LIMIT && l > level && !Self::outside_run(level, first, done as nat, l, x)
                        ==> #[trigger] self.lookup(l, x) is None,
                forall|l: nat, x: u64|
                    x < VIRTUAL_ADDRESS_LIMIT && Self::outside_run(level, first, done as nat, l, x)
                        ==> #[trigger] self.lookup(l, x) == old_self.lookup(l, x),
            decreases pages.remaining(),
        {
            let ghost before = *self;
            match pages.next() {
                None => {
                    assert(done == n);
                    assert forall|m: nat| #[trigger] old_mem.has_base_frames((m + level * n) as nat) implies mem.has_base_frames(m) by {
                        assert(old_mem.has_base_frames((m + level * done) as nat));
                    }
                    return Ok(());
                },
                Some(page) => {
                    proof {
                        assert(page@ == first + done * size);
                        let q = first as int / size as int;
                        assert((first + done * size) / (size as int) == q + done) by {
                            vstd::arithmetic::div_mod::lemma_div_multiples_vanish(q + done, size as int);
                            assert(first + done * size == size * (q + done)) by (nonlinear_arith)
                                requires
                                    first == size * q,
                            ;
                        }
                        assert(current_physical_address % 4096 == 0) by {
                            assert(size % 4096 == 0);
                            vstd::arithmetic::div_mod::lemma_fundamental_div_mod(size as int, 4096);
                            assert(current_physical_address == physical_address + done * (4096 * (size / 4096))) by (nonlinear_arith)
                                requires
                                    size == 4096 * (size / 4096),
                                    current_physical_address == physical_address + done * size,
                            ;
                            vstd::arithmetic::div_mod::lemma_mod_multiples_vanish(
                                (done * (size / 4096)) as int,
                                physical_address as int,
                                4096,
                            );
                            assert(physical_address + done * (4096 * (size / 4096)) == 4096 * (done * (size / 4096)) + physical_address) by (nonlinear_arith);
                        }
                    }
                    let ghost mem_before = *mem;
                    proof {
                        assert(Self::outside_run(level, first, done as nat, level, page@));
                        assert(self.lookup(level, page@) == old_self.lookup(level, page@));
                    }
                    proof {
                        if good {
                            assert(!self.blocked(level, (first + done * size_at_level(level)) as u64));
                            assert(level * (n - done) >= level) by (nonlinear_arith)
                                requires
                                    n - done >= 1,
                                    level >= 1,
                            ;
                            assert(mem.has_base_frames(level));
                        }
                        assert(page@ == (first + done * size_at_level(level)) as u64);
                        assert(self.entry_at(level, page@) == old_self.entry_at(level, page@));
                        assert(self.blocked(level, page@) == old_self.blocked(level, page@));
                    }
                    match self.map_page(mem, page, current_physical_address, flags) {
                        Err(e) => {
                            assert(self.maps_run(level, first, physical_address, done as nat, flags@)) by {
                                assert forall|k: int, x: u64|
                                    0 <= k < done && x < VIRTUAL_ADDRESS_LIMIT && page_number(level, x)
                                        == page_number(level, first) + k implies #[trigger] self.maps_to(
                                    level,
                                    x,
                                    spec_entry_word(
                                        (physical_address + k * size_at_level(level)) as u64,
                                        flags@ | extra_flag_at_level(level),
                                    ),
                                ) by {
                                    assert(before.maps_to(
                                        level,
                                        x,
                                        spec_entry_word(
                                            (physical_address + k * size_at_level(level)) as u64,
                                            flags@ | extra_flag_at_level(level),
                                        ),
                                    ));
                                }
                            }
                            assert((e == PagingError::LevelMismatch) <==> old_self.blocked(
                                level,
                                (first + done * size_at_level(level)) as u64,
                            ));
                            assert forall|m: nat| #[trigger] old_mem.has_base_frames((m + level * n) as nat) implies mem.has_base_frames(m) by {
                                let rest = (m + level * (n - done - 1)) as nat;
                                assert(m + level * n == (rest + level) + level * done) by (nonlinear_arith)
                                    requires
                                        rest == m + level * (n - done - 1),
                                        n >= done + 1,
                                ;
                                assert(old_mem.has_base_frames(((rest + level) + level * done) as nat));
                                assert(mem_before.has_base_frames((rest + level) as nat));
                                lemma_base_frames_fewer(*mem, rest, m);
                            }
                            return Err(e);
                        },
                        Ok(()) => {},
                    }
                    proof {
                        let p = (first + done * size_at_level(level)) as u64;
                        assert(p == page@);
                        assert(old_self.occupied_pages(level, first, done as nat + 1) == if old_self.entry_at(level, p) is Some {
                            old_self.occupied_pages(level, first, done as nat).push(p)
                        } else {
                            old_self.occupied_pages(level, first, done as nat)
                        });
                        if old_self.entry_at(level, p) is None {
                            assert(self.spec_flushed() =~= old_self.spec_flushed() + old_self.occupied_pages(level, first, done as nat + 1));
                        }
                        assert forall|k: int| done + 1 <= k < n implies #[trigger] self.entry_at(
                            level,
                            (first + k * size_at_level(level)) as u64,
                        ) == old_self.entry_at(level, (first + k * size_at_level(level)) as u64) by {
                            let y = (first + k * size_at_level(level)) as u64;
                            assert(before.entry_at(level, y) == old_self.entry_at(level, y));
                            assert(page_number(level, y) == page_number(level, first) + k) by {
                                let q = first as int / size as int;
                                vstd::arithmetic::div_mod::lemma_div_multiples_vanish(q + k, size as int);
                                assert(first + k * size == size * (q + k)) by (nonlinear_arith)
                                    requires
                                        first == size * q,
                                ;
                            }
                        }
                        assert forall|l: nat, x: u64|
                            x < VIRTUAL_ADDRESS_LIMIT && l > level && !Self::outside_run(level, first, done as nat + 1, l, x)
                            implies #[trigger] self.lookup(l, x) is None by {
                            if page_number(level, x) != page_number(level, page@) {
                                assert(before.lookup(l, x) is None);
                            }
                        }
                        assert forall|l: nat, x: u64|
                            x < VIRTUAL_ADDRESS_LIMIT && Self::outside_run(level, first, done as nat + 1, l, x)
                            implies #[trigger] self.lookup(l, x) == old_self.lookup(l, x) by {
                            assert(before.lookup(l, x) == old_self.lookup(l, x));
                        }
                        assert forall|m: nat| #[trigger] old_mem.has_base_frames((m + level * (done + 1)) as nat) implies mem.has_base_frames(m) by {
                            assert(m + level * (done + 1) == (m + level) + level * done) by (nonlinear_arith);
                            assert(old_mem.has_base_frames(((m + level) + level * done) as nat));
                            assert(mem_before.has_base_frames((m + level) as nat));
                        }
                        if good {
                            let rest = (level * (n - done - 1)) as nat;
                            assert(level * (n - done) == rest + level) by (nonlinear_arith)
                                requires
                                    n - done >= 1,
                                    rest == level * (n - done - 1),
                            ;
                            assert(mem_before.has_base_frames((rest + level) as nat));
                        }
                        assert forall|k: int| done + 1 <= k < n implies #[trigger] self.blocked(
                            level,
                            (first + k * size_at_level(level)) as u64,
                        ) == old_self.blocked(level, (first + k * size_at_level(level)) as u64) by {
                            let p = (first + k * size_at_level(level)) as u64;
                            assert(before.blocked(level, p) == old_self.blocked(level, p));
                            assert(before.lookup(0, p) == self.lookup(0, p));
                            assert(before.lookup(1, p) == self.lookup(1, p));
                            assert(before.lookup(2, p) == self.lookup(2, p));
                            assert(self.has_table(level + 1, p) == before.has_table(level + 1, p));
                        }
                        if (forall|k: int|
                            #![trigger old_self.has_table(level, (first + k * size_at_level(level)) as u64)]
                            #![trigger old_self.blocked(level, (first + k * size_at_level(level)) as u64)]
                            0 <= k < n ==> old_self.has_table(level, (first + k * size_at_level(level)) as u64)
                                && !old_self.blocked(level, (first + k * size_at_level(level)) as u64)
                                && !old_self.has_table(level + 1, (first + k * size_at_level(level)) as u64)) {
                            assert forall|k: int| done + 1 <= k < n implies #[trigger] self.has_table(
                                level,
                                (first + k * size_at_level(level)) as u64,
                            ) && !self.has_table(level + 1, (first + k * size_at_level(level)) as u64) by {
                                let y = (first + k * size_at_level(level)) as u64;
                                assert(before.has_table(level, y));
                                assert(!before.has_table(level + 1, y));
                                assert(page_number(level, y) == page_number(level, first) + k) by {
                                    let q = first as int / size as int;
                                    vstd::arithmetic::div_mod::lemma_div_multiples_vanish(q + k, size as int);
                                    assert(first + k * size == size * (q + k)) by (nonlinear_arith)
                                        requires
                                            first == size * q,
                                    ;
                                }
                            }
                        }
                        assert forall|k: int, x: u64|
                            0 <= k < done + 1 && x < VIRTUAL_ADDRESS_LIMIT && page_number(level, x)
                                == page_number(level, first) + k implies #[trigger] self.maps_to(
                            level,
                            x,
                            spec_entry_word(
                                (physical_address + k * size_at_level(level)) as u64,
                                flags@ | extra_flag_at_level(level),
                            ),
                        ) by {
                            if k < done {
                                assert(before.maps_to(
                                    level,
                                    x,
                                    spec_entry_word(
                                        (physical_address + k * size_at_level(level)) as u64,
                                        flags@ | extra_flag_at_level(level),
                                    ),
                                ));
                            }
                        }
                    }
                    current_physical_address = current_physical_address + size;
                    done = done + 1;
                },
            }
        }
    }

    /// The subtable below the entry for `page` in the table at `level`, which is reached
    /// at `table_address`: the subtable's own address, derived by the self-referential
    /// formula, and its slot in the arena if it exists.
    fn subtable<S: PageSize>(&self, level: usize, table_address: u64, page: Page<S>) -> (r: (
        u64,
        Option<usize>,
    ))
        requires
            self.wf(),
            page.valid(),
            level < 3,
            level <= S::spec_map_level(),
            table_address == crate::table_address::table_address(level as nat, page@),
        ensures
            r.0 == crate::table_address::table_address(level as nat + 1, page@),
            r.1 is Some <==> self.has_table(level as nat + 1, page@),
            r.1 matches Some(s) ==> s == self.slots@[table_key(level as nat + 1, page@)],
    {
        let idx = page.table_index(level);
        let child = subtable_address(table_address, idx);
        proof {
            lemma_subtable_address(level as nat, page@);
        }
        match self.slots.get(&(child | (level as u64 + 1))) {
            Some(s) => (child, Some(*s)),
            None => (child, None),
        }
    }

    /// Takes the table kept under `key`, the table at `level + 1` below the slot for
    /// `va` at `level`, out of the hierarchy, and gives its frame back to `mem`. No
    /// table hangs below it.
    fn drop_subtable(
        &mut self,
        mem: &mut FrameAllocator,
        level: usize,
        va: Ghost<u64>,
        key: u64,
        frame: u64,
    )
        requires
            old(self).wf(),
            old(mem).wf(),
            level < 3,
            va@ < VIRTUAL_ADDRESS_LIMIT,
            old(self).has_table(level as nat + 1, va@),
            key == table_key(level as nat + 1, va@),
            frame == spec_entry_address(old(self).raw_entry(level as nat, va@)@),
            level + 1 < 3 ==> forall|x: u64|
                x < VIRTUAL_ADDRESS_LIMIT && page_number(level as nat, x) == page_number(
                    level as nat,
                    va@,
                ) ==> !#[trigger] old(self).has_table(level as nat + 2, x),
        ensures
            final(self).wf(),
            final(mem).wf(),
            final(mem).spec_start() == old(mem).spec_start(),
            final(mem).spec_next() == old(mem).spec_next(),
            final(mem).spec_limit() == old(mem).spec_limit(),
            final(mem).spec_free() == old(mem).spec_free().push((frame, 4096u64)),
            final(self).spec_flushed() == old(self).spec_flushed(),
            forall|k: u64|
                #[trigger] final(self).slots@.contains_key(k) ==> old(self).slots@.contains_key(k)
                    && final(self).slots@[k] == old(self).slots@[k],
            forall|l: nat, x: u64|
                #[trigger] final(self).has_table(l, x) == (old(self).has_table(l, x) && table_key(
                    l,
                    x,
                ) != key),
            forall|l: nat, x: u64|
                #[trigger] final(self).has_table(l, x) ==> final(self).raw_entry(l, x) == old(
                    self).raw_entry(l, x),
    {
        let ghost old_self = *self;
        proof {
            lemma_key_level(level as nat + 1, va@);
            lemma_key_level(0, 0);
            assert(old_self.has_table(level as nat, va@));
        }
        self.slots.remove(&key);
        let ghost new_self = *self;
        proof {
            assert forall|k: u64| #[trigger] new_self.slots@.contains_key(k) implies (new_self.slots@[k] as int)
                < new_self.keys@.len() && new_self.keys@[new_self.slots@[k] as int] == k by {
                assert(old_self.slots@.contains_key(k));
            }
            assert forall|l: nat, x: u64|
                0 < l <= 3 && x < VIRTUAL_ADDRESS_LIMIT && #[trigger] new_self.has_table(l, x) implies {
                    &&& new_self.has_table((l - 1) as nat, x)
                    &&& spec_entry_present(new_self.raw_entry((l - 1) as nat, x)@)
                } by {
                assert(old_self.has_table(l, x));
                assert(old_self.has_table((l - 1) as nat, x));
                if table_key((l - 1) as nat, x) == key {
                    lemma_table_key((l - 1) as nat, x, level as nat + 1, va@);
                    lemma_table_number_next(level as nat, x);
                    lemma_table_number_next(level as nat, va@);
                    assert(old_self.has_table(level as nat + 2, x));
                }
                assert(new_self.raw_entry((l - 1) as nat, x) == old_self.raw_entry((l - 1) as nat, x));
            }
            assert(new_self.slots@.contains_key(table_key(0, 0)));
            assert forall|l: nat, x: u64| #[trigger] new_self.has_table(l, x) implies new_self.raw_entry(l, x)
                == old_self.raw_entry(l, x) by {}
        }
        proof {
            crate::entry::lemma_entry_address_bound(old_self.raw_entry(level as nat, va@)@);
        }
        deallocate(mem, frame, 4096);
    }

    /// Takes every table below the slot for `page` at its own level out of the
    /// hierarchy, and gives their frames back to `mem`: for a 1 GiB page, first the
    /// level-3 tables in entry order, then the level-2 table; for a 2 MiB page, the
    /// level-3 table. The slot itself still holds its entry.
    fn free_subtree<S: PageSize>(&mut self, mem: &mut FrameAllocator, page: Page<S>, table_address: u64)
        requires
            old(self).wf(),
            old(mem).wf(),
            page.valid(),
            S::spec_map_level() < 3,
            table_address == crate::table_address::table_address(S::spec_map_level(), page@),
            old(self).has_table(S::spec_map_level() + 1, page@),
        ensures
            final(self).wf(),
            final(mem).wf(),
            final(mem).spec_start() == old(mem).spec_start(),
            final(mem).spec_next() == old(mem).spec_next(),
            final(mem).spec_limit() == old(mem).spec_limit(),
            final(mem).spec_free() == old(mem).spec_free() + old(self).subtree_frames(
                S::spec_map_level(),
                page@,
            ),
            final(self).spec_flushed() == old(self).spec_flushed(),
            forall|k: u64|
                #[trigger] final(self).slots@.contains_key(k) ==> old(self).slots@.contains_key(k)
                    && final(self).slots@[k] == old(self).slots@[k],
            forall|l: nat, x: u64|
                x < VIRTUAL_ADDRESS_LIMIT ==> #[trigger] final(self).has_table(l, x) == (old(
                    self).has_table(l, x) && !(l > S::spec_map_level() && page_number(
                    S::spec_map_level(),
                    x,
                ) == page_number(S::spec_map_level(), page@))),
            forall|l: nat, x: u64|
                #[trigger] final(self).has_table(l, x) ==> final(self).raw_entry(l, x) == old(
                    self).raw_entry(l, x),
    {
        let level = S::map_level();
        let va = page.address();
        let ghost old_self = *self;
        let ghost old_mem = *mem;
        let ghost lv = level as nat;
        proof {
            assert(old_self.has_table(lv, va));
        }
        if level == 1 {
            let ghost q = va as int / 0x4000_0000;
            proof {
                vstd::arithmetic::div_mod::lemma_fundamental_div_mod(va as int, 0x4000_0000);
                assert(va as int == 0x4000_0000 * q);
            }
            let mut i: u64 = 0;
            while i < 512
                invariant
                    old_self == *old(self),
                    old_mem == *old(mem),
                    self.wf(),
                    mem.wf(),
                    page.valid(),
                    va == page@,
                    lv == 1,
                    S::spec_map_level() == 1,
                    va as int == 0x4000_0000 * q,
                    old_self.has_table(2, va),
                    i <= 512,
                    mem.spec_start() == old_mem.spec_start(),
                    mem.spec_next() == old_mem.spec_next(),
                    mem.spec_limit() == old_mem.spec_limit(),
                    mem.spec_free() == old_mem.spec_free() + old_self.sub_frames(va, i as nat),
                    self.spec_flushed() == old_self.spec_flushed(),
                    forall|k: u64|
                        #[trigger] self.slots@.contains_key(k) ==> old_self.slots@.contains_key(k)
                            && self.slots@[k] == old_self.slots@[k],
                    forall|l: nat, x: u64|
                        x < VIRTUAL_ADDRESS_LIMIT ==> #[trigger] self.has_table(l, x) == (old_self.has_table(
                            l,
                            x,
                        ) && !(l == 3 && page_number(1, x) == q && page_number(2, x) < 512 * q + i)),
                    forall|l: nat, x: u64|
                        #[trigger] self.has_table(l, x) ==> self.raw_entry(l, x) == old_self.raw_entry(l, x),
                decreases 512 - i,
            {
                let x = va + i * 0x20_0000;
                proof {
                    assert(x as int == 0x20_0000 * (512 * q + i)) by (nonlinear_arith)
                        requires
                            va as int == 0x4000_0000 * q,
                            x as int == va + i * 0x20_0000,
                    ;
                    vstd::arithmetic::div_mod::lemma_div_multiples_vanish(512 * q + i, 0x20_0000);
                    assert(page_number(2, x) == 512 * q + i);
                    assert(x as int / 0x4000_0000 == q) by (nonlinear_arith)
                        requires
                            x as int == 0x4000_0000 * q + 0x20_0000 * i,
                            0 <= i < 512,
                    ;
                    assert(x % 4096 == 0) by (nonlinear_arith)
                        requires
                            x as int == 0x20_0000 * (512 * q + i),
                            q >= 0,
                    ;
                    assert(x < VIRTUAL_ADDRESS_LIMIT);
                    lemma_table_number_next(1, x);
                    lemma_table_number_next(1, va);
                    lemma_table_key(2, x, 2, va);
                    lemma_table_number_next(2, x);
                }
                let p3 = Page::<BasePageSize>::including_address(x);
                proof {
                    assert(p3@ == x);
                    assert(self.has_table(2, x));
                }
                let (a2, s2) = self.find_table(p3, 2).unwrap();
                let (a3, sub) = self.subtable(2, a2, p3);
                let ghost before = *self;
                let ghost mem_before = *mem;
                match sub {
                    Some(_) => {
                        let idx = p3.table_index(2);
                        let e = self.read_entry(s2, Ghost(2), Ghost(x), idx);
                        let frame = e.address();
                        proof {
                            lemma_key_level(3, x);
                        }
                        self.drop_subtable(mem, 2, Ghost(x), a3 | 3, frame);
                        proof {
                            assert forall|l: nat, y: u64| y < VIRTUAL_ADDRESS_LIMIT implies #[trigger] self.has_table(l, y) == (
                                old_self.has_table(l, y) && !(l == 3 && page_number(1, y) == q && page_number(2, y) < 512 * q + i + 1)) by {
                                if l <= 3 {
                                    lemma_table_key(l, y, 3, x);
                                    lemma_table_number_next(2, y);
                                    lemma_table_number_next(1, y);
                                    assert(page_number(1, y) == page_number(2, y) / 512) by {
                                        vstd::arithmetic::div_mod::lemma_div_denominator(y as int, 0x20_0000, 512);
                                    }
                                    assert(page_number(2, y) == 512 * q + i ==> page_number(1, y) == q) by {
                                        vstd::arithmetic::div_mod::lemma_div_multiples_vanish_fancy(q, i as int, 512);
                                    }
                                }
                            }
                            assert(old_self.sub_frames(va, i as nat + 1) == old_self.sub_frames(va, i as nat).push(
                                (spec_entry_address(old_self.raw_entry(2, x)@), 4096u64)));
                            assert(mem.spec_free() =~= old_mem.spec_free() + old_self.sub_frames(va, i as nat + 1));
                        }
                    },
                    None => {
                        proof {
                            assert(!old_self.has_table(3, x));
                            assert(old_self.sub_frames(va, i as nat + 1) == old_self.sub_frames(va, i as nat));
                            assert forall|l: nat, y: u64| y < VIRTUAL_ADDRESS_LIMIT implies #[trigger] self.has_table(l, y) == (
                                old_self.has_table(l, y) && !(l == 3 && page_number(1, y) == q && page_number(2, y) < 512 * q + i + 1)) by {
                                if l == 3 && page_number(2, y) == 512 * q + i {
                                    lemma_table_key(3, y, 3, x);
                                    lemma_table_number_next(2, y);
                                }
                            }
                        }
                    },
                }
                i = i + 1;
            }
            proof {
                assert forall|y: u64| y < VIRTUAL_ADDRESS_LIMIT && page_number(1, y) == page_number(1, va)
                    implies !#[trigger] self.has_table(3, y) by {
                    assert(page_number(1, va) == q);
                    assert(page_number(2, y) < 512 * q + 512) by {
                        vstd::arithmetic::div_mod::lemma_div_denominator(y as int, 0x20_0000, 512);
                        vstd::arithmetic::div_mod::lemma_fundamental_div_mod(page_number(2, y), 512);
                    }
                }
            }
        }
        let (a, sub) = self.subtable(level, table_address, page);
        proof {
            lemma_key_level(lv + 1, va);
            assert(self.has_table(lv + 1, va));
            assert(self.has_table(lv, va));
        }
        let idx = page.table_index(level);
        let slot = *self.slots.get(&(table_address | (level as u64))).unwrap();
        let e = self.read_entry(slot, Ghost(lv), Ghost(va), idx);
        let ghost mid = *self;
        let ghost mem_mid = *mem;
        self.drop_subtable(mem, level, Ghost(va), a | (level as u64 + 1), e.address());
        proof {
            assert forall|l: nat, y: u64| y < VIRTUAL_ADDRESS_LIMIT implies #[trigger] self.has_table(l, y) == (
                old_self.has_table(l, y) && !(l > lv && page_number(lv, y) == page_number(lv, va))) by {
                if l <= 3 {
                    lemma_table_key(l, y, lv + 1, va);
                    lemma_table_number_next(lv, y);
                    lemma_table_number_next(lv, va);
                    if lv == 1 && l == 3 {
                        lemma_table_number_next(2, y);
                        assert(page_number(1, y) == page_number(2, y) / 512) by {
                            vstd::arithmetic::div_mod::lemma_div_denominator(y as int, 0x20_0000, 512);
                        }
                    }
                }
            }
            if lv == 1 {
                assert(mem.spec_free() =~= old_mem.spec_free() + old_self.subtree_frames(lv, va));
            } else {
                assert(mem.spec_free() =~= old_mem.spec_free() + old_self.subtree_frames(lv, va));
            }
        }
    }

    /// Finds the table at `level` on the path of `page`, following present entries
    /// from the root. Gives its address and its slot in the arena.
    fn find_table<S: PageSize>(&self, page: Page<S>, level: usize) -> (r: Option<(u64, usize)>)
        requires
            self.wf(),
            page.valid(),
            level <= S::spec_map_level(),
        ensures
            r is Some <==> self.has_table(level as nat, page@),
            r matches Some((a, s)) ==> s == self.slots@[table_key(level as nat, page@)]
                && a == crate::table_address::table_address(level as nat, page@),
    {
        let va = page.address();
        proof {
            lemma_key_level(0, va);
            lemma_key_level(0, 0);
        }
        let mut addr: u64 = L0TABLE_ADDRESS;
        let mut slot: usize = *self.slots.get(&L0TABLE_ADDRESS).unwrap();
        let mut l: usize = 0;
        while l < level
            invariant
                self.wf(),
                page.valid(),
                va == page@,
                l <= level <= S::spec_map_level() <= 3,
                self.has_table(l as nat, va),
                addr == crate::table_address::table_address(l as nat, va),
                slot == self.slots@[table_key(l as nat, va)],
            decreases level - l,
        {
            let idx = page.table_index(l);
            let e = self.read_entry(slot, Ghost(l as nat), Ghost(va), idx);
            if !e.is_present() {
                proof {
                    if self.has_table(level as nat, va) {
                        self.lemma_path(level as nat, va);
                    }
                }
                return None;
            }
            let (child, sub) = self.subtable(l, addr, page);
            match sub {
                Some(s) => {
                    slot = s;
                },
                None => {
                    proof {
                        if self.has_table(level as nat, va) {
                            self.lemma_path(level as nat, va);
                            assert(self.has_table((l + 1) as nat, va));
                        }
                    }
                    return None;
                },
            }
            addr = child;
            l = l + 1;
        }
        Some((addr, slot))
    }

    /// The present entry at the level of size `S` on the walk to `page`, if the walk
    /// reaches that level over present entries: a page of size `S`, or, where smaller
    /// pages were mapped, the pointer to their subtable. A walk that ends early in a
    /// larger page, or an entry that is not present, gives `None`.
    pub fn get_page_table_entry<S: PageSize>(&self, page: Page<S>) -> (r: Option<PageTableEntry>)
        requires
            self.wf(),
            page.valid(),
        ensures
            r == self.entry_at(S::spec_map_level(), page@),
    {
        let level = S::map_level();
        let va = page.address();
        match self.find_table(page, level) {
            None => None,
            Some((addr, slot)) => {
                let idx = page.table_index(level);
                let e = self.read_entry(slot, Ghost(level as nat), Ghost(va), idx);
                if !e.is_present() {
                    return None;
                }
                Some(e)
            },
        }
    }
}

/// A run mapped by `map` translates back: an address in page `k` of the run goes to
/// frame `k` combined with the address's offset in its page.
pub proof fn lemma_map_then_translate(
    tables: PageTables,
    level: nat,
    first: u64,
    physical_address: u64,
    count: nat,
    flags: u64,
    k: int,
    va: u64,
)
    requires
        1 <= level <= 3,
        tables.maps_run(level, first, physical_address, count, flags),
        flags & !ALL_FLAGS == 0,
        physical_address % 4096 == 0,
        count > 0,
        physical_address + (count - 1) * size_at_level(level) < VIRTUAL_ADDRESS_LIMIT,
        0 <= k < count,
        va < VIRTUAL_ADDRESS_LIMIT,
        page_number(level, va) == page_number(level, first) + k,
    ensures
        tables.entry_at(level, va) is Some,
        tables.physical_of(level, va) == ((physical_address + k * size_at_level(level)) as u64) | (va
            % size_at_level(level)),
{
    let size = size_at_level(level);
    let frame = (physical_address + k * size) as u64;
    let f = flags | extra_flag_at_level(level);
    assert(tables.maps_to(level, va, spec_entry_word(frame, f)));
    assert(k * size <= (count - 1) * size) by (nonlinear_arith)
        requires
            0 <= k < count,
            size > 0,
    ;
    assert(frame % 4096 == 0) by {
        assert(size % 4096 == 0);
        vstd::arithmetic::div_mod::lemma_fundamental_div_mod(size as int, 4096);
        assert(k * size == 4096 * (k * (size / 4096))) by (nonlinear_arith)
            requires
                size == 4096 * (size / 4096),
        ;
        vstd::arithmetic::div_mod::lemma_mod_multiples_vanish(k * (size / 4096), physical_address as int, 4096);
    }
    lemma_flags_known();
    let x = extra_flag_at_level(level);
    assert(0u64 & !ALL_FLAGS == 0) by (bit_vector);
    assert(x & !ALL_FLAGS == 0);
    assert(f & !ALL_FLAGS == 0) by (bit_vector)
        requires
            flags & !ALL_FLAGS == 0,
            x & !ALL_FLAGS == 0,
            f == flags | x,
    ;
    lemma_entry_word(frame, f);
}

/// Unmapping a run whose pages are not mapped gives back no frame and flushes no page:
/// unmapping is idempotent, and never frees a frame twice.
pub proof fn lemma_unmap_unmapped(tables: PageTables, level: nat, first: u64, count: nat)
    requires
        forall|k: int|
            0 <= k < count ==> #[trigger] tables.lookup(
                level,
                (first + k * size_at_level(level)) as u64,
            ) is None,
    ensures
        tables.mapped_frames(level, first, count) == Seq::<(u64, u64)>::empty(),
        tables.mapped_pages(level, first, count) == Seq::<u64>::empty(),
    decreases count,
{
    if count > 0 {
        assert(tables.lookup(level, (first + (count - 1) * size_at_level(level)) as u64) is None);
        lemma_unmap_unmapped(tables, level, first, (count - 1) as nat);
    }
}

/// After an unmap of a run, every page of the run reads as unmapped, so a second unmap
/// of the run gives back nothing.
pub proof fn lemma_unmap_twice(tables: PageTables, level: nat, first: u64, count: nat)
    requires
        1 <= level <= 3,
        first % size_at_level(level) == 0,
        first + count * size_at_level(level) <= VIRTUAL_ADDRESS_LIMIT,
        forall|x: u64|
            x < VIRTUAL_ADDRESS_LIMIT && !PageTables::outside_run(level, first, count, level, x)
                ==> #[trigger] tables.lookup(level, x) is None,
    ensures
        tables.mapped_frames(level, first, count) == Seq::<(u64, u64)>::empty(),
        tables.mapped_pages(level, first, count) == Seq::<u64>::empty(),
{
    let size = size_at_level(level) as int;
    assert forall|k: int| 0 <= k < count implies #[trigger] tables.lookup(
        level,
        (first + k * size_at_level(level)) as u64,
    ) is None by {
        let p = first + k * size;
        assert(p + size <= first + count * size) by (nonlinear_arith)
            requires
                0 <= k < count,
                p == first + k * size,
                size > 0,
        ;
        vstd::arithmetic::div_mod::lemma_fundamental_div_mod(first as int, size);
        let q = first as int / size;
        assert(p == size * (q + k)) by (nonlinear_arith)
            requires
                first as int == size * q + first as int % size,
                first as int % size == 0,
                p == first + k * size,
        ;
        vstd::arithmetic::div_mod::lemma_div_multiples_vanish(q + k, size);
        assert(!PageTables::outside_run(level, first, count, level, p as u64));
    }
    lemma_unmap_unmapped(tables, level, first, count);
}

/// The first page of a run of `count` pages of size `S` from `virtual_address` on,
/// when the whole run lies below the address limit.
pub open spec fn run_start<S: PageSize>(virtual_address: u64) -> u64 {
    spec_align_down(virtual_address as int, size_at_level(S::spec_map_level()) as int) as u64
}

/// The run of `count` pages of size `S` from `virtual_address` on lies below the limit.
pub open spec fn run_fits<S: PageSize>(virtual_address: u64, count: nat) -> bool {
    run_start::<S>(virtual_address) + (count - 1) * size_at_level(S::spec_map_level())
        < VIRTUAL_ADDRESS_LIMIT
}

/// The pages of size `S` that cover `count` pages from the one holding
/// `virtual_address` on. Fails when the run reaches the address limit.
pub fn get_page_range<S: PageSize>(virtual_address: u64, count: usize) -> (r: Result<
    PageIter<S>,
    PagingError,
>)
    requires
        count > 0,
    ensures
        r is Ok <==> run_fits::<S>(virtual_address, count as nat),
        r matches Ok(it) ==> it.valid() && it@.0 == run_start::<S>(virtual_address)
            && it.remaining() == count,
        r is Err ==> r == Err::<PageIter<S>, PagingError>(PagingError::InvalidAddress),
{
    let size = S::size();
    proof {
        lemma_page_sizes_pow2();
        let s = size as int;
        let v = virtual_address as int;
        assert(v - v % s >= 0 && v - v % s <= v);
    }
    if !Page::<S>::is_valid_address(virtual_address) {
        return Err(PagingError::InvalidAddress);
    }
    let first_page = Page::<S>::including_address(virtual_address);
    let first = first_page.address();
    let steps = (count - 1) as u64;
    let span = match steps.checked_mul(size) {
        Some(x) => x,
        None => {
            return Err(PagingError::InvalidAddress);
        },
    };
    let last = match first.checked_add(span) {
        Some(x) => x,
        None => {
            return Err(PagingError::InvalidAddress);
        },
    };
    if !Page::<S>::is_valid_address(last) {
        return Err(PagingError::InvalidAddress);
    }
    let last_page = Page::<S>::including_address(last);
    proof {
        let s = size as int;
        let q = first as int / s;
        vstd::arithmetic::div_mod::lemma_fundamental_div_mod(first as int, s);
        assert(last as int == s * (q + steps)) by (nonlinear_arith)
            requires
                first as int == s * q + first as int % s,
                first as int % s == 0,
                last as int == first as int + steps * s,
        ;
        vstd::arithmetic::div_mod::lemma_mod_multiples_basic(q + steps, s);
        assert(last_page@ == last);
        assert((last - first) as int / s == steps as int) by {
            assert(last - first == steps * s) by (nonlinear_arith)
                requires
                    last as int == first as int + steps * s,
            ;
            vstd::arithmetic::div_mod::lemma_div_multiples_vanish(steps as int, s);
        }
    }
    Ok(Page::range(first_page, last_page))
}

/// The entry at the level of size `S` on the walk to `virtual_address`, if it is
/// present; see `PageTables::get_page_table_entry`. An address at or above the limit
/// is a caller's error, left out by `requires`.
pub fn get_page_table_entry<S: PageSize>(tables: &PageTables, virtual_address: u64) -> (r: Option<
    PageTableEntry,
>)
    requires
        tables.wf(),
        virtual_address < VIRTUAL_ADDRESS_LIMIT,
    ensures
        r == tables.entry_at(S::spec_map_level(), virtual_address),
{
    let page = Page::<S>::including_address(virtual_address);
    proof {
        let l = S::spec_map_level();
        lemma_page_sizes_pow2();
        let s = size_at_level(l) as int;
        let v = virtual_address as int;
        vstd::arithmetic::div_mod::lemma_fundamental_div_mod(v, s);
        assert(page_number(l, page@) == page_number(l, virtual_address)) by {
            vstd::arithmetic::div_mod::lemma_div_multiples_vanish(v / s, s);
        }
        tables.lemma_lookup_page(l, page@, virtual_address);
    }
    tables.get_page_table_entry(page)
}

/// The physical address that `virtual_address` translates to through a page of size
/// `S`: the entry's frame address combined with the offset in the page. Translating
/// an address that is not mapped is a caller's error, left out by `requires`.
pub fn get_physical_address<S: PageSize>(tables: &PageTables, virtual_address: u64) -> (r: u64)
    requires
        tables.wf(),
        virtual_address < VIRTUAL_ADDRESS_LIMIT,
        tables.entry_at(S::spec_map_level(), virtual_address) is Some,
    ensures
        r == tables.physical_of(S::spec_map_level(), virtual_address),
{
    let entry = get_page_table_entry::<S>(tables, virtual_address).unwrap();
    let size = S::size();
    proof {
        lemma_page_sizes_pow2();
        crate::addr::lemma_align_mask(virtual_address, size);
    }
    let offset = virtual_address & (size - 1);
    entry.address() | offset
}

/// The bounds of the kernel image in the virtual address space.
#[derive(Clone, Copy, PartialEq, Eq, Structural, Debug)]
pub struct KernelImage {
    /// First address of the image.
    pub start: u64,
    /// First address after the image.
    pub end: u64,
}

/// The level of the page size that the region of `virtual_address` uses: 2 MiB pages
/// for the kernel image, 4 KiB pages for the rest of kernel memory, 2 MiB pages for
/// the task heap.
pub open spec fn region_level(image: KernelImage, virtual_address: u64) -> nat {
    if virtual_address < image.end {
        2
    } else if virtual_address < KERNEL_VIRTUAL_MEMORY_END {
        3
    } else {
        2
    }
}

/// Translates `virtual_address` with the page size of the region it lies in. Addresses
/// below the kernel image (identity-mapped, never translated here), at or above the
/// end of the task heap, or not mapped are a caller's error, left out by `requires`.
pub fn virtual_to_physical(tables: &PageTables, image: &KernelImage, virtual_address: u64) -> (r:
    u64)
    requires
        tables.wf(),
        image.start <= virtual_address < TASK_VIRTUAL_MEMORY_END,
        tables.entry_at(region_level(*image, virtual_address), virtual_address) is Some,
    ensures
        r == tables.physical_of(region_level(*image, virtual_address), virtual_address),
{
    if virtual_address < image.end {
        get_physical_address::<LargePageSize>(tables, virtual_address)
    } else if virtual_address < task_heap_start() {
        get_physical_address::<BasePageSize>(tables, virtual_address)
    } else {
        get_physical_address::<LargePageSize>(tables, virtual_address)
    }
}

/// The size of the pages that back application memory.
pub fn get_application_page_size() -> (r: u64)
    ensures
        r == 0x20_0000,
{
    LargePageSize::size()
}

/// The arguments of `map` describe a run below the limit, mapped to 4 KiB-aligned
/// frames that stay below 2^48.
pub open spec fn map_args_ok<S: PageSize>(virtual_address: u64, physical_address: u64, count: nat) -> bool {
    &&& run_fits::<S>(virtual_address, count)
    &&& physical_address % 4096 == 0
    &&& physical_address + (count - 1) * size_at_level(S::spec_map_level()) < VIRTUAL_ADDRESS_LIMIT
}

/// Maps `count` pages of size `S`, from the one holding `virtual_address` on, to
/// consecutive frames from `physical_address` on.
///
/// Checks the whole run first: an address at or above the limit gives
/// `InvalidAddress`, a frame address off a 4 KiB boundary `MisalignedAddress`, and
/// nothing changes. Then maps page by page, not atomically (see `map_pages`).
pub fn map<S: PageSize>(
    tables: &mut PageTables,
    mem: &mut FrameAllocator,
    virtual_address: u64,
    physical_address: u64,
    count: usize,
    flags: PageTableEntryFlags,
) -> (r: Result<(), PagingError>)
    requires
        old(tables).wf(),
        old(mem).wf(),
        flags.valid(),
    ensures
        final(tables).wf(),
        final(mem).wf(),
        final(mem).spec_start() == old(mem).spec_start(),
        final(mem).spec_limit() == old(mem).spec_limit(),
        count == 0 ==> r is Ok && *final(tables) == *old(tables) && *final(mem) == *old(mem),
        count > 0 && !run_fits::<S>(virtual_address, count as nat) ==> r == Err::<(), PagingError>(
            PagingError::InvalidAddress,
        ),
        count > 0 && run_fits::<S>(virtual_address, count as nat) && physical_address % 4096 != 0
            ==> r == Err::<(), PagingError>(PagingError::MisalignedAddress),
        count > 0 && run_fits::<S>(virtual_address, count as nat) && physical_address % 4096 == 0
            && !map_args_ok::<S>(virtual_address, physical_address, count as nat) ==> r == Err::<
            (),
            PagingError,
        >(PagingError::InvalidAddress),
        count > 0 && !map_args_ok::<S>(virtual_address, physical_address, count as nat) ==> *final(tables) == *old(tables) && *final(mem) == *old(mem),
        count > 0 && map_args_ok::<S>(virtual_address, physical_address, count as nat) && (forall|
            k: int,
        |
            0 <= k < count ==> !#[trigger] old(tables).blocked(
                S::spec_map_level(),
                (run_start::<S>(virtual_address) + k * size_at_level(S::spec_map_level())) as u64,
            )) && old(mem).has_base_frames(S::spec_map_level() * count as nat) ==> r is Ok,
        count > 0 && map_args_ok::<S>(virtual_address, physical_address, count as nat) && (forall|
            k: int,
        |
            #![trigger old(tables).has_table(S::spec_map_level(), (run_start::<S>(virtual_address) + k * size_at_level(S::spec_map_level())) as u64)]
            #![trigger old(tables).blocked(S::spec_map_level(), (run_start::<S>(virtual_address) + k * size_at_level(S::spec_map_level())) as u64)]
            0 <= k < count ==> old(tables).has_table(
                S::spec_map_level(),
                (run_start::<S>(virtual_address) + k * size_at_level(S::spec_map_level())) as u64,
            ) && !old(tables).blocked(
                S::spec_map_level(),
                (run_start::<S>(virtual_address) + k * size_at_level(S::spec_map_level())) as u64,
            ) && !old(tables).has_table(
                S::spec_map_level() + 1,
                (run_start::<S>(virtual_address) + k * size_at_level(S::spec_map_level())) as u64,
            )) ==> r is Ok && *final(mem) == *old(mem),
        count > 0 && r is Ok ==> final(tables).maps_run(
            S::spec_map_level(),
            run_start::<S>(virtual_address),
            physical_address,
            count as nat,
            flags@,
        ),
        count > 0 && r is Ok ==> final(tables).spec_flushed() == old(tables).spec_flushed() + old(
            tables,
        ).occupied_pages(S::spec_map_level(), run_start::<S>(virtual_address), count as nat),
        count > 0 && r is Ok ==> forall|l: nat, x: u64|
            x < VIRTUAL_ADDRESS_LIMIT && l > S::spec_map_level() && !PageTables::outside_run(
                S::spec_map_level(),
                run_start::<S>(virtual_address),
                count as nat,
                l,
                x,
            ) ==> #[trigger] final(tables).lookup(l, x) is None,
        r == Err::<(), PagingError>(PagingError::AllocationFailure) ==> !final(mem).has_base_frames(1),
        forall|m: nat|
            #[trigger] old(mem).has_base_frames((m + S::spec_map_level() * count) as nat) ==> final(
                mem).has_base_frames(m),
        count > 0 && r is Ok ==> forall|l: nat, x: u64|
            x < VIRTUAL_ADDRESS_LIMIT && PageTables::outside_run(
                S::spec_map_level(),
                run_start::<S>(virtual_address),
                count as nat,
                l,
                x,
            ) ==> #[trigger] final(tables).lookup(l, x) == old(tables).lookup(l, x),
        count > 0 && map_args_ok::<S>(virtual_address, physical_address, count as nat) && r is Err
            ==> exists|m: nat|
            m < count && (r == Err::<(), PagingError>(PagingError::LevelMismatch) <==> old(
                tables,
            ).blocked(
                S::spec_map_level(),
                (run_start::<S>(virtual_address) + m * size_at_level(S::spec_map_level())) as u64,
            )) && (r == Err::<(), PagingError>(PagingError::LevelMismatch) || r == Err::<
                (),
                PagingError,
            >(PagingError::AllocationFailure)) && final(tables).spec_flushed() == old(tables).spec_flushed() + old(
                tables,
            ).occupied_pages(S::spec_map_level(), run_start::<S>(virtual_address), m) && final(tables).maps_run(
                S::spec_map_level(),
                run_start::<S>(virtual_address),
                physical_address,
                m,
                flags@,
            ) && forall|l: nat, x: u64|
                x < VIRTUAL_ADDRESS_LIMIT && PageTables::outside_run(
                    S::spec_map_level(),
                    run_start::<S>(virtual_address),
                    m,
                    l,
                    x,
                ) ==> #[trigger] final(tables).lookup(l, x) == old(tables).lookup(l, x),
{
    proof {
        assert forall|m: nat| #[trigger] old(mem).has_base_frames((m + S::spec_map_level() * count) as nat)
            implies old(mem).has_base_frames(m) by {
            lemma_base_frames_fewer(*old(mem), (m + S::spec_map_level() * count) as nat, m);
        }
    }
    if count == 0 {
        return Ok(());
    }
    let range = match get_page_range::<S>(virtual_address, count) {
        Ok(it) => it,
        Err(e) => {
            return Err(e);
        },
    };
    if physical_address % 4096 != 0 {
        return Err(PagingError::MisalignedAddress);
    }
    let size = S::size();
    let steps = (count - 1) as u64;
    let span = match steps.checked_mul(size) {
        Some(x) => x,
        None => {
            return Err(PagingError::InvalidAddress);
        },
    };
    if physical_address >= VIRTUAL_ADDRESS_LIMIT || VIRTUAL_ADDRESS_LIMIT - physical_address <= span {
        return Err(PagingError::InvalidAddress);
    }
    let r = tables.map_pages(mem, range, physical_address, flags);
    proof {
        assert forall|m: nat| #[trigger] old(mem).has_base_frames((m + S::spec_map_level() * count) as nat)
            implies mem.has_base_frames(m) by {
            assert(old(mem).has_base_frames(m + S::spec_map_level() * range.remaining()));
        }
    }
    r
}

/// Unmaps `count` pages of size `S` from the one holding `virtual_address` on: each
/// mapped page has its entry cleared, is flushed from the TLBs, and gives its frame
/// back to `mem`, once. Pages that are not mapped are left alone, so unmapping twice
/// frees nothing the second time. Fails, changing nothing, when the run reaches the
/// address limit.
pub fn unmap<S: PageSize>(
    tables: &mut PageTables,
    mem: &mut FrameAllocator,
    virtual_address: VAddr,
    count: usize,
) -> (r: Result<(), PagingError>)
    requires
        old(tables).wf(),
        old(mem).wf(),
    ensures
        final(tables).wf(),
        final(mem).wf(),
        final(mem).spec_start() == old(mem).spec_start(),
        final(mem).spec_next() == old(mem).spec_next(),
        final(mem).spec_limit() == old(mem).spec_limit(),
        r is Ok <==> (count == 0 || run_fits::<S>(virtual_address.0, count as nat)),
        r is Err ==> r == Err::<(), PagingError>(PagingError::InvalidAddress) && *final(tables)
            == *old(tables) && *final(mem) == *old(mem),
        count == 0 ==> *final(tables) == *old(tables) && *final(mem) == *old(mem),
        count > 0 && r is Ok ==> forall|x: u64|
            x < VIRTUAL_ADDRESS_LIMIT && !PageTables::outside_run(
                S::spec_map_level(),
                run_start::<S>(virtual_address.0),
                count as nat,
                S::spec_map_level(),
                x,
            ) ==> #[trigger] final(tables).lookup(S::spec_map_level(), x) is None,
        count > 0 && r is Ok ==> forall|l: nat, x: u64|
            x < VIRTUAL_ADDRESS_LIMIT && PageTables::outside_run(
                S::spec_map_level(),
                run_start::<S>(virtual_address.0),
                count as nat,
                l,
                x,
            ) ==> #[trigger] final(tables).lookup(l, x) == old(tables).lookup(l, x),
        count > 0 && r is Ok ==> final(mem).spec_free() == old(mem).spec_free() + old(tables).mapped_frames(S::spec_map_level(), run_start::<S>(virtual_address.0), count as nat),
        count > 0 && r is Ok ==> final(tables).spec_flushed() == old(tables).spec_flushed() + old(tables).mapped_pages(S::spec_map_level(), run_start::<S>(virtual_address.0), count as nat),
{
    if count == 0 {
        return Ok(());
    }
    let mut range = match get_page_range::<S>(virtual_address.as_u64(), count) {
        Ok(it) => it,
        Err(e) => {
            return Err(e);
        },
    };
    let size = S::size();
    let ghost level = S::spec_map_level();
    let ghost first = range@.0;
    let ghost n = count as nat;
    let ghost old_tables = *tables;
    let ghost old_mem = *mem;
    let mut done: u64 = 0;
    proof {
        lemma_page_sizes_pow2();
        vstd::arithmetic::div_mod::lemma_fundamental_div_mod(first as int, size as int);
    }
    loop
        invariant
            old_mem == *old(mem),
            old_tables == *old(tables),
            tables.wf(),
            mem.wf(),
            mem.spec_start() == old_mem.spec_start(),
            mem.spec_next() == old_mem.spec_next(),
            mem.spec_limit() == old_mem.spec_limit(),
            range.valid(),
            first == run_start::<S>(virtual_address.0),
            n == count,
            n > 0,
            size == size_at_level(level),
            level == S::spec_map_level(),
            first % size == 0,
            first == size * (first as int / size as int),
            range@.0 == first + done * size,
            range.remaining() + done == n,
            forall|x: u64|
                x < VIRTUAL_ADDRESS_LIMIT && !PageTables::outside_run(level, first, done as nat, level, x)
                    ==> #[trigger] tables.lookup(level, x) is None,
            forall|l: nat, x: u64|
                x < VIRTUAL_ADDRESS_LIMIT && PageTables::outside_run(level, first, done as nat, l, x)
                    ==> #[trigger] tables.lookup(l, x) == old_tables.lookup(l, x),
            mem.spec_free() == old_mem.spec_free() + old_tables.mapped_frames(level, first, done as nat),
            tables.spec_flushed() == old_tables.spec_flushed() + old_tables.mapped_pages(level, first, done as nat),
        decreases range.remaining(),
    {
        let ghost before = *tables;
        let ghost mem_before = *mem;
        match range.next() {
            None => {
                assert(done == n);
                return Ok(());
            },
            Some(page) => {
                proof {
                    let q = first as int / size as int;
                    assert((first + done * size) / (size as int) == q + done) by {
                        vstd::arithmetic::div_mod::lemma_div_multiples_vanish(q + done, size as int);
                        assert(first + done * size == size * (q + done)) by (nonlinear_arith)
                            requires
                                first == size * q,
                        ;
                    }
                    assert(page@ == first + done * size);
                    assert(PageTables::outside_run(level, first, done as nat, level, page@));
                    assert(tables.lookup(level, page@) == old_tables.lookup(level, page@));
                }
                tables.unmap_page(mem, page);
                proof {
                    let p = (first + done * size_at_level(level)) as u64;
                    assert(p == page@);
                    assert(old_tables.mapped_frames(level, first, done as nat + 1) == match old_tables.lookup(level, p) {
                        Some(e) => old_tables.mapped_frames(level, first, done as nat).push((spec_entry_address(e@), size_at_level(level))),
                        None => old_tables.mapped_frames(level, first, done as nat),
                    });
                    assert(old_tables.mapped_pages(level, first, done as nat + 1) == if old_tables.lookup(level, p) is Some {
                        old_tables.mapped_pages(level, first, done as nat).push(p)
                    } else {
                        old_tables.mapped_pages(level, first, done as nat)
                    });
                    match old_tables.lookup(level, p) {
                        Some(e) => {
                            assert(mem.spec_free() == old_mem.spec_free() + old_tables.mapped_frames(level, first, done as nat + 1));
                            assert(tables.spec_flushed() == old_tables.spec_flushed() + old_tables.mapped_pages(level, first, done as nat + 1));
                        },
                        None => {
                            assert(mem.spec_free() =~= old_mem.spec_free() + old_tables.mapped_frames(level, first, done as nat + 1));
                        },
                    }
                }
                done = done + 1;
            },
        }
    }
}

/// The number of 4 KiB pages from the one holding `start` to the one holding `end`.
pub open spec fn identity_count(start: u64, end: u64) -> nat {
    ((run_start::<BasePageSize>(end) - run_start::<BasePageSize>(start)) / 4096 + 1) as nat
}

/// Maps the 4 KiB pages from the one holding `start_address` to the one holding
/// `end_address` to the frames at the same addresses, as normal, writable,
/// non-executable memory. Fails with `InvalidAddress`, changing nothing, when the range
/// is reversed or reaches the address limit.
pub fn identity_map(
    tables: &mut PageTables,
    mem: &mut FrameAllocator,
    start_address: PAddr,
    end_address: PAddr,
) -> (r: Result<(), PagingError>)
    requires
        old(tables).wf(),
        old(mem).wf(),
    ensures
        final(tables).wf(),
        final(mem).wf(),
        final(mem).spec_start() == old(mem).spec_start(),
        final(mem).spec_limit() == old(mem).spec_limit(),
        (start_address.0 > end_address.0 || end_address.0 >= VIRTUAL_ADDRESS_LIMIT) ==> r
            == Err::<(), PagingError>(PagingError::InvalidAddress) && *final(tables) == *old(tables)
            && *final(mem) == *old(mem),
        r is Ok ==> final(tables).maps_run(
            3,
            run_start::<BasePageSize>(start_address.0),
            run_start::<BasePageSize>(start_address.0),
            identity_count(start_address.0, end_address.0),
            NORMAL | PRIVILEGED_EXECUTE_NEVER | UNPRIVILEGED_EXECUTE_NEVER,
        ),
        r is Ok ==> forall|l: nat, x: u64|
            x < VIRTUAL_ADDRESS_LIMIT && PageTables::outside_run(
                3,
                run_start::<BasePageSize>(start_address.0),
                identity_count(start_address.0, end_address.0),
                l,
                x,
            ) ==> #[trigger] final(tables).lookup(l, x) == old(tables).lookup(l, x),
        r is Ok ==> final(tables).spec_flushed() == old(tables).spec_flushed() + old(
            tables,
        ).occupied_pages(
            3,
            run_start::<BasePageSize>(start_address.0),
            identity_count(start_address.0, end_address.0),
        ),
        start_address.0 <= end_address.0 && end_address.0 < VIRTUAL_ADDRESS_LIMIT && (forall|
            k: int,
        |
            0 <= k < identity_count(start_address.0, end_address.0) ==> !#[trigger] old(
                tables,
            ).blocked(3, (run_start::<BasePageSize>(start_address.0) + k * 4096) as u64)) && old(
            mem,
        ).has_base_frames(3 * identity_count(start_address.0, end_address.0)) ==> r is Ok,
{
    if start_address.0 > end_address.0 || end_address.0 >= VIRTUAL_ADDRESS_LIMIT {
        return Err(PagingError::InvalidAddress);
    }
    let first_page = Page::<BasePageSize>::including_address(start_address.as_u64());
    let last_page = Page::<BasePageSize>::including_address(end_address.as_u64());
    proof {
        let a = start_address.0 as int;
        let b = end_address.0 as int;
        vstd::arithmetic::div_mod::lemma_fundamental_div_mod(a, 4096);
        vstd::arithmetic::div_mod::lemma_fundamental_div_mod(b, 4096);
        vstd::arithmetic::div_mod::lemma_div_is_ordered(a, b, 4096);
        assert(a - a % 4096 <= b - b % 4096) by (nonlinear_arith)
            requires
                a == 4096 * (a / 4096) + a % 4096,
                b == 4096 * (b / 4096) + b % 4096,
                a / 4096 <= b / 4096,
        ;
    }
    let range = Page::range(first_page, last_page);
    let mut flags = PageTableEntryFlags::empty();
    flags.normal().writable().execute_disable();
    proof {
        let f = flags@;
        assert(((0u64 | NORMAL) & !READ_ONLY) | PRIVILEGED_EXECUTE_NEVER | UNPRIVILEGED_EXECUTE_NEVER
            == NORMAL | PRIVILEGED_EXECUTE_NEVER | UNPRIVILEGED_EXECUTE_NEVER) by (bit_vector);
        let first = first_page@ as int;
        let last = last_page@ as int;
        vstd::arithmetic::div_mod::lemma_fundamental_div_mod(last - first, 4096);
        assert(first + ((last - first) / 4096) * 4096 <= last) by (nonlinear_arith)
            requires
                last - first == 4096 * ((last - first) / 4096) + (last - first) % 4096,
                (last - first) % 4096 >= 0,
        ;
    }
    tables.map_pages(mem, range, first_page.address(), flags)
}

} // verus!
