//! The mapping table of an address space: which pages of virtual memory a
//! process has mapped, with which permissions, and where its heap ends.
//! Page tables and frames are not kept here.
use vstd::prelude::*;
use crate::config::PAGE_SIZE;

verus! {

/// What a process may do with a page.
#[derive(Clone, Copy, PartialEq, Eq, Structural, Debug)]
pub struct MapPermission {
    pub readable: bool,
    pub writable: bool,
    pub executable: bool,
    pub user: bool,
}

/// A run of pages mapped with one permission: the pages from `start_vpn` up
/// to, and without, `end_vpn`.
#[derive(Clone, Copy, Debug)]
pub struct MapArea {
    pub start_vpn: usize,
    pub end_vpn: usize,
    pub perm: MapPermission,
}

impl MapArea {
    /// Page `vpn` lies in the area.
    pub open spec fn contains(self, vpn: int) -> bool {
        self.start_vpn <= vpn < self.end_vpn
    }
}

/// The number of the page that holds address `addr`.
pub open spec fn page_floor(addr: int) -> int {
    addr / (PAGE_SIZE as int)
}

/// The number of the first page that starts at or after address `addr`.
pub open spec fn page_ceil(addr: int) -> int {
    (addr + PAGE_SIZE - 1) / (PAGE_SIZE as int)
}

/// Address `addr` is the first of its page.
pub open spec fn page_aligned(addr: int) -> bool {
    addr % (PAGE_SIZE as int) == 0
}

/// Some area holds page `vpn`.
pub open spec fn is_mapped(areas: Seq<MapArea>, vpn: int) -> bool {
    exists|i: int| 0 <= i < areas.len() && (#[trigger] areas[i]).contains(vpn)
}

/// An area that holds page `vpn`, if there is one.
pub open spec fn covering(areas: Seq<MapArea>, vpn: int) -> int {
    choose|i: int| 0 <= i < areas.len() && (#[trigger] areas[i]).contains(vpn)
}

/// No area is empty and no two areas share a page.
pub open spec fn areas_wf(areas: Seq<MapArea>) -> bool {
    &&& forall|i: int| 0 <= i < areas.len() ==> (#[trigger] areas[i]).start_vpn < areas[i].end_vpn
    &&& forall|i: int, j: int|
        0 <= i < areas.len() && 0 <= j < areas.len() && i != j ==> (#[trigger] areas[i]).end_vpn
            <= (#[trigger] areas[j]).start_vpn || areas[j].end_vpn <= areas[i].start_vpn
}

/// The pages of `areas`, each with its permission.
pub open spec fn mapping(areas: Seq<MapArea>) -> Map<int, MapPermission> {
    Map::new(|vpn: int| is_mapped(areas, vpn), |vpn: int| areas[covering(areas, vpn)].perm)
}

/// The pages from `start` up to, and without, `end`.
pub open spec fn page_range(start: int, end: int) -> Set<int> {
    Set::new(|vpn: int| start <= vpn < end)
}

/// Among areas that share no page, a page lies in one area at most.
pub proof fn lemma_covering_unique(areas: Seq<MapArea>, i: int, vpn: int)
    requires
        areas_wf(areas),
        0 <= i < areas.len(),
        areas[i].contains(vpn),
    ensures
        is_mapped(areas, vpn),
        covering(areas, vpn) == i,
        mapping(areas)[vpn] == areas[i].perm,
{
    let k = covering(areas, vpn);
    assert(0 <= k < areas.len() && areas[k].contains(vpn));
}

/// The mapping table of one address space.
pub struct MemorySet {
    pub areas: Vec<MapArea>,
    /// The address at which the heap starts.
    pub heap_bottom: usize,
    /// The address at which the heap ends: the program break.
    pub program_brk: usize,
}

impl View for MemorySet {
    type V = Map<int, MapPermission>;

    /// The mapped pages outside the heap, each with its permission.
    open spec fn view(&self) -> Map<int, MapPermission> {
        mapping(self.areas@)
    }
}

impl MemorySet {
    /// No area is empty, no two areas share a page, and the heap does not end
    /// before it starts.
    pub open spec fn wf(&self) -> bool {
        &&& areas_wf(self.areas@)
        &&& self.heap_bottom <= self.program_brk
    }

    /// Page `vpn` belongs to the heap.
    pub open spec fn in_heap(&self, vpn: int) -> bool {
        page_floor(self.heap_bottom as int) <= vpn < page_ceil(self.program_brk as int)
    }

    /// Page `vpn` is taken, by a mapping or by the heap.
    pub open spec fn occupied(&self, vpn: int) -> bool {
        self@.dom().contains(vpn) || self.in_heap(vpn)
    }

    /// Some page from `start` up to `end` is taken.
    pub open spec fn overlaps(&self, start: int, end: int) -> bool {
        exists|vpn: int| start <= vpn < end && #[trigger] self.occupied(vpn)
    }

    /// Every page from `start` up to `end` is mapped outside the heap.
    pub open spec fn covers(&self, start: int, end: int) -> bool {
        forall|vpn: int| start <= vpn < end ==> #[trigger] self@.dom().contains(vpn)
    }

    /// An address space with nothing mapped and an empty heap at `heap_bottom`.
    pub fn new(heap_bottom: usize) -> (ms: MemorySet)
        ensures
            ms.wf(),
            ms@ == Map::<int, MapPermission>::empty(),
            ms.heap_bottom == heap_bottom,
            ms.program_brk == heap_bottom,
    {
        let ms = MemorySet { areas: Vec::new(), heap_bottom, program_brk: heap_bottom };
        assert(ms@ =~= Map::<int, MapPermission>::empty());
        ms
    }

    /// Whether the table is well formed.
    pub fn check(&self) -> (ok: bool)
        ensures
            ok == self.wf(),
    {
        if self.heap_bottom > self.program_brk {
            return false;
        }
        let n = self.areas.len();
        let mut i: usize = 0;
        while i < n
            invariant
                n == self.areas@.len(),
                i <= n,
                forall|a: int| 0 <= a < i ==> (#[trigger] self.areas@[a]).start_vpn < self.areas@[a].end_vpn,
                forall|a: int, b: int|
                    0 <= a < i && 0 <= b < a ==> (#[trigger] self.areas@[a]).end_vpn <= (
                    #[trigger] self.areas@[b]).start_vpn || self.areas@[b].end_vpn
                        <= self.areas@[a].start_vpn,
            decreases n - i,
        {
            let area = self.areas[i];
            if area.start_vpn >= area.end_vpn {
                return false;
            }
            let mut j: usize = 0;
            while j < i
                invariant
                    n == self.areas@.len(),
                    i < n,
                    j <= i,
                    area == self.areas@[i as int],
                    forall|b: int|
                        0 <= b < j ==> area.end_vpn <= (#[trigger] self.areas@[b]).start_vpn
                            || self.areas@[b].end_vpn <= area.start_vpn,
                decreases i - j,
            {
                let other = self.areas[j];
                if !(area.end_vpn <= other.start_vpn || other.end_vpn <= area.start_vpn) {
                    return false;
                }
                j += 1;
            }
            i += 1;
        }
        proof {
            assert forall|a: int, b: int|
                0 <= a < self.areas@.len() && 0 <= b < self.areas@.len() && a != b implies (
            #[trigger] self.areas@[a]).end_vpn <= (#[trigger] self.areas@[b]).start_vpn
                || self.areas@[b].end_vpn <= self.areas@[a].start_vpn by {
                if b < a {
                } else {
                    assert(self.areas@[b].end_vpn <= self.areas@[a].start_vpn
                        || self.areas@[a].end_vpn <= self.areas@[b].start_vpn);
                }
            }
        }
        true
    }

    /// A copy of the address space.
    pub fn duplicate(&self) -> (copy: MemorySet)
        ensures
            copy.areas@ == self.areas@,
            copy.heap_bottom == self.heap_bottom,
            copy.program_brk == self.program_brk,
            copy@ == self@,
            self.wf() ==> copy.wf(),
    {
        let n = self.areas.len();
        let mut areas: Vec<MapArea> = Vec::new();
        let mut i: usize = 0;
        while i < n
            invariant
                n == self.areas@.len(),
                i <= n,
                areas@ == self.areas@.take(i as int),
            decreases n - i,
        {
            areas.push(self.areas[i]);
            assert(self.areas@.take(i as int).push(self.areas@[i as int]) =~= self.areas@.take(
                i as int + 1,
            ));
            i += 1;
        }
        assert(self.areas@.take(n as int) =~= self.areas@);
        MemorySet { areas, heap_bottom: self.heap_bottom, program_brk: self.program_brk }
    }

    /// Gives up every mapping and the whole heap.
    pub fn recycle(&mut self)
        ensures
            final(self).wf(),
            final(self)@ == Map::<int, MapPermission>::empty(),
            final(self).heap_bottom == old(self).heap_bottom,
            final(self).program_brk == old(self).heap_bottom,
    {
        self.areas.clear();
        self.program_brk = self.heap_bottom;
        assert(self@ =~= Map::<int, MapPermission>::empty());
    }

    /// Whether some area holds a page from `start` up to `end`.
    fn areas_intersect(&self, start: usize, end: usize) -> (hit: bool)
        requires
            self.wf(),
        ensures
            hit == exists|vpn: int| start <= vpn < end && #[trigger] self@.dom().contains(vpn),
    {
        if start >= end {
            return false;
        }
        let n = self.areas.len();
        let mut i: usize = 0;
        while i < n
            invariant
                self.wf(),
                n == self.areas@.len(),
                start < end,
                i <= n,
                forall|j: int|
                    0 <= j < i ==> !((#[trigger] self.areas@[j]).start_vpn < end && start
                        < self.areas@[j].end_vpn),
            decreases n - i,
        {
            let area = self.areas[i];
            if area.start_vpn < end && start < area.end_vpn {
                proof {
                    let vpn: int = if start >= area.start_vpn {
                        start as int
                    } else {
                        area.start_vpn as int
                    };
                    assert(self.areas@[i as int].contains(vpn));
                    assert(self@.dom().contains(vpn));
                }
                return true;
            }
            i += 1;
        }
        proof {
            assert forall|vpn: int| start <= vpn < end implies !#[trigger] self@.dom().contains(
                vpn,
            ) by {
                if is_mapped(self.areas@, vpn) {
                    let k = covering(self.areas@, vpn);
                    assert(self.areas@[k].contains(vpn));
                }
            }
        }
        false
    }

    /// Whether some page from `start` up to `end` is taken, by a mapping or
    /// by the heap.
    pub fn range_intersect(&self, start: usize, end: usize) -> (hit: bool)
        requires
            self.wf(),
        ensures
            hit == self.overlaps(start as int, end as int),
    {
        if self.areas_intersect(start, end) {
            let ghost vpn = choose|vpn: int| start <= vpn < end && #[trigger] self@.dom().contains(vpn);
            assert(self.occupied(vpn));
            return true;
        }
        let heap_start = floor_page(self.heap_bottom);
        let heap_end = ceil_page(self.program_brk);
        if heap_start < end && start < heap_end && start < end && heap_start < heap_end {
            proof {
                let vpn: int = if start >= heap_start {
                    start as int
                } else {
                    heap_start as int
                };
                assert(self.in_heap(vpn));
                assert(self.occupied(vpn));
            }
            true
        } else {
            proof {
                assert forall|vpn: int| start <= vpn < end implies !#[trigger] self.occupied(vpn) by {
                    assert(!self@.dom().contains(vpn));
                }
            }
            false
        }
    }

    /// Maps the pages from `start` up to `end` with `perm`. The pages must be
    /// free. An empty range maps nothing.
    pub fn insert_framed_area(&mut self, start: usize, end: usize, perm: MapPermission)
        requires
            old(self).wf(),
            !exists|vpn: int| start <= vpn < end && #[trigger] old(self)@.dom().contains(vpn),
        ensures
            final(self).wf(),
            final(self).heap_bottom == old(self).heap_bottom,
            final(self).program_brk == old(self).program_brk,
            final(self)@ == old(self)@.union_prefer_right(
                Map::new(|vpn: int| start <= vpn < end, |vpn: int| perm),
            ),
    {
        if start < end {
            let area = MapArea { start_vpn: start, end_vpn: end, perm };
            self.areas.push(area);
            proof {
                let before = old(self).areas@;
                let after = self.areas@;
                let last = before.len() as int;
                assert forall|vpn: int| start <= vpn < end implies !#[trigger] is_mapped(
                    before,
                    vpn,
                ) by {
                    assert(!old(self)@.dom().contains(vpn));
                }
                assert forall|i: int, j: int|
                    0 <= i < after.len() && 0 <= j < after.len() && i != j implies (
                #[trigger] after[i]).end_vpn <= (#[trigger] after[j]).start_vpn || after[j].end_vpn
                    <= after[i].start_vpn by {
                    if i == last {
                        Self::lemma_apart(before, j, start as int, end as int);
                    } else if j == last {
                        Self::lemma_apart(before, i, start as int, end as int);
                    }
                }
                assert(areas_wf(after));
                let want = old(self)@.union_prefer_right(
                    Map::new(|vpn: int| start <= vpn < end, |vpn: int| perm),
                );
                assert forall|vpn: int| self@.dom().contains(vpn) == want.dom().contains(vpn) by {
                    if is_mapped(after, vpn) {
                        let k = covering(after, vpn);
                        if k < last {
                            assert(before[k].contains(vpn));
                        }
                    }
                    if is_mapped(before, vpn) {
                        let k = covering(before, vpn);
                        assert(after[k].contains(vpn));
                    }
                    if start <= vpn < end {
                        assert(after[last].contains(vpn));
                    }
                }
                assert forall|vpn: int| #[trigger] self@.dom().contains(vpn) implies self@[vpn]
                    == want[vpn] by {
                    if start <= vpn < end {
                        lemma_covering_unique(after, last, vpn);
                    } else {
                        let k = covering(after, vpn);
                        assert(after[k].contains(vpn));
                        assert(before[k].contains(vpn));
                        lemma_covering_unique(before, k, vpn);
                    }
                }
                assert(self@ =~= want);
            }
        } else {
            assert(self@ =~= old(self)@.union_prefer_right(
                Map::new(|vpn: int| start <= vpn < end, |vpn: int| perm),
            ));
        }
    }

    /// An area shares no page with a range of free pages.
    proof fn lemma_apart(areas: Seq<MapArea>, i: int, start: int, end: int)
        requires
            areas_wf(areas),
            0 <= i < areas.len(),
            start < end,
            forall|vpn: int| start <= vpn < end ==> !#[trigger] is_mapped(areas, vpn),
        ensures
            areas[i].end_vpn <= start || end <= areas[i].start_vpn,
    {
        if !(areas[i].end_vpn <= start || end <= areas[i].start_vpn) {
            let vpn: int = if start >= areas[i].start_vpn {
                start
            } else {
                areas[i].start_vpn as int
            };
            assert(areas[i].contains(vpn));
            assert(is_mapped(areas, vpn));
        }
    }

    /// Whether every page from `start` up to `end` is mapped outside the heap.
    pub fn range_covered(&self, start: usize, end: usize) -> (all: bool)
        requires
            self.wf(),
        ensures
            all == self.covers(start as int, end as int),
    {
        let n = self.areas.len();
        let mut cur: usize = start;
        while cur < end
            invariant
                self.wf(),
                n == self.areas@.len(),
                start <= cur,
                forall|vpn: int| start <= vpn < cur && vpn < end ==> #[trigger] self@.dom().contains(vpn),
            decreases end - cur,
        {
            let mut found: Option<usize> = None;
            let mut i: usize = 0;
            while i < n && found.is_none()
                invariant
                    n == self.areas@.len(),
                    i <= n,
                    found is None ==> forall|j: int|
                        0 <= j < i ==> !(#[trigger] self.areas@[j]).contains(cur as int),
                    found matches Some(k) ==> k < n && self.areas@[k as int].contains(cur as int),
                decreases n - i,
            {
                if self.areas[i].start_vpn <= cur && cur < self.areas[i].end_vpn {
                    found = Some(i);
                }
                i += 1;
            }
            match found {
                None => {
                    proof {
                        if is_mapped(self.areas@, cur as int) {
                            let k = covering(self.areas@, cur as int);
                            assert(self.areas@[k].contains(cur as int));
                        }
                        assert(!self@.dom().contains(cur as int));
                    }
                    return false;
                },
                Some(k) => {
                    let next = self.areas[k].end_vpn;
                    assert(self.areas@[k as int].contains(cur as int));
                    proof {
                        assert forall|vpn: int| start <= vpn < next && vpn < end implies #[trigger] self@.dom().contains(
                            vpn,
                        ) by {
                            if vpn >= cur {
                                assert(self.areas@[k as int].contains(vpn));
                            }
                        }
                    }
                    cur = if next < end {
                        next
                    } else {
                        end
                    };
                },
            }
        }
        true
    }

    /// Unmaps the pages from `start` up to `end`, if all of them are mapped
    /// outside the heap, and says whether it did. Otherwise nothing changes.
    pub fn unmap_range(&mut self, start: usize, end: usize) -> (done: bool)
        requires
            old(self).wf(),
        ensures
            final(self).wf(),
            done == old(self).covers(start as int, end as int),
            final(self).heap_bottom == old(self).heap_bottom,
            final(self).program_brk == old(self).program_brk,
            done ==> final(self)@ == old(self)@.remove_keys(page_range(start as int, end as int)),
            !done ==> final(self)@ == old(self)@ && final(self).areas@ == old(self).areas@,
    {
        if !self.range_covered(start, end) {
            return false;
        }
        if start >= end {
            assert(self@ =~= old(self)@.remove_keys(page_range(start as int, end as int)));
            return true;
        }
        let n = self.areas.len();
        let mut kept: Vec<MapArea> = Vec::new();
        let ghost mut origin: Seq<int> = Seq::empty();
        let mut i: usize = 0;
        while i < n
            invariant
                self.wf(),
                self.areas@ == old(self).areas@,
                n == self.areas@.len(),
                start < end,
                i <= n,
                origin.len() == kept@.len(),
                forall|k: int|
                    0 <= k < kept@.len() ==> {
                        let j = #[trigger] origin[k];
                        &&& 0 <= j < i
                        &&& self.areas@[j].start_vpn <= kept@[k].start_vpn
                        &&& kept@[k].start_vpn < kept@[k].end_vpn
                        &&& kept@[k].end_vpn <= self.areas@[j].end_vpn
                        &&& kept@[k].perm == self.areas@[j].perm
                        &&& (kept@[k].end_vpn <= start || end <= kept@[k].start_vpn)
                    },
                forall|k: int, l: int|
                    0 <= k < kept@.len() && 0 <= l < kept@.len() && k != l ==> (#[trigger] kept@[k]).end_vpn
                        <= (#[trigger] kept@[l]).start_vpn || kept@[l].end_vpn <= kept@[k].start_vpn,
                forall|j: int, vpn: int|
                    0 <= j < i && (#[trigger] self.areas@[j]).contains(vpn) && !(start <= vpn < end)
                        ==> #[trigger] is_mapped(kept@, vpn),
            decreases n - i,
        {
            let area = self.areas[i];
            let ghost kept_before = kept@;
            let ghost origin_before = origin;
            assert(area.start_vpn < area.end_vpn);
            if area.end_vpn <= start || end <= area.start_vpn {
                kept.push(area);
                proof {
                    origin = origin.push(i as int);
                }
            } else {
                if area.start_vpn < start {
                    kept.push(MapArea { start_vpn: area.start_vpn, end_vpn: start, perm: area.perm });
                    proof {
                        origin = origin.push(i as int);
                    }
                }
                if end < area.end_vpn {
                    kept.push(MapArea { start_vpn: end, end_vpn: area.end_vpn, perm: area.perm });
                    proof {
                        origin = origin.push(i as int);
                    }
                }
            }
            proof {
                assert forall|k: int| 0 <= k < kept@.len() implies {
                    let j = #[trigger] origin[k];
                    &&& 0 <= j < i + 1
                    &&& self.areas@[j].start_vpn <= kept@[k].start_vpn
                    &&& kept@[k].start_vpn < kept@[k].end_vpn
                    &&& kept@[k].end_vpn <= self.areas@[j].end_vpn
                    &&& kept@[k].perm == self.areas@[j].perm
                    &&& (kept@[k].end_vpn <= start || end <= kept@[k].start_vpn)
                } by {
                    if k < kept_before.len() {
                        assert(kept@[k] == kept_before[k]);
                        assert(origin[k] == origin_before[k]);
                    }
                }
                assert forall|k: int, l: int|
                    0 <= k < kept@.len() && 0 <= l < kept@.len() && k != l implies (
                #[trigger] kept@[k]).end_vpn <= (#[trigger] kept@[l]).start_vpn || kept@[l].end_vpn
                    <= kept@[k].start_vpn by {
                    let jk = origin[k];
                    let jl = origin[l];
                    if k < kept_before.len() && l < kept_before.len() {
                        assert(kept@[k] == kept_before[k]);
                        assert(kept@[l] == kept_before[l]);
                    } else if jk != jl {
                        assert(self.areas@[jk].end_vpn <= self.areas@[jl].start_vpn
                            || self.areas@[jl].end_vpn <= self.areas@[jk].start_vpn);
                    }
                }
                assert forall|j: int, vpn: int|
                    0 <= j < i + 1 && (#[trigger] self.areas@[j]).contains(vpn) && !(start <= vpn
                        < end) implies #[trigger] is_mapped(kept@, vpn) by {
                    if j < i {
                        assert(is_mapped(kept_before, vpn));
                        let k = covering(kept_before, vpn);
                        assert(kept@[k].contains(vpn));
                    } else {
                        if area.end_vpn <= start || end <= area.start_vpn {
                            assert(kept@[kept@.len() - 1].contains(vpn));
                        } else if vpn < start {
                            assert(kept@[kept_before.len() as int].contains(vpn));
                        } else {
                            assert(kept@[kept@.len() - 1].contains(vpn));
                        }
                    }
                }
            }
            i += 1;
        }
        proof {
            let before = old(self).areas@;
            let want = old(self)@.remove_keys(page_range(start as int, end as int));
            assert forall|k: int| 0 <= k < kept@.len() implies (#[trigger] kept@[k]).start_vpn
                < kept@[k].end_vpn by {
                let j = origin[k];
            }
            assert(areas_wf(kept@));
            assert forall|vpn: int| mapping(kept@).dom().contains(vpn) == want.dom().contains(vpn) by {
                if is_mapped(kept@, vpn) {
                    let k = covering(kept@, vpn);
                    assert(kept@[k].contains(vpn));
                    assert(before[origin[k]].contains(vpn));
                }
                if is_mapped(before, vpn) && !(start <= vpn < end) {
                    let j = covering(before, vpn);
                    assert(before[j].contains(vpn));
                }
            }
            assert forall|vpn: int| #[trigger] mapping(kept@).dom().contains(vpn) implies mapping(
                kept@,
            )[vpn] == want[vpn] by {
                let k = covering(kept@, vpn);
                assert(kept@[k].contains(vpn));
                assert(before[origin[k]].contains(vpn));
                lemma_covering_unique(before, origin[k], vpn);
            }
            assert(mapping(kept@) =~= want);
        }
        self.areas = kept;
        true
    }

    /// Moves the program break by `size` bytes and returns the break as it
    /// was. The break cannot go below the start of the heap nor beyond the
    /// largest address, and the heap cannot grow into mapped pages: then
    /// nothing changes and `None` is returned.
    pub fn change_program_brk(&mut self, size: i32) -> (old_brk: Option<usize>)
        requires
            old(self).wf(),
        ensures
            final(self).wf(),
            final(self).areas@ == old(self).areas@,
            final(self).heap_bottom == old(self).heap_bottom,
            old_brk is Some <==> old(self).brk_can_move(size as int),
            old_brk is Some ==> old_brk == Some(old(self).program_brk) && final(self).program_brk
                == old(self).program_brk + size,
            old_brk is None ==> final(self).program_brk == old(self).program_brk,
    {
        let brk = self.program_brk;
        if size >= 0 {
            let grow = size as usize;
            if grow > usize::MAX - brk {
                return None;
            }
            let new_brk = brk + grow;
            if self.areas_intersect(ceil_page(brk), ceil_page(new_brk)) {
                return None;
            }
            self.program_brk = new_brk;
            Some(brk)
        } else {
            let shrink = (-(size as i64)) as usize;
            if shrink > brk - self.heap_bottom {
                return None;
            }
            self.program_brk = brk - shrink;
            Some(brk)
        }
    }

    /// The break can move by `size` bytes: it stays within the heap's start
    /// and the largest address, and the pages that the heap would newly take
    /// are not mapped.
    pub open spec fn brk_can_move(&self, size: int) -> bool {
        &&& self.heap_bottom <= self.program_brk + size <= usize::MAX
        &&& !exists|vpn: int|
            page_ceil(self.program_brk as int) <= vpn < page_ceil(self.program_brk + size)
                && #[trigger] self@.dom().contains(vpn)
    }
}

/// The number of the page that holds address `addr`.
pub fn floor_page(addr: usize) -> (vpn: usize)
    ensures
        vpn == page_floor(addr as int),
{
    addr / PAGE_SIZE
}

/// The number of the first page that starts at or after address `addr`.
pub fn ceil_page(addr: usize) -> (vpn: usize)
    ensures
        vpn == page_ceil(addr as int),
{
    if addr % PAGE_SIZE == 0 {
        addr / PAGE_SIZE
    } else {
        addr / PAGE_SIZE + 1
    }
}

/// After pages that were free have been mapped and unmapped again, they are
/// free as before: the table holds what it held, and the same range can be
/// mapped once more.
pub proof fn lemma_map_unmap_restores(
    before: Map<int, MapPermission>,
    start: int,
    end: int,
    perm: MapPermission,
)
    requires
        forall|vpn: int| start <= vpn < end ==> !before.dom().contains(vpn),
    ensures
        ({
            let mapped = before.union_prefer_right(Map::new(|vpn: int| start <= vpn < end, |vpn: int| perm));
            &&& forall|vpn: int| start <= vpn < end ==> mapped.dom().contains(vpn)
            &&& mapped.remove_keys(page_range(start, end)) == before
        }),
{
    let mapped = before.union_prefer_right(Map::new(|vpn: int| start <= vpn < end, |vpn: int| perm));
    assert(mapped.remove_keys(page_range(start, end)) =~= before);
}


impl MemorySet {
    /// Mapping pages and unmapping them again leaves them free: where the
    /// pages from `start` up to `end` were free in `self`, `mapped` is `self`
    /// with those pages mapped and `unmapped` is `mapped` without them, the
    /// pages are all mapped in `mapped`, so that they can be unmapped, and
    /// are free again in `unmapped`, so that they can be mapped once more.
    pub proof fn lemma_map_unmap_frees(
        &self,
        mapped: MemorySet,
        unmapped: MemorySet,
        start: int,
        end: int,
        perm: MapPermission,
    )
        requires
            !self.overlaps(start, end),
            mapped@ == self@.union_prefer_right(Map::new(|vpn: int| start <= vpn < end, |vpn: int| perm)),
            mapped.heap_bottom == self.heap_bottom,
            mapped.program_brk == self.program_brk,
            unmapped@ == mapped@.remove_keys(page_range(start, end)),
            unmapped.heap_bottom == self.heap_bottom,
            unmapped.program_brk == self.program_brk,
        ensures
            mapped.covers(start, end),
            unmapped@ == self@,
            !unmapped.overlaps(start, end),
    {
        assert forall|vpn: int| start <= vpn < end implies !self@.dom().contains(vpn) by {
            assert(!self.occupied(vpn));
        }
        lemma_map_unmap_restores(self@, start, end, perm);
        assert forall|vpn: int| start <= vpn < end implies !#[trigger] unmapped.occupied(vpn) by {
            assert(!self.occupied(vpn));
        }
    }
}

} // verus!
