//! Address spaces: disjoint framed regions of virtual pages, zero-initialized
//! on mapping, with byte-granular translation of user addresses.
use vstd::prelude::*;
use vstd::arithmetic::div_mod::lemma_fundamental_div_mod;
use vstd::arithmetic::div_mod::lemma_div_is_ordered;
use crate::PAGE_SIZE;
use crate::PERM_U;

verus! {

/// The page holding byte address `addr`.
pub open spec fn page_of(addr: int) -> int {
    addr / (PAGE_SIZE as int)
}

/// First page after the byte range `[start, start + len)`, rounding the end up.
pub open spec fn end_page(start: int, len: int) -> int {
    (start + len + (PAGE_SIZE - 1)) / (PAGE_SIZE as int)
}

/// One mapped region: `pages` consecutive virtual pages starting at
/// `start_vpn`, physically backed by `data`, all carrying permission `perm`.
pub struct Region {
    pub start_vpn: usize,
    pub pages: usize,
    pub perm: u8,
    pub data: Vec<u8>,
}

impl Region {
    pub open spec fn wf(self) -> bool {
        &&& 0 < self.pages
        &&& self.end_vpn() <= usize::MAX as int / (PAGE_SIZE as int)
        &&& self.data@.len() == self.pages * PAGE_SIZE
    }

    pub open spec fn end_vpn(self) -> int {
        self.start_vpn + self.pages
    }

    pub open spec fn contains_page(self, vpn: int) -> bool {
        self.start_vpn <= vpn < self.end_vpn()
    }

    /// The byte this region backs at virtual byte address `addr`.
    pub open spec fn byte_at(self, addr: int) -> u8 {
        self.data@[addr - self.start_vpn * PAGE_SIZE]
    }

    /// Same pages, permission and contents (the physical frames may differ).
    pub open spec fn models(self, other: Region) -> bool {
        &&& self.start_vpn == other.start_vpn
        &&& self.pages == other.pages
        &&& self.perm == other.perm
        &&& self.data@ == other.data@
    }
}

pub open spec fn regions_disjoint(a: Region, b: Region) -> bool {
    a.end_vpn() <= b.start_vpn || b.end_vpn() <= a.start_vpn
}

/// One task's address space: a set of pairwise disjoint mapped regions.
pub struct AddressSpace {
    pub regions: Vec<Region>,
}

impl AddressSpace {
    pub open spec fn wf(self) -> bool {
        &&& forall|i: int| 0 <= i < self.regions@.len() ==> (#[trigger] self.regions@[i]).wf()
        &&& forall|i: int, j: int|
            0 <= i < self.regions@.len() && 0 <= j < self.regions@.len() && i != j
                ==> regions_disjoint(#[trigger] self.regions@[i], #[trigger] self.regions@[j])
    }

    /// Whether virtual page `vpn` has a translation.
    pub open spec fn is_mapped(self, vpn: int) -> bool {
        exists|i: int| 0 <= i < self.regions@.len() && (#[trigger] self.regions@[i]).contains_page(vpn)
    }

    /// Index of the (unique, by disjointness) region holding `vpn`.
    pub open spec fn region_of(self, vpn: int) -> int {
        choose|i: int| 0 <= i < self.regions@.len() && (#[trigger] self.regions@[i]).contains_page(vpn)
    }

    /// Whether the byte at virtual address `addr` has a translation.
    pub open spec fn addr_mapped(self, addr: int) -> bool {
        self.is_mapped(page_of(addr))
    }

    /// The byte stored at virtual address `addr` (meaningful when mapped).
    pub open spec fn byte_at(self, addr: int) -> u8 {
        self.regions@[self.region_of(page_of(addr))].byte_at(addr)
    }

    /// The permission mask of page `vpn` (meaningful when mapped).
    pub open spec fn perm_of(self, vpn: int) -> u8 {
        self.regions@[self.region_of(vpn)].perm
    }

    /// Same pages mapped with the same permissions.
    pub open spec fn same_mapping(self, other: AddressSpace) -> bool {
        &&& forall|vpn: int| self.is_mapped(vpn) == other.is_mapped(vpn)
        &&& forall|vpn: int|
            #[trigger] self.is_mapped(vpn) ==> self.perm_of(vpn) == other.perm_of(vpn)
    }

    /// Same pages, permissions and byte contents: an exact copy as far as
    /// translation can observe.
    pub open spec fn models(self, other: AddressSpace) -> bool {
        &&& self.regions@.len() == other.regions@.len()
        &&& forall|i: int|
            0 <= i < self.regions@.len()
                ==> (#[trigger] self.regions@[i]).models(other.regions@[i])
    }

    /// In a well-formed address space the region holding a page is unique.
    pub proof fn lemma_region_of(self, vpn: int, i: int)
        requires
            self.wf(),
            0 <= i < self.regions@.len(),
            self.regions@[i].contains_page(vpn),
        ensures
            self.is_mapped(vpn),
            self.region_of(vpn) == i,
    {
        assert(self.is_mapped(vpn));
        let j = self.region_of(vpn);
        if j != i {
            assert(regions_disjoint(self.regions@[i], self.regions@[j]));
        }
    }

    /// Exact copies translate alike.
    pub proof fn lemma_models_same_view(self, other: AddressSpace)
        requires
            self.wf(),
            self.models(other),
        ensures
            other.wf(),
            forall|vpn: int| self.is_mapped(vpn) == other.is_mapped(vpn),
            forall|vpn: int|
                #[trigger] self.is_mapped(vpn) ==> self.perm_of(vpn) == other.perm_of(vpn),
            forall|a: int|
                #[trigger] self.addr_mapped(a) ==> self.byte_at(a) == other.byte_at(a),
    {
        assert forall|vpn: int| self.is_mapped(vpn) == other.is_mapped(vpn) by {
            if self.is_mapped(vpn) {
                let i = choose|i: int|
                    0 <= i < self.regions@.len() && (#[trigger] self.regions@[i]).contains_page(vpn);
                assert(other.regions@[i].contains_page(vpn));
            }
            if other.is_mapped(vpn) {
                let i = choose|i: int|
                    0 <= i < other.regions@.len()
                        && (#[trigger] other.regions@[i]).contains_page(vpn);
                assert(self.regions@[i].contains_page(vpn));
            }
        }
        assert forall|i: int, j: int|
            0 <= i < other.regions@.len() && 0 <= j < other.regions@.len() && i != j
                implies regions_disjoint(other.regions@[i], other.regions@[j]) by {
            assert(regions_disjoint(self.regions@[i], self.regions@[j]));
        }
        assert forall|i: int| 0 <= i < other.regions@.len()
            implies (#[trigger] other.regions@[i]).wf() by {
            assert(self.regions@[i].wf());
            assert(self.regions@[i].models(other.regions@[i]));
        }
        assert(other.wf());
        assert forall|vpn: int| #[trigger] self.is_mapped(vpn)
            implies self.perm_of(vpn) == other.perm_of(vpn) by {
            let i = self.region_of(vpn);
            assert(self.regions@[i].contains_page(vpn));
            assert(other.regions@[i].contains_page(vpn));
            other.lemma_region_of(vpn, i);
        }
        assert forall|a: int| #[trigger] self.addr_mapped(a)
            implies self.byte_at(a) == other.byte_at(a) by {
            let i = self.region_of(page_of(a));
            assert(self.regions@[i].contains_page(page_of(a)));
            assert(other.regions@[i].contains_page(page_of(a)));
            other.lemma_region_of(page_of(a), i);
        }
    }

    /// Look up the region holding page `vpn`, if any.
    pub fn find_region(&self, vpn: usize) -> (r: Option<usize>)
        requires
            self.wf(),
        ensures
            match r {
                Some(i) => {
                    &&& i < self.regions@.len()
                    &&& self.regions@[i as int].contains_page(vpn as int)
                    &&& self.is_mapped(vpn as int)
                    &&& self.region_of(vpn as int) == i
                },
                None => !self.is_mapped(vpn as int),
            },
    {
        let n = self.regions.len();
        let mut i: usize = 0;
        while i < n
            invariant
                n == self.regions@.len(),
                self.wf(),
                forall|j: int| 0 <= j < i ==> !(#[trigger] self.regions@[j]).contains_page(vpn as int),
            decreases n - i,
        {
            let r = &self.regions[i];
            if r.start_vpn <= vpn && vpn - r.start_vpn < r.pages {
                proof {
                    self.lemma_region_of(vpn as int, i as int);
                }
                return Some(i);
            }
            i = i + 1;
        }
        proof {
            if self.is_mapped(vpn as int) {
                let j = self.region_of(vpn as int);
            }
        }
        None
    }

    /// Translate and read one byte of this address space.
    pub fn read_byte(&self, addr: usize) -> (r: Option<u8>)
        requires
            self.wf(),
        ensures
            r == if self.addr_mapped(addr as int) {
                Some(self.byte_at(addr as int))
            } else {
                None::<u8>
            },
    {
        let vpn = addr / PAGE_SIZE;
        assert(vpn == page_of(addr as int));
        match self.find_region(vpn) {
            None => None,
            Some(i) => {
                let r = &self.regions[i];
                proof {
                    lemma_offset_in_region(*r, addr as int);
                }
                let off = addr - r.start_vpn * PAGE_SIZE;
                Some(r.data[off])
            },
        }
    }

    /// Translate and overwrite one byte; reports whether `addr` was mapped.
    /// Nothing is written when it is not.
    pub fn write_byte(&mut self, addr: usize, val: u8) -> (ok: bool)
        requires
            old(self).wf(),
        ensures
            final(self).wf(),
            ok == old(self).addr_mapped(addr as int),
            final(self).same_mapping(*old(self)),
            ok ==> forall|a: int|
                #[trigger] old(self).addr_mapped(a)
                    ==> final(self).byte_at(a) == if a == addr { val } else { old(self).byte_at(a) },
            !ok ==> *final(self) == *old(self),
    {
        let vpn = addr / PAGE_SIZE;
        assert(vpn == page_of(addr as int));
        match self.find_region(vpn) {
            None => {
                proof {
                    lemma_same_mapping_refl(*self);
                }
                false
            },
            Some(i) => {
                let ghost pre = *self;
                let mut r = self.regions.remove(i);
                proof {
                    lemma_offset_in_region(r, addr as int);
                }
                let off = addr - r.start_vpn * PAGE_SIZE;
                r.data[off] = val;
                self.regions.insert(i, r);
                proof {
                    assert(self.regions@ =~= pre.regions@.update(i as int, r));
                    lemma_update_region_view(pre, *self, i as int, addr as int, val);
                }
                true
            },
        }
    }
}

/// Permission mask a mapping request `port` (bits over read=1, write=2,
/// execute=4) translates to: the same bits one position up, plus user access.
pub open spec fn port_perm(port: int) -> u8 {
    (port * 2 + PERM_U) as u8
}

pub open spec fn region_overlaps(r: Region, spn: int, epn: int) -> bool {
    r.start_vpn < epn && spn < r.end_vpn()
}

pub open spec fn region_inside(r: Region, spn: int, epn: int) -> bool {
    spn <= r.start_vpn && r.end_vpn() <= epn
}

impl AddressSpace {
    /// When a map request succeeds: start page-aligned, permission bits
    /// non-empty and within the three architectural bits, the byte range
    /// representable, and no requested page already mapped.
    pub open spec fn can_mmap(self, start: int, len: int, port: int) -> bool {
        &&& start % (PAGE_SIZE as int) == 0
        &&& 1 <= port <= 7
        &&& start + len + (PAGE_SIZE - 1) <= usize::MAX
        &&& forall|vpn: int|
            page_of(start) <= vpn < end_page(start, len) ==> !(#[trigger] self.is_mapped(vpn))
    }

    /// When an unmap request succeeds: start page-aligned, the byte range
    /// representable, every requested page mapped, and no mapped region
    /// straddling the boundary of the requested range.
    pub open spec fn can_munmap(self, start: int, len: int) -> bool {
        &&& start % (PAGE_SIZE as int) == 0
        &&& start + len + (PAGE_SIZE - 1) <= usize::MAX
        &&& forall|vpn: int|
            page_of(start) <= vpn < end_page(start, len) ==> (#[trigger] self.is_mapped(vpn))
        &&& forall|i: int|
            0 <= i < self.regions@.len()
                && region_overlaps(#[trigger] self.regions@[i], page_of(start), end_page(start, len))
                ==> region_inside(self.regions@[i], page_of(start), end_page(start, len))
    }

    /// Map the page-rounded range as one new framed, zero-initialized,
    /// user-accessible region. Fails, changing nothing, on a misaligned
    /// start, malformed permission bits, or any overlap with what is mapped.
    #[verifier::loop_isolation(false)]
    pub fn mmap(&mut self, start: usize, len: usize, port: usize) -> (r: isize)
        requires
            old(self).wf(),
        ensures
            final(self).wf(),
            r == 0 || r == -1,
            (r == 0) == old(self).can_mmap(start as int, len as int, port as int),
            r == -1 ==> *final(self) == *old(self),
            r == 0 ==> forall|vpn: int|
                page_of(start as int) <= vpn < end_page(start as int, len as int)
                    ==> #[trigger] final(self).is_mapped(vpn)
                        && final(self).perm_of(vpn) == port_perm(port as int),
            r == 0 ==> forall|vpn: int|
                !(page_of(start as int) <= vpn < end_page(start as int, len as int))
                    ==> #[trigger] final(self).is_mapped(vpn) == old(self).is_mapped(vpn),
            r == 0 ==> forall|vpn: int|
                !(page_of(start as int) <= vpn < end_page(start as int, len as int))
                    && #[trigger] old(self).is_mapped(vpn)
                    ==> final(self).perm_of(vpn) == old(self).perm_of(vpn),
            r == 0 ==> forall|a: int|
                page_of(start as int) <= page_of(a) < end_page(start as int, len as int)
                    ==> #[trigger] final(self).byte_at(a) == 0,
            r == 0 ==> forall|a: int|
                !(page_of(start as int) <= page_of(a) < end_page(start as int, len as int))
                    && #[trigger] old(self).addr_mapped(a)
                    ==> final(self).byte_at(a) == old(self).byte_at(a),
    {
        if start % PAGE_SIZE != 0 {
            return -1;
        }
        if port == 0 || port > 7 {
            return -1;
        }
        let e = match start.checked_add(len) {
            Some(e) => e,
            None => {
                return -1;
            },
        };
        let e2 = match e.checked_add(PAGE_SIZE - 1) {
            Some(x) => x,
            None => {
                return -1;
            },
        };
        let spn = start / PAGE_SIZE;
        let epn = e2 / PAGE_SIZE;
        assert(spn == page_of(start as int));
        assert(epn == end_page(start as int, len as int));
        if epn == spn {
            return 0;
        }
        let n = self.regions.len();
        let mut i: usize = 0;
        while i < n
            invariant
                self.wf(),
                n == self.regions@.len(),
                spn < epn,
                forall|j: int|
                    0 <= j < i ==> !region_overlaps(#[trigger] self.regions@[j], spn as int, epn as int),
            decreases n - i,
        {
            let rg = &self.regions[i];
            let rend = rg.start_vpn + rg.pages;
            if rg.start_vpn < epn && spn < rend {
                proof {
                    let w: int = if spn >= rg.start_vpn { spn as int } else { rg.start_vpn as int };
                    assert(rg.contains_page(w));
                    assert(self.is_mapped(w));
                    assert(spn <= w < epn);
                    assert(!self.can_mmap(start as int, len as int, port as int));
                }
                return -1;
            }
            i = i + 1;
        }
        assert forall|vpn: int| spn <= vpn < epn implies !(#[trigger] self.is_mapped(vpn)) by {
            if self.is_mapped(vpn) {
                let j = self.region_of(vpn);
                assert(region_overlaps(self.regions@[j], spn as int, epn as int));
            }
        }
        let pages = epn - spn;
        proof {
            lemma_page_count_bytes(e2 as int, epn as int, pages as int);
            lemma_div_is_ordered(e2 as int, usize::MAX as int, PAGE_SIZE as int);
        }
        let data = zero_vec(pages * PAGE_SIZE);
        let perm = (port * 2 + PERM_U as usize) as u8;
        let rg = Region { start_vpn: spn, pages, perm, data };
        let ghost pre = *self;
        self.regions.push(rg);
        proof {
            lemma_mmap_view(pre, *self, rg, spn as int, epn as int);
        }
        0
    }

    /// Unmap the page-rounded range. Fails, changing nothing, on a
    /// misaligned start or when the range is not exactly the union of
    /// currently mapped regions; on success removes those regions and
    /// their translations.
    #[verifier::rlimit(30)]
    #[verifier::loop_isolation(false)]
    pub fn munmap(&mut self, start: usize, len: usize) -> (r: isize)
        requires
            old(self).wf(),
        ensures
            final(self).wf(),
            r == 0 || r == -1,
            (r == 0) == old(self).can_munmap(start as int, len as int),
            r == -1 ==> *final(self) == *old(self),
            r == 0 ==> forall|vpn: int|
                #[trigger] final(self).is_mapped(vpn) == (old(self).is_mapped(vpn)
                    && !(page_of(start as int) <= vpn < end_page(start as int, len as int))),
            r == 0 ==> forall|vpn: int|
                #[trigger] final(self).is_mapped(vpn)
                    ==> final(self).perm_of(vpn) == old(self).perm_of(vpn),
            r == 0 ==> forall|a: int|
                #[trigger] final(self).addr_mapped(a)
                    ==> final(self).byte_at(a) == old(self).byte_at(a),
    {
        if start % PAGE_SIZE != 0 {
            return -1;
        }
        let e = match start.checked_add(len) {
            Some(e) => e,
            None => {
                return -1;
            },
        };
        let e2 = match e.checked_add(PAGE_SIZE - 1) {
            Some(x) => x,
            None => {
                return -1;
            },
        };
        let spn = start / PAGE_SIZE;
        let epn = e2 / PAGE_SIZE;
        assert(spn == page_of(start as int));
        assert(epn == end_page(start as int, len as int));
        let n = self.regions.len();
        let mut i: usize = 0;
        while i < n
            invariant
                self.wf(),
                n == self.regions@.len(),
                forall|j: int|
                    0 <= j < i && region_overlaps(#[trigger] self.regions@[j], spn as int, epn as int)
                        ==> region_inside(self.regions@[j], spn as int, epn as int),
            decreases n - i,
        {
            let rg = &self.regions[i];
            let rend = rg.start_vpn + rg.pages;
            if rg.start_vpn < epn && spn < rend {
                if !(spn <= rg.start_vpn && rend <= epn) {
                    proof {
                        assert(region_overlaps(self.regions@[i as int], spn as int, epn as int));
                        assert(!region_inside(self.regions@[i as int], spn as int, epn as int));
                        assert(!self.can_munmap(start as int, len as int));
                    }
                    return -1;
                }
            }
            i = i + 1;
        }
        let mut vpn = spn;
        while vpn < epn
            invariant
                self.wf(),
                spn <= vpn <= epn,
                forall|v: int| spn <= v < vpn ==> (#[trigger] self.is_mapped(v)),
            decreases epn - vpn,
        {
            if self.find_region(vpn).is_none() {
                proof {
                    assert(spn <= vpn < epn && !self.is_mapped(vpn as int));
                    assert(!self.can_munmap(start as int, len as int));
                }
                return -1;
            }
            vpn = vpn + 1;
        }
        assert(self.can_munmap(start as int, len as int));
        let ghost pre = *self;
        let mut kept: Vec<Region> = Vec::new();
        let ghost mut picks: Seq<int> = Seq::empty();
        let ghost mut back: Seq<int> = Seq::new(pre.regions@.len(), |j: int| -1);
        while self.regions.len() > 0
            invariant
                pre.wf(),
                self.regions@.len() <= pre.regions@.len(),
                self.regions@ == pre.regions@.subrange(0, self.regions@.len() as int),
                picks.len() == kept@.len(),
                back.len() == pre.regions@.len(),
                forall|j2: int|
                    0 <= j2 < kept@.len()
                        ==> self.regions@.len() <= #[trigger] picks[j2] < pre.regions@.len()
                            && kept@[j2] == pre.regions@[picks[j2]]
                            && !region_inside(pre.regions@[picks[j2]], spn as int, epn as int),
                forall|j1: int, j2: int|
                    0 <= j1 < picks.len() && 0 <= j2 < picks.len() && j1 != j2
                        ==> #[trigger] picks[j1] != #[trigger] picks[j2],
                forall|j: int|
                    self.regions@.len() <= j < pre.regions@.len()
                        && !region_inside(#[trigger] pre.regions@[j], spn as int, epn as int)
                        ==> 0 <= back[j] < kept@.len() && kept@[back[j]] == pre.regions@[j],
            decreases self.regions@.len(),
        {
            let ghost k = self.regions@.len() - 1;
            let rg_opt = self.regions.pop();
            let rg = match rg_opt {
                Some(rg) => rg,
                None => {
                    proof {
                        assert(false);
                    }
                    return -1;
                },
            };
            proof {
                assert(rg == pre.regions@[k]);
                assert(self.regions@ =~= pre.regions@.subrange(0, k));
            }
            let rend = rg.start_vpn + rg.pages;
            if spn <= rg.start_vpn && rend <= epn {
                proof {
                    assert(region_inside(pre.regions@[k], spn as int, epn as int));
                }
            } else {
                proof {
                    assert(!region_inside(pre.regions@[k], spn as int, epn as int));
                }
                kept.push(rg);
                proof {
                    back = back.update(k, kept@.len() - 1);
                    picks = picks.push(k);
                }
            }
        }
        self.regions = kept;
        proof {
            lemma_filter_view(pre, *self, Ghost(picks), Ghost(back), spn as int, epn as int);
        }
        0
    }

    /// Map every page of `[spn, epn)` as its own fresh, zero-filled region
    /// carrying `perm` — the shape the growable heap keeps, so that any
    /// page-aligned part of it can later be released exactly. Fails,
    /// changing nothing, when any requested page is already mapped.
    #[verifier::loop_isolation(false)]
    pub fn map_page_run(&mut self, spn: usize, epn: usize, perm: u8) -> (ok: bool)
        requires
            old(self).wf(),
            spn <= epn,
            epn <= usize::MAX as int / (PAGE_SIZE as int),
        ensures
            final(self).wf(),
            ok == (forall|vpn: int| spn <= vpn < epn ==> !(#[trigger] old(self).is_mapped(vpn))),
            !ok ==> *final(self) == *old(self),
            ok ==> forall|vpn: int|
                spn <= vpn < epn
                    ==> #[trigger] final(self).is_mapped(vpn) && final(self).perm_of(vpn) == perm,
            ok ==> forall|vpn: int|
                !(spn <= vpn < epn)
                    ==> #[trigger] final(self).is_mapped(vpn) == old(self).is_mapped(vpn),
            ok ==> forall|vpn: int|
                !(spn <= vpn < epn) && #[trigger] old(self).is_mapped(vpn)
                    ==> final(self).perm_of(vpn) == old(self).perm_of(vpn),
            ok ==> forall|a: int|
                spn <= page_of(a) < epn ==> #[trigger] final(self).byte_at(a) == 0,
            ok ==> forall|a: int|
                !(spn <= page_of(a) < epn) && #[trigger] old(self).addr_mapped(a)
                    ==> final(self).byte_at(a) == old(self).byte_at(a),
    {
        let mut vpn = spn;
        while vpn < epn
            invariant
                spn <= vpn <= epn,
                *self == *old(self),
                forall|v: int| spn <= v < vpn ==> !(#[trigger] self.is_mapped(v)),
            decreases epn - vpn,
        {
            if self.find_region(vpn).is_some() {
                return false;
            }
            vpn = vpn + 1;
        }
        let ghost pre = *self;
        let mut cur = spn;
        while cur < epn
            invariant
                self.wf(),
                spn <= cur <= epn,
                forall|vpn: int|
                    spn <= vpn < cur
                        ==> #[trigger] self.is_mapped(vpn) && self.perm_of(vpn) == perm,
                forall|vpn: int|
                    !(spn <= vpn < cur) ==> #[trigger] self.is_mapped(vpn) == pre.is_mapped(vpn),
                forall|vpn: int|
                    !(spn <= vpn < cur) && #[trigger] pre.is_mapped(vpn)
                        ==> self.perm_of(vpn) == pre.perm_of(vpn),
                forall|a: int|
                    spn <= page_of(a) < cur ==> #[trigger] self.byte_at(a) == 0,
                forall|a: int|
                    !(spn <= page_of(a) < cur) && #[trigger] pre.addr_mapped(a)
                        ==> self.byte_at(a) == pre.byte_at(a),
            decreases epn - cur,
        {
            let data = zero_vec(PAGE_SIZE);
            let rg = Region { start_vpn: cur, pages: 1, perm, data };
            let ghost mid = *self;
            self.regions.push(rg);
            proof {
                assert(rg.wf());
                assert(!pre.is_mapped(cur as int));
                assert(!mid.is_mapped(cur as int));
                assert forall|vpn: int| cur <= vpn < cur + 1
                    implies !(#[trigger] mid.is_mapped(vpn)) by {}
                lemma_mmap_view(mid, *self, rg, cur as int, cur + 1);
                assert forall|vpn: int| spn <= vpn < cur + 1
                    implies #[trigger] self.is_mapped(vpn) && self.perm_of(vpn) == perm by {
                    if vpn < cur {
                        assert(mid.is_mapped(vpn) && mid.perm_of(vpn) == perm);
                    }
                }
                assert forall|vpn: int| !(spn <= vpn < cur + 1)
                    implies #[trigger] self.is_mapped(vpn) == pre.is_mapped(vpn) by {
                    assert(mid.is_mapped(vpn) == pre.is_mapped(vpn));
                }
                assert forall|vpn: int| !(spn <= vpn < cur + 1) && #[trigger] pre.is_mapped(vpn)
                    implies self.perm_of(vpn) == pre.perm_of(vpn) by {
                    assert(mid.is_mapped(vpn));
                    assert(mid.perm_of(vpn) == pre.perm_of(vpn));
                }
                assert forall|a: int| spn <= page_of(a) < cur + 1
                    implies #[trigger] self.byte_at(a) == 0 by {
                    if page_of(a) < cur {
                        assert(mid.addr_mapped(a));
                        assert(mid.byte_at(a) == 0);
                    }
                }
                assert forall|a: int|
                    !(spn <= page_of(a) < cur + 1) && #[trigger] pre.addr_mapped(a)
                        implies self.byte_at(a) == pre.byte_at(a) by {
                    assert(mid.is_mapped(page_of(a)) == pre.is_mapped(page_of(a)));
                    assert(mid.addr_mapped(a));
                    assert(mid.byte_at(a) == pre.byte_at(a));
                }
            }
            cur = cur + 1;
        }
        true
    }

    /// Report whether every byte of `[addr, addr + len)` translates.
    pub fn range_mapped(&self, addr: usize, len: usize) -> (r: bool)
        requires
            self.wf(),
            addr + len <= usize::MAX,
        ensures
            r == forall|a: int| addr <= a < addr + len ==> (#[trigger] self.addr_mapped(a)),
    {
        let mut i: usize = 0;
        while i < len
            invariant
                self.wf(),
                i <= len,
                addr + len <= usize::MAX,
                forall|a: int| addr <= a < addr + i ==> (#[trigger] self.addr_mapped(a)),
            decreases len - i,
        {
            if self.find_region((addr + i) / PAGE_SIZE).is_none() {
                assert(!self.addr_mapped(addr + i));
                return false;
            }
            assert(self.addr_mapped(addr + i));
            i = i + 1;
        }
        true
    }

    /// Overwrite the already-translated byte range starting at `addr` with
    /// `data`, one translated byte at a time (the range may straddle any
    /// number of separately mapped pages).
    pub fn write_bytes(&mut self, addr: usize, data: &Vec<u8>)
        requires
            old(self).wf(),
            addr + data@.len() <= usize::MAX,
            forall|a: int| addr <= a < addr + data@.len() ==> (#[trigger] old(self).addr_mapped(a)),
        ensures
            final(self).wf(),
            final(self).same_mapping(*old(self)),
            forall|a: int|
                #[trigger] old(self).addr_mapped(a)
                    ==> final(self).byte_at(a) == if addr <= a < addr + data@.len() {
                        data@[a - addr]
                    } else {
                        old(self).byte_at(a)
                    },
    {
        let n = data.len();
        let mut i: usize = 0;
        while i < n
            invariant
                self.wf(),
                i <= n,
                n == data@.len(),
                addr + n <= usize::MAX,
                forall|a: int| addr <= a < addr + n ==> (#[trigger] old(self).addr_mapped(a)),
                self.same_mapping(*old(self)),
                forall|a: int|
                    #[trigger] old(self).addr_mapped(a)
                        ==> self.byte_at(a) == if addr <= a < addr + i {
                            data@[a - addr]
                        } else {
                            old(self).byte_at(a)
                        },
            decreases n - i,
        {
            let ghost mid = *self;
            proof {
                assert(old(self).addr_mapped(addr + i));
                assert(mid.is_mapped(page_of(addr + i)) == old(self).is_mapped(page_of(addr + i)));
            }
            let ok = self.write_byte(addr + i, data[i]);
            proof {
                assert(ok);
                lemma_same_mapping_trans(*self, mid, *old(self));
                assert forall|a: int| #[trigger] old(self).addr_mapped(a)
                    implies self.byte_at(a) == if addr <= a < addr + (i + 1) {
                        data@[a - addr]
                    } else {
                        old(self).byte_at(a)
                    } by {
                    assert(mid.is_mapped(page_of(a)) == old(self).is_mapped(page_of(a)));
                    assert(mid.addr_mapped(a));
                    assert(self.byte_at(a) == if a == addr + i {
                        data@[i as int]
                    } else {
                        mid.byte_at(a)
                    });
                }
            }
            i = i + 1;
        }
    }

    /// Deep copy: fresh frames holding the same pages, permissions and bytes.
    pub fn duplicate(&self) -> (r: AddressSpace)
        requires
            self.wf(),
        ensures
            r.wf(),
            self.models(r),
            r.models(*self),
        decreases self.regions@.len(),
    {
        let mut regions: Vec<Region> = Vec::new();
        let n = self.regions.len();
        let mut i: usize = 0;
        while i < n
            invariant
                self.wf(),
                n == self.regions@.len(),
                regions@.len() == i as int,
                i <= n,
                forall|j: int|
                    0 <= j < i ==> (#[trigger] regions@[j]).models(self.regions@[j]),
            decreases n - i,
        {
            let src = &self.regions[i];
            let data = clone_bytes(&src.data);
            regions.push(Region { start_vpn: src.start_vpn, pages: src.pages, perm: src.perm, data });
            i = i + 1;
        }
        let r = AddressSpace { regions };
        proof {
            assert forall|j: int| 0 <= j < r.regions@.len()
                implies (#[trigger] r.regions@[j]).models(self.regions@[j]) by {}
            r.lemma_models_same_view_help(*self);
        }
        r
    }

    proof fn lemma_models_same_view_help(self, other: AddressSpace)
        requires
            other.wf(),
            self.models(other),
        ensures
            self.wf(),
            self.models(other),
            other.models(self),
    {
        assert forall|i: int| 0 <= i < other.regions@.len()
            implies (#[trigger] other.regions@[i]).models(self.regions@[i]) by {
            assert(self.regions@[i].models(other.regions@[i]));
        }
        other.lemma_models_same_view(self);
    }
}

/// Copy a byte vector into fresh storage.
fn clone_bytes(v: &Vec<u8>) -> (r: Vec<u8>)
    ensures
        r@ == v@,
{
    let n = v.len();
    let mut r: Vec<u8> = Vec::new();
    let mut i: usize = 0;
    while i < n
        invariant
            n == v@.len(),
            i <= n,
            r@ == v@.subrange(0, i as int),
        decreases n - i,
    {
        r.push(v[i]);
        assert(r@ =~= v@.subrange(0, i + 1));
        i = i + 1;
    }
    assert(r@ =~= v@);
    r
}

/// A vector of `n` zero bytes.
pub(crate) fn zero_vec(n: usize) -> (v: Vec<u8>)
    ensures
        v@.len() == n,
        forall|i: int| 0 <= i < n ==> v@[i] == 0,
{
    let mut v: Vec<u8> = Vec::new();
    while v.len() < n
        invariant
            v@.len() <= n,
            forall|i: int| 0 <= i < v@.len() ==> v@[i] == 0,
        decreases n - v@.len(),
    {
        v.push(0);
    }
    v
}

/// Page counts derived from a representable byte range keep the backing
/// allocation within `usize`.
proof fn lemma_page_count_bytes(e2: int, epn: int, pages: int)
    requires
        0 <= e2 <= usize::MAX,
        epn == e2 / (PAGE_SIZE as int),
        0 <= pages <= epn,
    ensures
        pages * PAGE_SIZE <= usize::MAX,
{
    let p = PAGE_SIZE as int;
    lemma_fundamental_div_mod(e2, p);
    assert(0 <= e2 % p < p) by (nonlinear_arith)
        requires p > 0, e2 >= 0;
    assert(pages * p <= epn * p) by (nonlinear_arith)
        requires pages <= epn, p > 0;
    assert(epn * p == p * epn) by (nonlinear_arith);
}

/// Well-formed disjoint regions are distinct values.
proof fn lemma_disjoint_ne(a: Region, b: Region)
    requires
        a.wf(),
        regions_disjoint(a, b),
    ensures
        a != b,
{
    if a == b {
        assert(a.end_vpn() <= a.start_vpn);
    }
}

/// Appending a fresh disjoint zeroed region maps exactly the new pages.
proof fn lemma_mmap_view(pre: AddressSpace, post: AddressSpace, rg: Region, spn: int, epn: int)
    requires
        pre.wf(),
        rg.wf(),
        rg.start_vpn == spn,
        rg.end_vpn() == epn,
        forall|i: int| 0 <= i < rg.data@.len() ==> rg.data@[i] == 0,
        forall|vpn: int| spn <= vpn < epn ==> !(#[trigger] pre.is_mapped(vpn)),
        post.regions@ == pre.regions@.push(rg),
    ensures
        post.wf(),
        forall|vpn: int|
            spn <= vpn < epn
                ==> #[trigger] post.is_mapped(vpn) && post.perm_of(vpn) == rg.perm,
        forall|vpn: int|
            !(spn <= vpn < epn) ==> #[trigger] post.is_mapped(vpn) == pre.is_mapped(vpn),
        forall|vpn: int|
            !(spn <= vpn < epn) && #[trigger] pre.is_mapped(vpn)
                ==> post.perm_of(vpn) == pre.perm_of(vpn),
        forall|a: int| spn <= page_of(a) < epn ==> #[trigger] post.byte_at(a) == 0,
        forall|a: int|
            !(spn <= page_of(a) < epn) && #[trigger] pre.addr_mapped(a)
                ==> post.byte_at(a) == pre.byte_at(a),
{
    let m = pre.regions@.len() as int;
    assert forall|i: int, j: int|
        0 <= i < post.regions@.len() && 0 <= j < post.regions@.len() && i != j
            implies regions_disjoint(post.regions@[i], post.regions@[j]) by {
        if i < m && j < m {
            assert(regions_disjoint(pre.regions@[i], pre.regions@[j]));
        } else if i == m {
            if region_overlaps(pre.regions@[j], spn, epn) {
                let w: int = if spn >= pre.regions@[j].start_vpn {
                    spn
                } else {
                    pre.regions@[j].start_vpn as int
                };
                assert(pre.regions@[j].contains_page(w));
                assert(pre.is_mapped(w));
            }
        } else {
            if region_overlaps(pre.regions@[i], spn, epn) {
                let w: int = if spn >= pre.regions@[i].start_vpn {
                    spn
                } else {
                    pre.regions@[i].start_vpn as int
                };
                assert(pre.regions@[i].contains_page(w));
                assert(pre.is_mapped(w));
            }
        }
    }
    assert forall|i: int| 0 <= i < post.regions@.len()
        implies (#[trigger] post.regions@[i]).wf() by {
        if i < m {
            assert(pre.regions@[i].wf());
        }
    }
    assert(post.wf());
    assert forall|vpn: int| spn <= vpn < epn
        implies #[trigger] post.is_mapped(vpn) && post.perm_of(vpn) == rg.perm by {
        assert(post.regions@[m].contains_page(vpn));
        post.lemma_region_of(vpn, m);
    }
    assert forall|vpn: int| !(spn <= vpn < epn)
        implies #[trigger] post.is_mapped(vpn) == pre.is_mapped(vpn) by {
        if pre.is_mapped(vpn) {
            let j = pre.region_of(vpn);
            assert(post.regions@[j].contains_page(vpn));
        }
        if post.is_mapped(vpn) {
            let j = post.region_of(vpn);
            assert(j != m);
            assert(pre.regions@[j].contains_page(vpn));
        }
    }
    assert forall|vpn: int| !(spn <= vpn < epn) && #[trigger] pre.is_mapped(vpn)
        implies post.perm_of(vpn) == pre.perm_of(vpn) by {
        let j = pre.region_of(vpn);
        assert(pre.regions@[j].contains_page(vpn));
        assert(post.regions@[j].contains_page(vpn));
        post.lemma_region_of(vpn, j);
    }
    assert forall|a: int| spn <= page_of(a) < epn
        implies #[trigger] post.byte_at(a) == 0 by {
        assert(post.regions@[m].contains_page(page_of(a)));
        post.lemma_region_of(page_of(a), m);
        lemma_offset_in_region(rg, a);
    }
    assert forall|a: int| !(spn <= page_of(a) < epn) && #[trigger] pre.addr_mapped(a)
        implies post.byte_at(a) == pre.byte_at(a) by {
        let j = pre.region_of(page_of(a));
        assert(pre.regions@[j].contains_page(page_of(a)));
        assert(post.regions@[j].contains_page(page_of(a)));
        post.lemma_region_of(page_of(a), j);
    }
}

/// Dropping exactly the regions inside `[spn, epn)` unmaps exactly those
/// pages and preserves everything else. `picks` names, for each region kept,
/// the index it had before; `back` names, for each region kept before, where
/// it stands now.
proof fn lemma_filter_view(
    pre: AddressSpace,
    post: AddressSpace,
    picks: Ghost<Seq<int>>,
    back: Ghost<Seq<int>>,
    spn: int,
    epn: int,
)
    requires
        pre.wf(),
        forall|i: int|
            0 <= i < pre.regions@.len()
                && region_overlaps(#[trigger] pre.regions@[i], spn, epn)
                ==> region_inside(pre.regions@[i], spn, epn),
        picks@.len() == post.regions@.len(),
        back@.len() == pre.regions@.len(),
        forall|j2: int|
            0 <= j2 < post.regions@.len()
                ==> 0 <= #[trigger] picks@[j2] < pre.regions@.len()
                    && post.regions@[j2] == pre.regions@[picks@[j2]]
                    && !region_inside(pre.regions@[picks@[j2]], spn, epn),
        forall|j1: int, j2: int|
            0 <= j1 < picks@.len() && 0 <= j2 < picks@.len() && j1 != j2
                ==> #[trigger] picks@[j1] != #[trigger] picks@[j2],
        forall|j: int|
            0 <= j < pre.regions@.len()
                && !region_inside(#[trigger] pre.regions@[j], spn, epn)
                ==> 0 <= back@[j] < post.regions@.len() && post.regions@[back@[j]] == pre.regions@[j],
    ensures
        post.wf(),
        forall|vpn: int|
            #[trigger] post.is_mapped(vpn) == (pre.is_mapped(vpn) && !(spn <= vpn < epn)),
        forall|vpn: int|
            #[trigger] post.is_mapped(vpn) ==> post.perm_of(vpn) == pre.perm_of(vpn),
        forall|a: int|
            #[trigger] post.addr_mapped(a) ==> post.byte_at(a) == pre.byte_at(a),
{
    assert forall|j2: int| 0 <= j2 < post.regions@.len()
        implies (#[trigger] post.regions@[j2]).wf() by {
        assert(pre.regions@[picks@[j2]].wf());
    }
    assert forall|j1: int, j2: int|
        0 <= j1 < post.regions@.len() && 0 <= j2 < post.regions@.len() && j1 != j2
            implies regions_disjoint(post.regions@[j1], post.regions@[j2]) by {
        assert(regions_disjoint(pre.regions@[picks@[j1]], pre.regions@[picks@[j2]]));
    }
    assert(post.wf());
    assert forall|vpn: int|
        #[trigger] post.is_mapped(vpn) == (pre.is_mapped(vpn) && !(spn <= vpn < epn)) by {
        if post.is_mapped(vpn) {
            let j2 = post.region_of(vpn);
            assert(post.regions@[j2].contains_page(vpn));
            let j = picks@[j2];
            assert(pre.regions@[j].contains_page(vpn));
            assert(pre.is_mapped(vpn));
            if spn <= vpn < epn {
                assert(region_overlaps(pre.regions@[j], spn, epn));
                assert(region_inside(pre.regions@[j], spn, epn));
            }
        }
        if pre.is_mapped(vpn) && !(spn <= vpn < epn) {
            let j = pre.region_of(vpn);
            assert(pre.regions@[j].contains_page(vpn));
            if region_inside(pre.regions@[j], spn, epn) {
                assert(spn <= vpn < epn);
            }
            assert(post.regions@[back@[j]].contains_page(vpn));
            assert(post.is_mapped(vpn));
        }
    }
    assert forall|vpn: int| #[trigger] post.is_mapped(vpn)
        implies post.perm_of(vpn) == pre.perm_of(vpn) && (forall|a: int|
            page_of(a) == vpn ==> #[trigger] post.byte_at(a) == pre.byte_at(a)) by {
        let j2 = post.region_of(vpn);
        assert(post.regions@[j2].contains_page(vpn));
        let j = picks@[j2];
        assert(pre.regions@[j].contains_page(vpn));
        pre.lemma_region_of(vpn, j);
        assert(post.perm_of(vpn) == pre.perm_of(vpn));
        assert forall|a: int| page_of(a) == vpn
            implies #[trigger] post.byte_at(a) == pre.byte_at(a) by {
            assert(post.regions@[j2].byte_at(a) == pre.regions@[j].byte_at(a));
        }
    }
    assert forall|a: int| #[trigger] post.addr_mapped(a)
        implies post.byte_at(a) == pre.byte_at(a) by {
        assert(post.is_mapped(page_of(a)));
    }
}

/// A region containing `addr`'s page backs `addr` at an in-bounds offset.
pub proof fn lemma_offset_in_region(r: Region, addr: int)
    requires
        r.wf(),
        0 <= addr,
        r.contains_page(page_of(addr)),
    ensures
        r.start_vpn * PAGE_SIZE <= addr,
        addr - r.start_vpn * PAGE_SIZE < r.data@.len(),
{
    let p = PAGE_SIZE as int;
    lemma_fundamental_div_mod(addr, p);
    assert(addr == p * (addr / p) + addr % p);
    assert(r.start_vpn * p <= (addr / p) * p) by (nonlinear_arith)
        requires r.start_vpn <= addr / p, p > 0;
    assert((addr / p) * p == p * (addr / p)) by (nonlinear_arith);
    assert((addr / p + 1) * p <= r.end_vpn() * p) by (nonlinear_arith)
        requires addr / p + 1 <= r.end_vpn(), p > 0;
    assert((addr / p + 1) * p == p * (addr / p) + p) by (nonlinear_arith);
    assert(r.end_vpn() * p == r.start_vpn * p + r.pages * p) by (nonlinear_arith);
}

/// `same_mapping` is transitive.
pub proof fn lemma_same_mapping_trans(a: AddressSpace, b: AddressSpace, c: AddressSpace)
    requires
        a.same_mapping(b),
        b.same_mapping(c),
    ensures
        a.same_mapping(c),
{
    assert forall|vpn: int| a.is_mapped(vpn) == c.is_mapped(vpn) by {
        assert(a.is_mapped(vpn) == b.is_mapped(vpn));
        assert(b.is_mapped(vpn) == c.is_mapped(vpn));
    }
    assert forall|vpn: int| #[trigger] a.is_mapped(vpn)
        implies a.perm_of(vpn) == c.perm_of(vpn) by {
        assert(b.is_mapped(vpn));
    }
}

pub proof fn lemma_same_mapping_refl(a: AddressSpace)
    ensures
        a.same_mapping(a),
{
}

/// Updating one region's backing byte changes exactly that byte of the view.
proof fn lemma_update_region_view(pre: AddressSpace, post: AddressSpace, i: int, addr: int, val: u8)
    requires
        pre.wf(),
        0 <= i < pre.regions@.len(),
        0 <= addr,
        pre.regions@[i].contains_page(page_of(addr)),
        pre.regions@[i].wf(),
        post.regions@ == pre.regions@.update(
            i,
            (Region {
                data: post.regions@[i].data,
                ..pre.regions@[i]
            }),
        ),
        post.regions@[i].data@ == pre.regions@[i].data@.update(
            addr - pre.regions@[i].start_vpn * PAGE_SIZE,
            val,
        ),
    ensures
        post.wf(),
        post.same_mapping(pre),
        forall|a: int|
            #[trigger] pre.addr_mapped(a)
                ==> post.byte_at(a) == if a == addr { val } else { pre.byte_at(a) },
{
    assert forall|j: int| 0 <= j < post.regions@.len() implies (#[trigger] post.regions@[j]).wf() by {
        assert(pre.regions@[j].wf());
    }
    assert forall|j: int, k: int|
        0 <= j < post.regions@.len() && 0 <= k < post.regions@.len() && j != k
            implies regions_disjoint(post.regions@[j], post.regions@[k]) by {
        assert(regions_disjoint(pre.regions@[j], pre.regions@[k]));
    }
    assert forall|vpn: int| post.is_mapped(vpn) == pre.is_mapped(vpn) by {
        if pre.is_mapped(vpn) {
            let j = pre.region_of(vpn);
            assert(post.regions@[j].contains_page(vpn));
        }
        if post.is_mapped(vpn) {
            let j = post.region_of(vpn);
            assert(pre.regions@[j].contains_page(vpn));
        }
    }
    assert forall|vpn: int| #[trigger] post.is_mapped(vpn)
        implies post.perm_of(vpn) == pre.perm_of(vpn) by {
        let j = post.region_of(vpn);
        assert(post.regions@[j].contains_page(vpn));
        assert(pre.regions@[j].contains_page(vpn));
        pre.lemma_region_of(vpn, j);
    }
    assert forall|a: int| #[trigger] pre.addr_mapped(a)
        implies post.byte_at(a) == if a == addr { val } else { pre.byte_at(a) } by {
        let j = pre.region_of(page_of(a));
        assert(pre.regions@[j].contains_page(page_of(a)));
        assert(post.regions@[j].contains_page(page_of(a)));
        post.lemma_region_of(page_of(a), j);
        lemma_offset_in_region(pre.regions@[j], a);
        if j == i {
            if a != addr {
                lemma_offset_distinct(pre.regions@[i], a, addr);
            }
        } else {
            assert(regions_disjoint(pre.regions@[i], pre.regions@[j]));
            lemma_offset_in_region(pre.regions@[i], addr);
        }
    }
}

/// Distinct addresses in one region have distinct backing offsets.
proof fn lemma_offset_distinct(r: Region, a: int, b: int)
    requires
        a != b,
    ensures
        a - r.start_vpn * PAGE_SIZE != b - r.start_vpn * PAGE_SIZE,
{
}

} // verus!
