//! A doubly linked list whose nodes live in a contiguous, reusable slot arena.
//!
//! Elements are addressed through generational handles ([`DlIndex`]): a pair of
//! slot position and the generation stamped on the slot when it was last
//! (re)populated. A handle resolves only while its slot is occupied and the
//! generations agree, so a handle issued before a slot was freed and reused can
//! never silently resolve to the slot's new contents.
//!
//! Freed slots are threaded into a singly linked free chain and recycled in
//! O(1); insertion at either end, removal through a handle, and one step of
//! traversal in either direction are all O(1).
use vstd::prelude::*;

verus! {

/// An occupied slot: the stored item, the forward and backward links of the
/// doubly linked chain (slot positions, `None` at the boundary), and the
/// generation assigned when this slot was last populated.
#[derive(Copy, Clone, Debug, PartialEq, Eq)]
pub struct OcEntry {
    pub item: u64,
    pub next: Option<usize>,
    pub prev: Option<usize>,
    pub rm_cnt: usize,
}

/// One cell of the backing storage: either on the free chain or occupied.
#[derive(Copy, Clone, Debug, PartialEq, Eq)]
pub enum DlEntry {
    Free { next_free: Option<usize> },
    Occupied(OcEntry),
}

impl DlEntry {
    /// The occupied payload of this entry.
    pub open spec fn oc(self) -> OcEntry
        recommends
            self is Occupied,
    {
        self->Occupied_0
    }

    /// The free-chain link of this entry.
    pub open spec fn free_next(self) -> Option<usize>
        recommends
            self is Free,
    {
        self->Free_next_free
    }
}

/// A generational handle to one list element: the slot position and the
/// generation the slot carried when the handle was issued.
#[derive(Copy, Clone, Debug, PartialEq, Eq, Structural)]
pub struct DlIndex {
    pub index: usize,
    pub rm_cnt: usize,
}

impl DlIndex {
    pub fn new(index: usize, rm_cnt: usize) -> (h: DlIndex)
        ensures
            h.index == index,
            h.rm_cnt == rm_cnt,
    {
        DlIndex { index, rm_cnt }
    }
}

/// The list: the slot arena, the free-chain cursor, the boundary positions of
/// the occupied chain, and the global removal counter used to stamp
/// generations.
///
/// The ghost fields record the occupied chain and the free chain as sequences
/// of slot positions; [`DlList::wf`] ties them to the concrete links.
pub struct DlList {
    pub data: Vec<DlEntry>,
    pub next_free: Option<usize>,
    pub head: Option<usize>,
    pub tail: Option<usize>,
    pub rm_cnt: usize,
    pub chain: Ghost<Seq<usize>>,
    pub free: Ghost<Seq<usize>>,
}

impl View for DlList {
    type V = Seq<u64>;

    /// The abstract value of the list: its items in chain order.
    open spec fn view(&self) -> Seq<u64> {
        Seq::new(self.chain@.len(), |i: int| self.data@[self.chain@[i] as int].oc().item)
    }
}

impl DlList {
    /// Slot `chain[i]` is occupied and its links and generation agree with the
    /// chain: `prev` points at `chain[i-1]` (or nowhere at the head), `next`
    /// at `chain[i+1]` (or nowhere at the tail), and its generation never
    /// exceeds the removal counter.
    pub open spec fn chain_links_ok(self, i: int) -> bool
        recommends
            0 <= i < self.chain@.len(),
    {
        let c = self.chain@;
        let e = self.data@[c[i] as int];
        &&& e is Occupied
        &&& e.oc().prev == (if i == 0 { None::<usize> } else { Some(c[i - 1]) })
        &&& e.oc().next == (if i == c.len() - 1 { None::<usize> } else { Some(c[i + 1]) })
        &&& e.oc().rm_cnt <= self.rm_cnt
    }

    /// Slot `free[i]` is free and its link continues the free chain.
    pub open spec fn free_links_ok(self, i: int) -> bool
        recommends
            0 <= i < self.free@.len(),
    {
        let f = self.free@;
        let e = self.data@[f[i] as int];
        &&& e is Free
        &&& e.free_next() == (if i == f.len() - 1 { None::<usize> } else { Some(f[i + 1]) })
    }

    /// Well-formedness: the occupied slots form exactly the doubly linked
    /// chain recorded in `chain`, the free slots exactly the singly linked
    /// chain recorded in `free`, neither chain repeats a position, every slot
    /// is on exactly one of the two, and `head`, `tail` and `next_free` point
    /// at the chains' ends.
    pub open spec fn wf(self) -> bool {
        let c = self.chain@;
        let f = self.free@;
        let n = self.data@.len() as int;
        &&& c.no_duplicates()
        &&& f.no_duplicates()
        &&& forall|i: int| 0 <= i < c.len() ==> (#[trigger] c[i]) < n
        &&& forall|i: int| 0 <= i < f.len() ==> (#[trigger] f[i]) < n
        &&& forall|i: int| 0 <= i < c.len() ==> self.chain_links_ok(i)
        &&& forall|i: int| 0 <= i < f.len() ==> self.free_links_ok(i)
        &&& forall|j: int|
            0 <= j < n ==> ((#[trigger] self.data@[j]) is Occupied <==> c.contains(j as usize))
        &&& forall|j: int|
            0 <= j < n ==> ((#[trigger] self.data@[j]) is Free <==> f.contains(j as usize))
        &&& self.head == (if c.len() == 0 { None::<usize> } else { Some(c[0]) })
        &&& self.tail == (if c.len() == 0 { None::<usize> } else { Some(c[c.len() - 1]) })
        &&& self.next_free == (if f.len() == 0 { None::<usize> } else { Some(f[0]) })
    }

    /// A handle resolves exactly when its slot is occupied and carries the
    /// handle's generation.
    pub open spec fn valid_handle(self, h: DlIndex) -> bool {
        &&& (h.index as int) < self.data@.len()
        &&& self.data@[h.index as int] is Occupied
        &&& self.data@[h.index as int].oc().rm_cnt == h.rm_cnt
    }

    /// The handle that currently addresses the element at chain position `i`.
    pub open spec fn handle_at(self, i: int) -> DlIndex
        recommends
            0 <= i < self.chain@.len(),
    {
        DlIndex {
            index: self.chain@[i],
            rm_cnt: self.data@[self.chain@[i] as int].oc().rm_cnt,
        }
    }

    /// The chain position of the element a valid handle addresses.
    pub open spec fn pos_of(self, h: DlIndex) -> int {
        self.chain@.index_of(h.index)
    }

    /// A valid handle addresses exactly one chain position, and `handle_at`
    /// returns the handle back at that position.
    pub proof fn lemma_pos_of(self, h: DlIndex)
        requires
            self.wf(),
            self.valid_handle(h),
        ensures
            0 <= self.pos_of(h) < self.chain@.len(),
            self.chain@[self.pos_of(h)] == h.index,
            self.handle_at(self.pos_of(h)) == h,
            forall|k: int|
                0 <= k < self.chain@.len() && self.chain@[k] == h.index ==> k == self.pos_of(h),
    {
        assert(self.chain@.contains(h.index));
        let p = self.pos_of(h);
        assert(0 <= p < self.chain@.len() && self.chain@[p] == h.index);
    }

    pub fn new() -> (l: DlList)
        ensures
            l.wf(),
            l@ == Seq::<u64>::empty(),
            l.rm_cnt == 0,
            l.data@.len() == 0,
            l.chain@.len() == 0,
            l.free@.len() == 0,
    {
        let l = DlList {
            data: Vec::new(),
            next_free: None,
            head: None,
            tail: None,
            rm_cnt: 0,
            chain: Ghost(Seq::empty()),
            free: Ghost(Seq::empty()),
        };
        proof {
            assert(l@ =~= Seq::<u64>::empty());
        }
        l
    }

    /// The item at the head of the list, if any.
    pub fn head(&self) -> (r: Option<u64>)
        requires
            self.wf(),
        ensures
            r == (if self@.len() == 0 { None::<u64> } else { Some(self@[0]) }),
    {
        match self.head {
            None => None,
            Some(index) => {
                proof {
                    assert(self.chain_links_ok(0));
                }
                let e: DlEntry = self.data[index];
                match e {
                    DlEntry::Free { .. } => None,
                    DlEntry::Occupied(e) => Some(e.item),
                }
            },
        }
    }

    /// A handle to the head element, if any.
    pub fn head_index(&self) -> (r: Option<DlIndex>)
        requires
            self.wf(),
        ensures
            r == (if self@.len() == 0 { None::<DlIndex> } else { Some(self.handle_at(0)) }),
            self@.len() > 0 ==> self.valid_handle(r.unwrap()) && self.pos_of(r.unwrap()) == 0,
    {
        match self.head {
            None => None,
            Some(index) => {
                proof {
                    assert(self.chain_links_ok(0));
                }
                let e: DlEntry = self.data[index];
                match e {
                    DlEntry::Free { .. } => None,
                    DlEntry::Occupied(e) => {
                        proof {
                            self.lemma_pos_of(self.handle_at(0));
                        }
                        Some(DlIndex::new(index, e.rm_cnt))
                    },
                }
            },
        }
    }

    /// A handle to the tail element, if any.
    pub fn tail_index(&self) -> (r: Option<DlIndex>)
        requires
            self.wf(),
        ensures
            r == (if self@.len() == 0 {
                None::<DlIndex>
            } else {
                Some(self.handle_at(self@.len() - 1))
            }),
            self@.len() > 0 ==> self.valid_handle(r.unwrap()) && self.pos_of(r.unwrap())
                == self@.len() - 1,
    {
        match self.tail {
            None => None,
            Some(index) => {
                proof {
                    assert(self.chain_links_ok(self.chain@.len() - 1));
                }
                let e: DlEntry = self.data[index];
                match e {
                    DlEntry::Free { .. } => None,
                    DlEntry::Occupied(e) => {
                        proof {
                            self.lemma_pos_of(self.handle_at(self@.len() - 1));
                        }
                        Some(DlIndex::new(index, e.rm_cnt))
                    },
                }
            },
        }
    }

    /// Takes a slot for a new element: pops the front of the free chain when
    /// one is there, else appends a fresh slot. The chain bookkeeping is the
    /// caller's: the new slot is occupied but not yet linked in.
    fn alloc_slot(&mut self, e: OcEntry) -> (pos: usize)
        requires
            old(self).wf(),
        ensures
            pos < final(self).data@.len(),
            final(self).data@ == (if old(self).free@.len() > 0 {
                old(self).data@.update(pos as int, DlEntry::Occupied(e))
            } else {
                old(self).data@.push(DlEntry::Occupied(e))
            }),
            old(self).free@.len() > 0 ==> pos == old(self).free@[0],
            old(self).free@.len() == 0 ==> pos as int == old(self).data@.len(),
            final(self).free@ == (if old(self).free@.len() > 0 {
                old(self).free@.drop_first()
            } else {
                old(self).free@
            }),
            final(self).next_free == (if final(self).free@.len() == 0 {
                None::<usize>
            } else {
                Some(final(self).free@[0])
            }),
            !old(self).chain@.contains(pos),
            final(self).chain@ == old(self).chain@,
            final(self).head == old(self).head,
            final(self).tail == old(self).tail,
            final(self).rm_cnt == old(self).rm_cnt,
    {
        match self.next_free {
            Some(pos) => {
                proof {
                    assert(self.free_links_ok(0));
                }
                let cur: DlEntry = self.data[pos];
                let nf: Option<usize> = match cur {
                    DlEntry::Free { next_free } => next_free,
                    DlEntry::Occupied(_) => unreached(),
                };
                self.next_free = nf;
                self.data[pos] = DlEntry::Occupied(e);
                proof {
                    self.free@ = self.free@.drop_first();
                }
                pos
            },
            None => {
                let pos = self.data.len();
                self.data.push(DlEntry::Occupied(e));
                pos
            },
        }
    }

    /// Appends an item at the tail and returns its handle. The new element
    /// reuses the first free slot when one is there, else a fresh slot is
    /// appended to storage.
    pub fn push_back(&mut self, item: u64) -> (h: DlIndex)
        requires
            old(self).wf(),
        ensures
            final(self).wf(),
            final(self)@ == old(self)@.push(item),
            final(self).chain@ == old(self).chain@.push(h.index),
            h.index as int == (if old(self).free@.len() > 0 {
                old(self).free@[0] as int
            } else {
                old(self).data@.len() as int
            }),
            final(self).free@ == (if old(self).free@.len() > 0 {
                old(self).free@.drop_first()
            } else {
                old(self).free@
            }),
            final(self).data@.len() == (if old(self).free@.len() > 0 {
                old(self).data@.len()
            } else {
                old(self).data@.len() + 1
            }),
            h.rm_cnt == old(self).rm_cnt,
            final(self).rm_cnt == old(self).rm_cnt,
            final(self).valid_handle(h),
            final(self).pos_of(h) == old(self)@.len(),
            forall|h2: DlIndex| #[trigger]
                final(self).valid_handle(h2) <==> (old(self).valid_handle(h2) || h2 == h),
            forall|h2: DlIndex|
                old(self).valid_handle(h2) ==> final(self).pos_of(h2) == old(self).pos_of(h2),
    {
        let ghost pre = *self;
        let rm_cnt = self.rm_cnt;
        let prev = self.tail;
        proof {
            if pre.chain@.len() > 0 {
                assert(pre.chain_links_ok(pre.chain@.len() - 1));
            }
        }
        let pos = self.alloc_slot(OcEntry { item, next: None, prev, rm_cnt });
        let ghost mid = *self;
        match prev {
            Some(t) => {
                proof {
                    let lc = pre.chain@.len() - 1;
                    assert(pre.chain@[lc] == t);
                    assert(pre.chain@.contains(t));
                    assert(t != pos);
                    assert(mid.data@[t as int] == pre.data@[t as int]);
                }
                let cur: DlEntry = self.data[t];
                match cur {
                    DlEntry::Occupied(mut oe) => {
                        oe.next = Some(pos);
                        self.data[t] = DlEntry::Occupied(oe);
                    },
                    DlEntry::Free { .. } => unreached(),
                }
            },
            None => {
                self.head = Some(pos);
            },
        }
        self.tail = Some(pos);
        self.chain = Ghost(pre.chain@.push(pos));
        proof {
            self.lemma_push_back_wf(pre, mid, pos, item);
        }
        DlIndex::new(pos, rm_cnt)
    }

    /// Everything `push_back` owes its callers, proved from the state shapes
    /// its body leaves behind.
    proof fn lemma_push_back_wf(self, pre: DlList, mid: DlList, pos: usize, item: u64)
        requires
            pre.wf(),
            !pre.chain@.contains(pos),
            pos < mid.data@.len(),
            mid.data@ == (if pre.free@.len() > 0 {
                pre.data@.update(
                    pos as int,
                    DlEntry::Occupied(
                        OcEntry { item, next: None, prev: pre.tail, rm_cnt: pre.rm_cnt },
                    ),
                )
            } else {
                pre.data@.push(
                    DlEntry::Occupied(
                        OcEntry { item, next: None, prev: pre.tail, rm_cnt: pre.rm_cnt },
                    ),
                )
            }),
            pre.free@.len() > 0 ==> pos == pre.free@[0],
            pre.free@.len() == 0 ==> pos as int == pre.data@.len(),
            mid.free@ == (if pre.free@.len() > 0 {
                pre.free@.drop_first()
            } else {
                pre.free@
            }),
            mid.next_free == (if mid.free@.len() == 0 {
                None::<usize>
            } else {
                Some(mid.free@[0])
            }),
            self.rm_cnt == pre.rm_cnt,
            self.next_free == mid.next_free,
            self.free@ == mid.free@,
            self.chain@ == pre.chain@.push(pos),
            self.tail == Some(pos),
            pre.chain@.len() == 0 ==> self.head == Some(pos) && self.data@ == mid.data@,
            pre.chain@.len() > 0 ==> {
                let t = pre.chain@[pre.chain@.len() - 1];
                &&& self.head == pre.head
                &&& self.data@ == mid.data@.update(
                    t as int,
                    DlEntry::Occupied(
                        OcEntry {
                            item: pre.data@[t as int].oc().item,
                            next: Some(pos),
                            prev: pre.data@[t as int].oc().prev,
                            rm_cnt: pre.data@[t as int].oc().rm_cnt,
                        },
                    ),
                )
            },
        ensures
            self.wf(),
            self@ == pre@.push(item),
            self.valid_handle(DlIndex { index: pos, rm_cnt: pre.rm_cnt }),
            self.pos_of(DlIndex { index: pos, rm_cnt: pre.rm_cnt }) == pre@.len(),
            forall|h2: DlIndex| #[trigger]
                self.valid_handle(h2) <==> (pre.valid_handle(h2) || h2 == DlIndex {
                    index: pos,
                    rm_cnt: pre.rm_cnt,
                }),
            forall|h2: DlIndex| pre.valid_handle(h2) ==> self.pos_of(h2) == pre.pos_of(h2),
    {
        let c = pre.chain@;
        let cl = c.len() as int;
        let n = self.data@.len() as int;
        assert(n <= usize::MAX) by {
            vstd::std_specs::vec::axiom_spec_len(&self.data);
        }
        assert(self.chain@.len() == cl + 1);
        if cl > 0 {
            assert(pre.chain_links_ok(cl - 1));
            assert(c.contains(c[cl - 1]));
        }
        // the old slots other than the old tail are untouched
        assert forall|j: int|
            0 <= j < pre.data@.len() && (cl == 0 || j != c[cl - 1] as int) implies self.data@[j]
            == pre.data@[j] || j == pos as int by {}
        // chain has no duplicates and stays in bounds
        assert(self.chain@.no_duplicates()) by {
            assert forall|i: int, k: int|
                0 <= i < k < self.chain@.len() implies self.chain@[i] != self.chain@[k] by {
                if k < cl {
                } else {
                    assert(self.chain@[i] == c[i]);
                    assert(c.contains(c[i]));
                }
            }
        }
        assert forall|i: int| 0 <= i < self.chain@.len() implies (#[trigger] self.chain@[i])
            < n by {
            if i < cl {
                assert(c[i] < pre.data@.len());
            }
        }
        // every chain position carries the right links
        assert forall|i: int| 0 <= i < self.chain@.len() implies self.chain_links_ok(i) by {
            if i < cl - 1 {
                assert(pre.chain_links_ok(i));
                assert(c.contains(c[i]));
                assert(self.data@[c[i] as int] == pre.data@[c[i] as int]);
            } else if i == cl - 1 {
                assert(pre.chain_links_ok(i));
            } else {
                assert(self.data@[pos as int] is Occupied);
            }
        }
        // the free chain is untouched slots only
        assert forall|i: int| 0 <= i < self.free@.len() implies self.free_links_ok(i) by {
            let fpre = pre.free@;
            if pre.free@.len() > 0 {
                assert(fpre.no_duplicates());
                assert(pre.free_links_ok(i + 1));
                assert(fpre[i + 1] != pos);
                if cl > 0 {
                    assert(pre.data@[fpre[i + 1] as int] is Free);
                    assert(pre.data@[c[cl - 1] as int] is Occupied);
                    assert(fpre[i + 1] != c[cl - 1]);
                }
                assert(self.data@[self.free@[i] as int] == pre.data@[fpre[i + 1] as int]);
            } else {
                assert(pre.free_links_ok(i));
            }
        }
        assert forall|i: int| 0 <= i < self.free@.len() implies (#[trigger] self.free@[i])
            < n by {
            if pre.free@.len() > 0 {
                assert(pre.free@[i + 1] < pre.data@.len());
            } else {
                assert(pre.free@[i] < pre.data@.len());
            }
        }
        assert(self.free@.no_duplicates()) by {
            if pre.free@.len() > 0 {
                assert forall|i: int, k: int|
                    0 <= i < k < self.free@.len() implies self.free@[i] != self.free@[k] by {
                    assert(self.free@[i] == pre.free@[i + 1]);
                    assert(self.free@[k] == pre.free@[k + 1]);
                }
            }
        }
        // occupancy bookkeeping: every slot sits on exactly one chain
        assert forall|j: int|
            0 <= j < n implies ((#[trigger] self.data@[j]) is Occupied <==> self.chain@.contains(
            j as usize,
        )) by {
            if j == pos as int {
                assert(self.chain@[cl] == pos);
            } else if j < pre.data@.len() {
                if cl > 0 && j == c[cl - 1] as int {
                    assert(self.chain@[cl - 1] == c[cl - 1]);
                } else {
                    assert(self.data@[j] == pre.data@[j]);
                    if pre.data@[j] is Occupied {
                        let k = choose|k: int| 0 <= k < cl && c[k] == j as usize;
                        assert(self.chain@[k] == c[k]);
                    } else {
                        if self.chain@.contains(j as usize) {
                            let k = choose|k: int|
                                0 <= k < self.chain@.len() && self.chain@[k] == j as usize;
                            assert(j as usize != pos);
                            assert(self.chain@[cl] == pos);
                            assert(k < cl);
                            assert(c[k] == j as usize);
                            assert(c.contains(j as usize));
                        }
                    }
                }
            }
        }
        assert forall|j: int|
            0 <= j < n implies ((#[trigger] self.data@[j]) is Free <==> self.free@.contains(
            j as usize,
        )) by {
            if pre.free@.len() > 0 {
                if j == pos as int {
                    if self.free@.contains(j as usize) {
                        let k = choose|k: int|
                            0 <= k < self.free@.len() && self.free@[k] == j as usize;
                        assert(pre.free@[k + 1] == pos);
                        assert(pre.free@.no_duplicates());
                    }
                } else {
                    if cl > 0 && j == c[cl - 1] as int {
                        assert(self.data@[j] is Occupied);
                        if self.free@.contains(j as usize) {
                            let k = choose|k: int|
                                0 <= k < self.free@.len() && self.free@[k] == j as usize;
                            assert(pre.free_links_ok(k + 1));
                            assert(pre.data@[j] is Free);
                            assert(pre.chain_links_ok(cl - 1));
                        }
                    } else {
                        assert(self.data@[j] == pre.data@[j]);
                        if pre.data@[j] is Free {
                            let k = choose|k: int|
                                0 <= k < pre.free@.len() && pre.free@[k] == j as usize;
                            assert(k != 0);
                            assert(self.free@[k - 1] == pre.free@[k]);
                        } else {
                            if self.free@.contains(j as usize) {
                                let k = choose|k: int|
                                    0 <= k < self.free@.len() && self.free@[k] == j as usize;
                                assert(pre.free@[k + 1] == j as usize);
                                assert(pre.free@.contains(j as usize));
                            }
                        }
                    }
                }
            } else {
                assert(self.free@ == pre.free@);
                if j < pre.data@.len() {
                    if cl > 0 && j == c[cl - 1] as int {
                        assert(self.data@[j] is Occupied);
                        assert(pre.data@[j] is Occupied);
                    } else {
                        assert(self.data@[j] == pre.data@[j]);
                    }
                } else {
                    assert(j == pos as int);
                    assert(self.data@[j] is Occupied);
                    if self.free@.contains(j as usize) {
                        let k = choose|k: int|
                            0 <= k < pre.free@.len() && pre.free@[k] == j as usize;
                        assert(pre.free@[k] < pre.data@.len());
                    }
                }
            }
        }
        // the view grows by exactly the new item
        assert(self@ =~= pre@.push(item)) by {
            assert forall|i: int| 0 <= i < cl implies self@[i] == pre@[i] by {
                assert(pre.chain_links_ok(i));
                if cl > 0 && c[i] == c[cl - 1] {
                    assert(c.contains(c[i]));
                } else {
                    assert(self.data@[c[i] as int] == pre.data@[c[i] as int]);
                }
            }
        }
        // handle bookkeeping
        let h = DlIndex { index: pos, rm_cnt: pre.rm_cnt };
        assert(self.valid_handle(h));
        self.lemma_pos_of(h);
        assert(self.chain@[cl] == pos);
        assert forall|h2: DlIndex| #[trigger]
            self.valid_handle(h2) <==> (pre.valid_handle(h2) || h2 == h) by {
            if h2.index == pos {
                if pre.valid_handle(h2) {
                    assert(pre.data@[pos as int] is Occupied);
                    assert(pre.chain@.contains(pos));
                }
                if self.valid_handle(h2) {
                    assert(h2 == h);
                }
            } else {
                if cl > 0 && h2.index == c[cl - 1] {
                    assert(pre.chain_links_ok(cl - 1));
                    assert(self.data@[h2.index as int].oc().rm_cnt == pre.data@[h2.index
                        as int].oc().rm_cnt);
                } else {
                    if (h2.index as int) < pre.data@.len() {
                        assert(self.data@[h2.index as int] == pre.data@[h2.index as int]);
                    }
                }
            }
        }
        assert forall|h2: DlIndex| pre.valid_handle(h2) implies self.pos_of(h2)
            == pre.pos_of(h2) by {
            pre.lemma_pos_of(h2);
            assert(self.valid_handle(h2));
            self.lemma_pos_of(h2);
            let p = pre.pos_of(h2);
            assert(self.chain@[p] == c[p]);
        }
    }

    /// Inserts an item at the head and returns its handle. The new element
    /// reuses the first free slot when one is there, else a fresh slot is
    /// appended to storage.
    pub fn push_front(&mut self, item: u64) -> (h: DlIndex)
        requires
            old(self).wf(),
        ensures
            final(self).wf(),
            final(self)@ == seq![item] + old(self)@,
            final(self).chain@ == seq![h.index] + old(self).chain@,
            h.index as int == (if old(self).free@.len() > 0 {
                old(self).free@[0] as int
            } else {
                old(self).data@.len() as int
            }),
            final(self).free@ == (if old(self).free@.len() > 0 {
                old(self).free@.drop_first()
            } else {
                old(self).free@
            }),
            final(self).data@.len() == (if old(self).free@.len() > 0 {
                old(self).data@.len()
            } else {
                old(self).data@.len() + 1
            }),
            h.rm_cnt == old(self).rm_cnt,
            final(self).rm_cnt == old(self).rm_cnt,
            final(self).valid_handle(h),
            final(self).pos_of(h) == 0,
            forall|h2: DlIndex| #[trigger]
                final(self).valid_handle(h2) <==> (old(self).valid_handle(h2) || h2 == h),
            forall|h2: DlIndex|
                old(self).valid_handle(h2) ==> final(self).pos_of(h2) == old(self).pos_of(h2) + 1,
    {
        let ghost pre = *self;
        if self.head.is_none() {
            let h = self.push_back(item);
            proof {
                assert(pre@.len() == 0);
                assert(self@ =~= seq![item] + pre@);
                assert(self.chain@ =~= seq![h.index] + pre.chain@);
                assert forall|h2: DlIndex| pre.valid_handle(h2) implies self.pos_of(h2)
                    == pre.pos_of(h2) + 1 by {
                    assert(pre.chain@.contains(h2.index));
                }
            }
            return h;
        }
        let rm_cnt = self.rm_cnt;
        let hd = match self.head {
            Some(hd) => hd,
            None => unreached(),
        };
        proof {
            assert(pre.chain_links_ok(0));
        }
        let pos = self.alloc_slot(OcEntry { item, next: Some(hd), prev: None, rm_cnt });
        let ghost mid = *self;
        proof {
            assert(pre.chain@[0] == hd);
            assert(pre.chain@.contains(hd));
            assert(hd != pos);
            assert(mid.data@[hd as int] == pre.data@[hd as int]);
        }
        let cur: DlEntry = self.data[hd];
        match cur {
            DlEntry::Occupied(mut oe) => {
                oe.prev = Some(pos);
                self.data[hd] = DlEntry::Occupied(oe);
            },
            DlEntry::Free { .. } => unreached(),
        }
        self.head = Some(pos);
        self.chain = Ghost(seq![pos] + pre.chain@);
        proof {
            self.lemma_push_front_wf(pre, mid, pos, item);
        }
        DlIndex::new(pos, rm_cnt)
    }

    /// Everything the non-empty case of `push_front` owes its callers, proved
    /// from the state shapes its body leaves behind.
    proof fn lemma_push_front_wf(self, pre: DlList, mid: DlList, pos: usize, item: u64)
        requires
            pre.wf(),
            pre.chain@.len() > 0,
            !pre.chain@.contains(pos),
            pos < mid.data@.len(),
            mid.data@ == (if pre.free@.len() > 0 {
                pre.data@.update(
                    pos as int,
                    DlEntry::Occupied(
                        OcEntry { item, next: pre.head, prev: None, rm_cnt: pre.rm_cnt },
                    ),
                )
            } else {
                pre.data@.push(
                    DlEntry::Occupied(
                        OcEntry { item, next: pre.head, prev: None, rm_cnt: pre.rm_cnt },
                    ),
                )
            }),
            pre.free@.len() > 0 ==> pos == pre.free@[0],
            pre.free@.len() == 0 ==> pos as int == pre.data@.len(),
            mid.free@ == (if pre.free@.len() > 0 {
                pre.free@.drop_first()
            } else {
                pre.free@
            }),
            mid.next_free == (if mid.free@.len() == 0 {
                None::<usize>
            } else {
                Some(mid.free@[0])
            }),
            self.rm_cnt == pre.rm_cnt,
            self.next_free == mid.next_free,
            self.free@ == mid.free@,
            self.chain@ == seq![pos] + pre.chain@,
            self.head == Some(pos),
            self.tail == pre.tail,
            self.data@ == mid.data@.update(
                pre.chain@[0] as int,
                DlEntry::Occupied(
                    OcEntry {
                        item: pre.data@[pre.chain@[0] as int].oc().item,
                        next: pre.data@[pre.chain@[0] as int].oc().next,
                        prev: Some(pos),
                        rm_cnt: pre.data@[pre.chain@[0] as int].oc().rm_cnt,
                    },
                ),
            ),
        ensures
            self.wf(),
            self@ == seq![item] + pre@,
            self.valid_handle(DlIndex { index: pos, rm_cnt: pre.rm_cnt }),
            self.pos_of(DlIndex { index: pos, rm_cnt: pre.rm_cnt }) == 0,
            forall|h2: DlIndex| #[trigger]
                self.valid_handle(h2) <==> (pre.valid_handle(h2) || h2 == DlIndex {
                    index: pos,
                    rm_cnt: pre.rm_cnt,
                }),
            forall|h2: DlIndex| pre.valid_handle(h2) ==> self.pos_of(h2) == pre.pos_of(h2) + 1,
    {
        let c = pre.chain@;
        let cl = c.len() as int;
        let hd = c[0];
        let n = self.data@.len() as int;
        assert(n <= usize::MAX) by {
            vstd::std_specs::vec::axiom_spec_len(&self.data);
        }
        assert(self.chain@.len() == cl + 1);
        assert(pre.chain_links_ok(0));
        assert(c.contains(hd));
        assert(self.chain@[0] == pos);
        assert forall|i: int| 1 <= i < cl + 1 implies self.chain@[i] == c[i - 1] by {}
        assert(self.chain@.no_duplicates()) by {
            assert forall|i: int, k: int|
                0 <= i < k < self.chain@.len() implies self.chain@[i] != self.chain@[k] by {
                if i > 0 {
                } else {
                    assert(self.chain@[k] == c[k - 1]);
                    assert(c.contains(c[k - 1]));
                }
            }
        }
        assert forall|i: int| 0 <= i < self.chain@.len() implies (#[trigger] self.chain@[i])
            < n by {
            if i > 0 {
                assert(c[i - 1] < pre.data@.len());
            }
        }
        assert forall|i: int| 0 <= i < self.chain@.len() implies self.chain_links_ok(i) by {
            if i == 0 {
                assert(self.data@[pos as int] is Occupied);
                assert(self.data@[pos as int].oc().next == Some(hd));
                assert(self.chain@[1] == c[0]);
            } else if i == 1 {
                assert(pre.chain_links_ok(0));
                if cl > 1 {
                    assert(self.chain@[2] == c[1]);
                }
            } else {
                assert(pre.chain_links_ok(i - 1));
                assert(c.contains(c[i - 1]));
                assert(c[i - 1] != hd);
                assert(self.data@[c[i - 1] as int] == pre.data@[c[i - 1] as int]);
            }
        }
        assert forall|i: int| 0 <= i < self.free@.len() implies self.free_links_ok(i) by {
            let fpre = pre.free@;
            if fpre.len() > 0 {
                assert(fpre.no_duplicates());
                assert(pre.free_links_ok(i + 1));
                assert(fpre[i + 1] != pos);
                assert(pre.data@[fpre[i + 1] as int] is Free);
                assert(pre.data@[hd as int] is Occupied);
                assert(fpre[i + 1] != hd);
                assert(self.data@[self.free@[i] as int] == pre.data@[fpre[i + 1] as int]);
            } else {
                assert(pre.free_links_ok(i));
            }
        }
        assert forall|i: int| 0 <= i < self.free@.len() implies (#[trigger] self.free@[i])
            < n by {
            if pre.free@.len() > 0 {
                assert(pre.free@[i + 1] < pre.data@.len());
            } else {
                assert(pre.free@[i] < pre.data@.len());
            }
        }
        assert(self.free@.no_duplicates()) by {
            if pre.free@.len() > 0 {
                assert forall|i: int, k: int|
                    0 <= i < k < self.free@.len() implies self.free@[i] != self.free@[k] by {
                    assert(self.free@[i] == pre.free@[i + 1]);
                    assert(self.free@[k] == pre.free@[k + 1]);
                }
            }
        }
        assert forall|j: int|
            0 <= j < n implies ((#[trigger] self.data@[j]) is Occupied <==> self.chain@.contains(
            j as usize,
        )) by {
            if j == pos as int {
                assert(self.chain@[0] == pos);
            } else if j < pre.data@.len() {
                if j == hd as int {
                    assert(self.chain@[1] == hd);
                } else {
                    assert(self.data@[j] == pre.data@[j]);
                    if pre.data@[j] is Occupied {
                        let k = choose|k: int| 0 <= k < cl && c[k] == j as usize;
                        assert(self.chain@[k + 1] == c[k]);
                    } else {
                        if self.chain@.contains(j as usize) {
                            let k = choose|k: int|
                                0 <= k < self.chain@.len() && self.chain@[k] == j as usize;
                            assert(j as usize != pos);
                            assert(k > 0);
                            assert(c[k - 1] == j as usize);
                            assert(c.contains(j as usize));
                        }
                    }
                }
            }
        }
        assert forall|j: int|
            0 <= j < n implies ((#[trigger] self.data@[j]) is Free <==> self.free@.contains(
            j as usize,
        )) by {
            if pre.free@.len() > 0 {
                if j == pos as int {
                    if self.free@.contains(j as usize) {
                        let k = choose|k: int|
                            0 <= k < self.free@.len() && self.free@[k] == j as usize;
                        assert(pre.free@[k + 1] == pos);
                        assert(pre.free@.no_duplicates());
                    }
                } else if j == hd as int {
                    assert(self.data@[j] is Occupied);
                    if self.free@.contains(j as usize) {
                        let k = choose|k: int|
                            0 <= k < self.free@.len() && self.free@[k] == j as usize;
                        assert(pre.free_links_ok(k + 1));
                        assert(pre.data@[j] is Free);
                    }
                } else {
                    assert(self.data@[j] == pre.data@[j]);
                    if pre.data@[j] is Free {
                        let k = choose|k: int|
                            0 <= k < pre.free@.len() && pre.free@[k] == j as usize;
                        assert(k != 0);
                        assert(self.free@[k - 1] == pre.free@[k]);
                    } else {
                        if self.free@.contains(j as usize) {
                            let k = choose|k: int|
                                0 <= k < self.free@.len() && self.free@[k] == j as usize;
                            assert(pre.free@[k + 1] == j as usize);
                            assert(pre.free@.contains(j as usize));
                        }
                    }
                }
            } else {
                assert(self.free@ == pre.free@);
                if j < pre.data@.len() {
                    if j == hd as int {
                        assert(self.data@[j] is Occupied);
                        assert(pre.data@[j] is Occupied);
                    } else {
                        assert(self.data@[j] == pre.data@[j]);
                    }
                } else {
                    assert(j == pos as int);
                    assert(self.data@[j] is Occupied);
                    if self.free@.contains(j as usize) {
                        let k = choose|k: int|
                            0 <= k < pre.free@.len() && pre.free@[k] == j as usize;
                        assert(pre.free@[k] < pre.data@.len());
                    }
                }
            }
        }
        assert(self@ =~= seq![item] + pre@) by {
            assert(self@[0] == item);
            assert forall|i: int| 0 <= i < cl implies self@[i + 1] == pre@[i] by {
                assert(pre.chain_links_ok(i));
                assert(self.chain@[i + 1] == c[i]);
                if c[i] == hd {
                } else {
                    assert(self.data@[c[i] as int] == pre.data@[c[i] as int]);
                }
            }
        }
        let h = DlIndex { index: pos, rm_cnt: pre.rm_cnt };
        assert(self.valid_handle(h));
        self.lemma_pos_of(h);
        assert(self.chain@[0] == pos);
        assert forall|h2: DlIndex| #[trigger]
            self.valid_handle(h2) <==> (pre.valid_handle(h2) || h2 == h) by {
            if h2.index == pos {
                if pre.valid_handle(h2) {
                    assert(pre.data@[pos as int] is Occupied);
                    assert(pre.chain@.contains(pos));
                }
                if self.valid_handle(h2) {
                    assert(h2 == h);
                }
            } else {
                if h2.index == hd {
                    assert(self.data@[h2.index as int].oc().rm_cnt == pre.data@[h2.index
                        as int].oc().rm_cnt);
                } else {
                    if (h2.index as int) < pre.data@.len() {
                        assert(self.data@[h2.index as int] == pre.data@[h2.index as int]);
                    }
                }
            }
        }
        assert forall|h2: DlIndex| pre.valid_handle(h2) implies self.pos_of(h2) == pre.pos_of(h2)
            + 1 by {
            pre.lemma_pos_of(h2);
            assert(self.valid_handle(h2));
            self.lemma_pos_of(h2);
            let p = pre.pos_of(h2);
            assert(self.chain@[p + 1] == c[p]);
        }
    }

    /// Removes the element a handle addresses and returns its item. A stale or
    /// foreign handle removes nothing, changes nothing, and returns `None`.
    pub fn remove(&mut self, index: DlIndex) -> (r: Option<u64>)
        requires
            old(self).wf(),
            old(self).valid_handle(index) ==> old(self).rm_cnt < usize::MAX,
        ensures
            final(self).wf(),
            !old(self).valid_handle(index) ==> r is None && *final(self) == *old(self),
            old(self).valid_handle(index) ==> ({
                let p = old(self).pos_of(index);
                &&& r == Some(old(self)@[p])
                &&& final(self)@ == old(self)@.remove(p)
                &&& final(self).chain@ == old(self).chain@.remove(p)
                &&& final(self).free@ == seq![index.index] + old(self).free@
                &&& final(self).rm_cnt == old(self).rm_cnt + 1
                &&& !final(self).valid_handle(index)
                &&& forall|h2: DlIndex| #[trigger]
                    final(self).valid_handle(h2) <==> (old(self).valid_handle(h2) && h2.index
                        != index.index)
            }),
    {
        let ghost pre = *self;
        let head_index = match self.head {
            Some(x) => x,
            None => {
                proof {
                    if pre.valid_handle(index) {
                        assert(pre.chain@.contains(index.index));
                    }
                }
                return None;
            },
        };
        let tail_index = match self.tail {
            Some(x) => x,
            None => unreached(),
        };
        if index.index >= self.data.len() {
            return None;
        }
        let e: DlEntry = self.data[index.index];
        let (prev_l, next_l, item) = match e {
            DlEntry::Free { .. } => {
                return None;
            },
            DlEntry::Occupied(oe) => {
                if oe.rm_cnt != index.rm_cnt {
                    return None;
                }
                (oe.prev, oe.next, oe.item)
            },
        };
        let idx = index.index;
        proof {
            pre.lemma_pos_of(index);
        }
        let ghost p = pre.pos_of(index);
        let ghost cl = pre.chain@.len() as int;
        self.data[idx] = DlEntry::Free { next_free: self.next_free };
        self.next_free = Some(idx);
        self.rm_cnt = self.rm_cnt + 1;
        proof {
            self.free@ = seq![idx] + pre.free@;
            assert(pre.chain_links_ok(p));
            assert(pre.chain@[0] == head_index);
            assert(pre.chain@[cl - 1] == tail_index);
        }
        if idx == head_index && idx == tail_index {
            proof {
                assert(p == 0 && p == cl - 1);
            }
            self.head = None;
            self.tail = None;
        } else if idx == head_index {
            proof {
                assert(p == 0 && cl > 1);
            }
            let nx = match next_l {
                Some(nx) => nx,
                None => unreached(),
            };
            proof {
                assert(nx == pre.chain@[1]);
                assert(pre.chain@.contains(nx));
                assert(nx != idx);
            }
            let cur: DlEntry = self.data[nx];
            match cur {
                DlEntry::Occupied(mut oe) => {
                    oe.prev = None;
                    self.data[nx] = DlEntry::Occupied(oe);
                },
                DlEntry::Free { .. } => unreached(),
            }
            self.head = next_l;
        } else if idx == tail_index {
            proof {
                assert(p == cl - 1 && p > 0);
            }
            let pv = match prev_l {
                Some(pv) => pv,
                None => unreached(),
            };
            proof {
                assert(pv == pre.chain@[cl - 2]);
                assert(pre.chain@.contains(pv));
                assert(pv != idx);
            }
            let cur: DlEntry = self.data[pv];
            match cur {
                DlEntry::Occupied(mut oe) => {
                    oe.next = None;
                    self.data[pv] = DlEntry::Occupied(oe);
                },
                DlEntry::Free { .. } => unreached(),
            }
            self.tail = prev_l;
        } else {
            proof {
                assert(0 < p < cl - 1);
            }
            let nx = match next_l {
                Some(nx) => nx,
                None => unreached(),
            };
            let pv = match prev_l {
                Some(pv) => pv,
                None => unreached(),
            };
            proof {
                assert(nx == pre.chain@[p + 1]);
                assert(pv == pre.chain@[p - 1]);
                assert(pre.chain@.contains(nx));
                assert(pre.chain@.contains(pv));
                assert(nx != idx && pv != idx && nx != pv);
            }
            let cur: DlEntry = self.data[nx];
            match cur {
                DlEntry::Occupied(mut oe) => {
                    oe.prev = prev_l;
                    self.data[nx] = DlEntry::Occupied(oe);
                },
                DlEntry::Free { .. } => unreached(),
            }
            let cur2: DlEntry = self.data[pv];
            match cur2 {
                DlEntry::Occupied(mut oe) => {
                    oe.next = next_l;
                    self.data[pv] = DlEntry::Occupied(oe);
                },
                DlEntry::Free { .. } => unreached(),
            }
        }
        self.chain = Ghost(pre.chain@.remove(p));
        proof {
            self.lemma_remove_wf(pre, index, p);
        }
        Some(item)
    }

    /// Everything the successful path of `remove` owes its callers, proved
    /// from the state shapes its body leaves behind.
    proof fn lemma_remove_wf(self, pre: DlList, h: DlIndex, p: int)
        requires
            pre.wf(),
            pre.valid_handle(h),
            pre.rm_cnt < usize::MAX,
            p == pre.pos_of(h),
            self.rm_cnt == pre.rm_cnt + 1,
            self.free@ == seq![h.index] + pre.free@,
            self.next_free == Some(h.index),
            self.chain@ == pre.chain@.remove(p),
            ({
                let c = pre.chain@;
                let cl = c.len() as int;
                let base = pre.data@.update(
                    h.index as int,
                    DlEntry::Free { next_free: pre.next_free },
                );
                if cl == 1 {
                    &&& self.data@ == base
                    &&& self.head == None::<usize>
                    &&& self.tail == None::<usize>
                } else if p == 0 {
                    &&& self.data@ == base.update(
                        c[1] as int,
                        DlEntry::Occupied(
                            OcEntry {
                                item: pre.data@[c[1] as int].oc().item,
                                next: pre.data@[c[1] as int].oc().next,
                                prev: None,
                                rm_cnt: pre.data@[c[1] as int].oc().rm_cnt,
                            },
                        ),
                    )
                    &&& self.head == Some(c[1])
                    &&& self.tail == pre.tail
                } else if p == cl - 1 {
                    &&& self.data@ == base.update(
                        c[cl - 2] as int,
                        DlEntry::Occupied(
                            OcEntry {
                                item: pre.data@[c[cl - 2] as int].oc().item,
                                next: None,
                                prev: pre.data@[c[cl - 2] as int].oc().prev,
                                rm_cnt: pre.data@[c[cl - 2] as int].oc().rm_cnt,
                            },
                        ),
                    )
                    &&& self.head == pre.head
                    &&& self.tail == Some(c[cl - 2])
                } else {
                    &&& self.data@ == base.update(
                        c[p + 1] as int,
                        DlEntry::Occupied(
                            OcEntry {
                                item: pre.data@[c[p + 1] as int].oc().item,
                                next: pre.data@[c[p + 1] as int].oc().next,
                                prev: Some(c[p - 1]),
                                rm_cnt: pre.data@[c[p + 1] as int].oc().rm_cnt,
                            },
                        ),
                    ).update(
                        c[p - 1] as int,
                        DlEntry::Occupied(
                            OcEntry {
                                item: pre.data@[c[p - 1] as int].oc().item,
                                next: Some(c[p + 1]),
                                prev: pre.data@[c[p - 1] as int].oc().prev,
                                rm_cnt: pre.data@[c[p - 1] as int].oc().rm_cnt,
                            },
                        ),
                    )
                    &&& self.head == pre.head
                    &&& self.tail == pre.tail
                }
            }),
        ensures
            self.wf(),
            self@ == pre@.remove(p),
            !self.valid_handle(h),
            forall|h2: DlIndex| #[trigger]
                self.valid_handle(h2) <==> (pre.valid_handle(h2) && h2.index != h.index),
    {
        let c = pre.chain@;
        let cl = c.len() as int;
        let idx = h.index;
        let n = self.data@.len() as int;
        pre.lemma_pos_of(h);
        assert(c[p] == idx);
        assert(n == pre.data@.len());
        assert(n <= usize::MAX) by {
            vstd::std_specs::vec::axiom_spec_len(&self.data);
        }
        assert(self.chain@.len() == cl - 1);
        assert forall|k: int| 0 <= k < cl - 1 implies #[trigger] self.chain@[k] == (if k < p {
            c[k]
        } else {
            c[k + 1]
        }) by {}
        if p > 0 {
            assert(pre.chain_links_ok(p - 1));
            assert(c.contains(c[p - 1]));
        }
        if p < cl - 1 {
            assert(pre.chain_links_ok(p + 1));
            assert(c.contains(c[p + 1]));
        }
        assert(pre.data@[idx as int] is Occupied);
        // idx leaves the chain and joins the free chain
        assert(!self.chain@.contains(idx)) by {
            if self.chain@.contains(idx) {
                let k = choose|k: int| 0 <= k < cl - 1 && self.chain@[k] == idx;
                if k < p {
                    assert(c[k] == idx);
                } else {
                    assert(c[k + 1] == idx);
                }
            }
        }
        assert(self.chain@.no_duplicates()) by {
            assert forall|i: int, k: int|
                0 <= i < k < self.chain@.len() implies self.chain@[i] != self.chain@[k] by {}
        }
        assert forall|i: int| 0 <= i < self.chain@.len() implies (#[trigger] self.chain@[i])
            < n by {}
        // the patched neighbours keep the chain linked
        assert forall|i: int| 0 <= i < self.chain@.len() implies self.chain_links_ok(i) by {
            let q: int = if i < p {
                i
            } else {
                i + 1
            };
            assert(pre.chain_links_ok(q));
            assert(c[q] != idx);
            if q != p - 1 && q != p + 1 {
                if p > 0 {
                    assert(c[q] != c[p - 1]);
                }
                if p < cl - 1 {
                    assert(c[q] != c[p + 1]);
                }
                assert(self.data@[c[q] as int] == pre.data@[c[q] as int]);
            }
            if i > 0 {
                assert(self.chain@[i - 1] == (if i - 1 < p {
                    c[i - 1]
                } else {
                    c[i]
                }));
            }
            if i < self.chain@.len() - 1 {
                assert(self.chain@[i + 1] == (if i + 1 < p {
                    c[i + 1]
                } else {
                    c[i + 2]
                }));
            }
        }
        // the freed slot heads the free chain; the rest is untouched
        assert(!pre.free@.contains(idx)) by {
            if pre.free@.contains(idx) {
                let k = choose|k: int| 0 <= k < pre.free@.len() && pre.free@[k] == idx;
                assert(pre.free_links_ok(k));
            }
        }
        assert(self.free@.no_duplicates()) by {
            assert forall|i: int, k: int|
                0 <= i < k < self.free@.len() implies self.free@[i] != self.free@[k] by {
                if i > 0 {
                    assert(self.free@[i] == pre.free@[i - 1]);
                    assert(self.free@[k] == pre.free@[k - 1]);
                } else {
                    assert(self.free@[k] == pre.free@[k - 1]);
                    assert(pre.free@.contains(pre.free@[k - 1]));
                }
            }
        }
        assert forall|i: int| 0 <= i < self.free@.len() implies (#[trigger] self.free@[i])
            < n by {
            if i > 0 {
                assert(pre.free@[i - 1] < pre.data@.len());
            }
        }
        assert forall|i: int| 0 <= i < self.free@.len() implies self.free_links_ok(i) by {
            if i == 0 {
                assert(self.data@[idx as int] == DlEntry::Free { next_free: pre.next_free });
            } else {
                assert(pre.free_links_ok(i - 1));
                let s = pre.free@[i - 1];
                assert(pre.data@[s as int] is Free);
                assert(s != idx);
                if p > 0 {
                    assert(pre.data@[c[p - 1] as int] is Occupied);
                    assert(s != c[p - 1]);
                }
                if p < cl - 1 {
                    assert(pre.data@[c[p + 1] as int] is Occupied);
                    assert(s != c[p + 1]);
                }
                assert(self.data@[s as int] == pre.data@[s as int]);
                assert(self.free@[i] == s);
                if i < self.free@.len() - 1 {
                    assert(self.free@[i + 1] == pre.free@[i]);
                }
            }
        }
        // occupancy bookkeeping: every slot sits on exactly one chain
        assert forall|j: int|
            0 <= j < n implies ((#[trigger] self.data@[j]) is Occupied <==> self.chain@.contains(
            j as usize,
        )) by {
            if j == idx as int {
                assert(self.data@[j] is Free);
            } else if p > 0 && j == c[p - 1] as int {
                assert(self.data@[j] is Occupied);
                if p - 1 < p {
                    assert(self.chain@[p - 1] == c[p - 1]);
                }
            } else if p < cl - 1 && j == c[p + 1] as int {
                assert(self.data@[j] is Occupied);
                assert(self.chain@[p] == c[p + 1]);
            } else {
                assert(self.data@[j] == pre.data@[j]);
                if pre.data@[j] is Occupied {
                    let k = choose|k: int| 0 <= k < cl && c[k] == j as usize;
                    assert(k != p);
                    if k < p {
                        assert(self.chain@[k] == c[k]);
                    } else {
                        assert(self.chain@[k - 1] == c[k]);
                    }
                } else {
                    if self.chain@.contains(j as usize) {
                        let k = choose|k: int|
                            0 <= k < self.chain@.len() && self.chain@[k] == j as usize;
                        if k < p {
                            assert(c[k] == j as usize);
                        } else {
                            assert(c[k + 1] == j as usize);
                        }
                        assert(c.contains(j as usize));
                    }
                }
            }
        }
        assert forall|j: int|
            0 <= j < n implies ((#[trigger] self.data@[j]) is Free <==> self.free@.contains(
            j as usize,
        )) by {
            if j == idx as int {
                assert(self.free@[0] == idx);
            } else if (p > 0 && j == c[p - 1] as int) || (p < cl - 1 && j == c[p + 1] as int) {
                assert(self.data@[j] is Occupied);
                assert(pre.data@[j] is Occupied);
                if self.free@.contains(j as usize) {
                    let k = choose|k: int| 0 <= k < self.free@.len() && self.free@[k] == j as usize;
                    assert(k > 0);
                    assert(pre.free@[k - 1] == j as usize);
                    assert(pre.free@.contains(j as usize));
                }
            } else {
                assert(self.data@[j] == pre.data@[j]);
                if pre.data@[j] is Free {
                    let k = choose|k: int| 0 <= k < pre.free@.len() && pre.free@[k] == j as usize;
                    assert(self.free@[k + 1] == pre.free@[k]);
                } else {
                    if self.free@.contains(j as usize) {
                        let k = choose|k: int|
                            0 <= k < self.free@.len() && self.free@[k] == j as usize;
                        assert(k > 0);
                        assert(pre.free@[k - 1] == j as usize);
                        assert(pre.free@.contains(j as usize));
                    }
                }
            }
        }
        // the view loses exactly the removed item
        assert(self@ =~= pre@.remove(p)) by {
            assert forall|i: int| 0 <= i < cl - 1 implies self@[i] == pre@.remove(p)[i] by {
                let q: int = if i < p {
                    i
                } else {
                    i + 1
                };
                assert(pre.chain_links_ok(q));
                assert(self.chain@[i] == c[q]);
                assert(pre@.remove(p)[i] == pre@[q]);
                assert(c[q] != idx);
                if (p > 0 && c[q] == c[p - 1]) || (p < cl - 1 && c[q] == c[p + 1]) {
                } else {
                    assert(self.data@[c[q] as int] == pre.data@[c[q] as int]);
                }
            }
        }
        // handle bookkeeping
        assert forall|h2: DlIndex| #[trigger]
            self.valid_handle(h2) <==> (pre.valid_handle(h2) && h2.index != idx) by {
            if h2.index == idx {
                assert(self.data@[idx as int] is Free);
            } else if (p > 0 && h2.index == c[p - 1]) || (p < cl - 1 && h2.index == c[p + 1]) {
                assert(self.data@[h2.index as int] is Occupied);
                assert(pre.data@[h2.index as int] is Occupied);
                assert(self.data@[h2.index as int].oc().rm_cnt == pre.data@[h2.index
                    as int].oc().rm_cnt);
            } else {
                if (h2.index as int) < n {
                    assert(self.data@[h2.index as int] == pre.data@[h2.index as int]);
                }
            }
        }
    }

    /// The item a handle addresses: `Some` exactly for a valid handle, `None`
    /// for a stale or foreign one.
    pub fn get(&self, index: DlIndex) -> (r: Option<u64>)
        requires
            self.wf(),
        ensures
            self.valid_handle(index) ==> r == Some(self@[self.pos_of(index)]),
            !self.valid_handle(index) ==> r is None,
    {
        if index.index >= self.data.len() {
            return None;
        }
        let e: DlEntry = self.data[index.index];
        match e {
            DlEntry::Occupied(e) => {
                if e.rm_cnt == index.rm_cnt {
                    proof {
                        self.lemma_pos_of(index);
                    }
                    Some(e.item)
                } else {
                    None
                }
            },
            DlEntry::Free { .. } => None,
        }
    }
    /// The handle of the element after the one a handle addresses, `None` at
    /// the tail or for a stale or foreign handle.
    pub fn next_index(&self, index: DlIndex) -> (r: Option<DlIndex>)
        requires
            self.wf(),
        ensures
            !self.valid_handle(index) ==> r is None,
            self.valid_handle(index) ==> r == (if self.pos_of(index) == self@.len() - 1 {
                None::<DlIndex>
            } else {
                Some(self.handle_at(self.pos_of(index) + 1))
            }),
    {
        if index.index >= self.data.len() {
            return None;
        }
        let e: DlEntry = self.data[index.index];
        match e {
            DlEntry::Free { .. } => None,
            DlEntry::Occupied(e) => {
                if e.rm_cnt != index.rm_cnt {
                    return None;
                }
                proof {
                    self.lemma_pos_of(index);
                    assert(self.chain_links_ok(self.pos_of(index)));
                }
                match e.next {
                    None => None,
                    Some(nx) => {
                        proof {
                            assert(nx == self.chain@[self.pos_of(index) + 1]);
                            assert(self.chain_links_ok(self.pos_of(index) + 1));
                        }
                        let e2: DlEntry = self.data[nx];
                        match e2 {
                            DlEntry::Occupied(e2) => Some(DlIndex::new(nx, e2.rm_cnt)),
                            DlEntry::Free { .. } => unreached(),
                        }
                    },
                }
            },
        }
    }

    /// The handle of the element before the one a handle addresses, `None` at
    /// the head or for a stale or foreign handle.
    pub fn prev_index(&self, index: DlIndex) -> (r: Option<DlIndex>)
        requires
            self.wf(),
        ensures
            !self.valid_handle(index) ==> r is None,
            self.valid_handle(index) ==> r == (if self.pos_of(index) == 0 {
                None::<DlIndex>
            } else {
                Some(self.handle_at(self.pos_of(index) - 1))
            }),
    {
        if index.index >= self.data.len() {
            return None;
        }
        let e: DlEntry = self.data[index.index];
        match e {
            DlEntry::Free { .. } => None,
            DlEntry::Occupied(e) => {
                if e.rm_cnt != index.rm_cnt {
                    return None;
                }
                proof {
                    self.lemma_pos_of(index);
                    assert(self.chain_links_ok(self.pos_of(index)));
                }
                match e.prev {
                    None => None,
                    Some(pv) => {
                        proof {
                            assert(pv == self.chain@[self.pos_of(index) - 1]);
                            assert(self.chain_links_ok(self.pos_of(index) - 1));
                        }
                        let e2: DlEntry = self.data[pv];
                        match e2 {
                            DlEntry::Occupied(e2) => Some(DlIndex::new(pv, e2.rm_cnt)),
                            DlEntry::Free { .. } => unreached(),
                        }
                    },
                }
            },
        }
    }

    /// A handle to the first element that holds `item`, in chain order, or
    /// `None` when no element does.
    pub fn index_of(&self, item: &u64) -> (r: Option<DlIndex>)
        requires
            self.wf(),
        ensures
            self@.contains(*item) ==> r == Some(
                self.handle_at(self@.index_of_first(*item).unwrap()),
            ),
            !self@.contains(*item) ==> r is None,
    {
        let mut next: Option<usize> = self.head;
        let ghost mut i: int = 0;
        loop
            invariant
                self.wf(),
                0 <= i <= self@.len(),
                next == (if i == self@.len() {
                    None::<usize>
                } else {
                    Some(self.chain@[i])
                }),
                forall|j: int| 0 <= j < i ==> self@[j] != *item,
            decreases self@.len() - i,
        {
            match next {
                None => {
                    proof {
                        self.view().index_of_first_ensures(*item);
                    }
                    return None;
                },
                Some(index) => {
                    proof {
                        assert(self.chain_links_ok(i));
                    }
                    let e: DlEntry = self.data[index];
                    match e {
                        DlEntry::Free { .. } => unreached(),
                        DlEntry::Occupied(entry) => {
                            if entry.item == *item {
                                proof {
                                    assert(self@[i] == *item);
                                    self.view().index_of_first_ensures(*item);
                                    let w = self.view().index_of_first(*item).unwrap();
                                    assert(self@[w] == *item);
                                    assert(w == i);
                                }
                                return Some(DlIndex::new(index, entry.rm_cnt));
                            }
                            next = entry.next;
                            proof {
                                i = i + 1;
                            }
                        },
                    }
                },
            }
        }
    }

    /// Whether some element holds `value`.
    pub fn contains(&self, value: &u64) -> (r: bool)
        requires
            self.wf(),
        ensures
            r == self@.contains(*value),
    {
        self.index_of(value).is_some()
    }

    /// The items in chain order, head first.
    pub fn iter(&self) -> (r: Vec<u64>)
        requires
            self.wf(),
        ensures
            r@ == self@,
    {
        let mut out: Vec<u64> = Vec::new();
        let mut next: Option<usize> = self.head;
        let ghost mut i: int = 0;
        loop
            invariant
                self.wf(),
                0 <= i <= self@.len(),
                next == (if i == self@.len() {
                    None::<usize>
                } else {
                    Some(self.chain@[i])
                }),
                out@ == self@.subrange(0, i),
            decreases self@.len() - i,
        {
            match next {
                None => {
                    proof {
                        assert(out@ =~= self@);
                    }
                    return out;
                },
                Some(index) => {
                    proof {
                        assert(self.chain_links_ok(i));
                    }
                    let e: DlEntry = self.data[index];
                    match e {
                        DlEntry::Free { .. } => unreached(),
                        DlEntry::Occupied(entry) => {
                            out.push(entry.item);
                            next = entry.next;
                            proof {
                                i = i + 1;
                                assert(out@ =~= self@.subrange(0, i));
                            }
                        },
                    }
                },
            }
        }
    }

    /// Removes the head element and returns its item, `None` on an empty list.
    pub fn pop_front(&mut self) -> (r: Option<u64>)
        requires
            old(self).wf(),
            old(self)@.len() > 0 ==> old(self).rm_cnt < usize::MAX,
        ensures
            final(self).wf(),
            old(self)@.len() == 0 ==> r is None && *final(self) == *old(self),
            old(self)@.len() > 0 ==> ({
                &&& r == Some(old(self)@[0])
                &&& final(self)@ == old(self)@.drop_first()
                &&& final(self).chain@ == old(self).chain@.drop_first()
                &&& final(self).free@ == seq![old(self).chain@[0]] + old(self).free@
                &&& final(self).rm_cnt == old(self).rm_cnt + 1
                &&& forall|h2: DlIndex| #[trigger]
                    final(self).valid_handle(h2) <==> (old(self).valid_handle(h2) && h2.index
                        != old(self).chain@[0])
            }),
    {
        let h = match self.head_index() {
            None => {
                return None;
            },
            Some(h) => h,
        };
        let r = self.remove(h);
        proof {
            assert(old(self)@.remove(0) =~= old(self)@.drop_first());
            assert(old(self).chain@.remove(0) =~= old(self).chain@.drop_first());
        }
        r
    }
}

impl Default for DlList {
    /// An empty list, as `DlList::new` builds it.
    fn default() -> (l: DlList)
        ensures
            l.wf(),
            l@ == Seq::<u64>::empty(),
            l.rm_cnt == 0,
            l.data@.len() == 0,
            l.chain@.len() == 0,
            l.free@.len() == 0,
    {
        DlList::new()
    }
}

} // verus!
