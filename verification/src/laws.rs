//! The list's global laws: staleness of pre-reuse handles, the mirror symmetry
//! of forward and backward traversal, and the exact partition of storage
//! between the occupied chain and the free chain.
use vstd::prelude::*;
use vstd::seq_lib::*;
use vstd::set_lib::*;

use crate::dl_list::DlIndex;
use crate::dl_list::DlList;

verus! {

/// Every handle a well-formed list can still resolve carries a generation no
/// greater than the list's removal counter. Together with the contracts of
/// `remove` (the counter strictly increases when a slot is freed) and of
/// `push_back`/`push_front` (a fresh handle is stamped with the current
/// counter), this bounds every outstanding handle's generation.
pub proof fn lemma_valid_generation_bounded(l: DlList, h: DlIndex)
    requires
        l.wf(),
        l.valid_handle(h),
    ensures
        h.rm_cnt <= l.rm_cnt,
{
    l.lemma_pos_of(h);
    assert(l.chain_links_ok(l.pos_of(h)));
}

/// Handle uniqueness after reuse: a handle issued before a slot was freed
/// carries a strictly smaller generation than any handle issued for the same
/// slot after the reuse — `remove` raises the counter past every generation a
/// well-formed list has stamped, and the pushes stamp the counter's current
/// value. Such a stale handle compares unequal to the fresh one and fails
/// every lookup.
pub proof fn lemma_handle_uniqueness_after_reuse(l: DlList, stale: DlIndex, fresh: DlIndex)
    requires
        l.wf(),
        l.valid_handle(fresh),
        stale.index == fresh.index,
        stale.rm_cnt < fresh.rm_cnt,
    ensures
        stale != fresh,
        !l.valid_handle(stale),
{
}

/// The items seen from `cur` by following `next` links, at most `fuel` steps,
/// stopping at the chain's end.
pub open spec fn forward_items(l: DlList, cur: Option<usize>, fuel: nat) -> Seq<u64>
    decreases fuel,
{
    if fuel == 0 {
        Seq::empty()
    } else {
        match cur {
            None => Seq::empty(),
            Some(p) => {
                if p < l.data@.len() && l.data@[p as int] is Occupied {
                    seq![l.data@[p as int].oc().item] + forward_items(
                        l,
                        l.data@[p as int].oc().next,
                        (fuel - 1) as nat,
                    )
                } else {
                    Seq::empty()
                }
            },
        }
    }
}

/// The items seen from `cur` by following `prev` links, at most `fuel` steps,
/// stopping at the chain's start.
pub open spec fn backward_items(l: DlList, cur: Option<usize>, fuel: nat) -> Seq<u64>
    decreases fuel,
{
    if fuel == 0 {
        Seq::empty()
    } else {
        match cur {
            None => Seq::empty(),
            Some(p) => {
                if p < l.data@.len() && l.data@[p as int] is Occupied {
                    seq![l.data@[p as int].oc().item] + backward_items(
                        l,
                        l.data@[p as int].oc().prev,
                        (fuel - 1) as nat,
                    )
                } else {
                    Seq::empty()
                }
            },
        }
    }
}

proof fn lemma_forward_from(l: DlList, i: int)
    requires
        l.wf(),
        0 <= i <= l@.len(),
    ensures
        forward_items(
            l,
            if i == l@.len() {
                None::<usize>
            } else {
                Some(l.chain@[i])
            },
            (l@.len() - i) as nat,
        ) == l@.subrange(i, l@.len() as int),
    decreases l@.len() - i,
{
    if i == l@.len() {
        assert(l@.subrange(i, l@.len() as int) =~= Seq::<u64>::empty());
    } else {
        assert(l.chain_links_ok(i));
        lemma_forward_from(l, i + 1);
        assert(forward_items(
            l,
            if i == l@.len() {
                None::<usize>
            } else {
                Some(l.chain@[i])
            },
            (l@.len() - i) as nat,
        ) =~= l@.subrange(i, l@.len() as int));
    }
}

proof fn lemma_backward_from(l: DlList, i: int)
    requires
        l.wf(),
        0 <= i < l@.len(),
    ensures
        backward_items(l, Some(l.chain@[i]), (i + 1) as nat) == l@.subrange(0, i + 1).reverse(),
    decreases i,
{
    assert(l.chain_links_ok(i));
    assert(l.chain@[i] < l.data@.len());
    let e = l.data@[l.chain@[i] as int];
    let lhs = backward_items(l, Some(l.chain@[i]), (i + 1) as nat);
    assert(lhs == seq![e.oc().item] + backward_items(l, e.oc().prev, i as nat));
    assert(e.oc().item == l@[i]);
    let rhs = l@.subrange(0, i + 1).reverse();
    if i == 0 {
        assert(backward_items(l, e.oc().prev, 0) == Seq::<u64>::empty());
        assert(lhs =~= rhs) by {
            assert(rhs[0] == l@.subrange(0, 1)[0]);
        }
    } else {
        lemma_backward_from(l, i - 1);
        assert(e.oc().prev == Some(l.chain@[i - 1]));
        let rest = l@.subrange(0, i).reverse();
        assert(lhs == seq![l@[i]] + rest);
        assert(lhs =~= rhs) by {
            assert forall|k: int| 0 <= k < i + 1 implies lhs[k] == rhs[k] by {
                assert(rhs[k] == l@.subrange(0, i + 1)[i - k]);
                if k == 0 {
                    assert(lhs[0] == l@[i]);
                } else {
                    assert(lhs[k] == rest[k - 1]);
                    assert(rest[k - 1] == l@.subrange(0, i)[i - k]);
                }
            }
        }
    }
}

/// Chain consistency: traversing forward from `head` yields the list's items
/// in order, and traversing backward from `tail` yields exactly the same items
/// reversed.
pub proof fn lemma_traversal_mirror(l: DlList)
    requires
        l.wf(),
    ensures
        forward_items(l, l.head, l@.len()) == l@,
        backward_items(l, l.tail, l@.len()) == l@.reverse(),
{
    lemma_forward_from(l, 0);
    assert(l@.subrange(0, l@.len() as int) =~= l@);
    if l@.len() == 0 {
        assert(l@.reverse() =~= Seq::<u64>::empty());
    } else {
        lemma_backward_from(l, l@.len() - 1);
    }
}

/// Free-list soundness: the occupied chain and the free chain together account
/// for every storage slot exactly once, so the number of free slots plus the
/// number of occupied slots equals the storage length, and no position repeats
/// inside the free chain.
pub proof fn lemma_storage_partition(l: DlList)
    requires
        l.wf(),
    ensures
        l@.len() + l.free@.len() == l.data@.len(),
        l.free@.no_duplicates(),
        forall|i: int, k: int|
            0 <= i < k < l.free@.len() ==> l.free@[i] != l.free@[k],
{
    broadcast use vstd::seq_lib::seq_to_set_is_finite;

    let n = l.data@.len() as int;
    assert(n <= usize::MAX) by {
        vstd::std_specs::vec::axiom_spec_len(&l.data);
    }
    let ci = l.chain@.map_values(|x: usize| x as int);
    let fi = l.free@.map_values(|x: usize| x as int);
    assert(ci.no_duplicates()) by {
        assert forall|i: int, k: int| 0 <= i < k < ci.len() implies ci[i] != ci[k] by {
            assert(l.chain@[i] != l.chain@[k]);
        }
    }
    assert(fi.no_duplicates()) by {
        assert forall|i: int, k: int| 0 <= i < k < fi.len() implies fi[i] != fi[k] by {
            assert(l.free@[i] != l.free@[k]);
        }
    }
    ci.unique_seq_to_set();
    fi.unique_seq_to_set();
    let cs = ci.to_set();
    let fs = fi.to_set();
    assert(cs.disjoint(fs)) by {
        assert forall|x: int| !(cs.contains(x) && fs.contains(x)) by {
            if cs.contains(x) && fs.contains(x) {
                let i = choose|i: int| 0 <= i < ci.len() && ci[i] == x;
                let k = choose|k: int| 0 <= k < fi.len() && fi[k] == x;
                assert(l.chain_links_ok(i));
                assert(l.free_links_ok(k));
                assert(l.chain@[i] == l.free@[k]);
            }
        }
    }
    assert(cs + fs =~= set_int_range(0, n)) by {
        assert forall|x: int| cs.contains(x) implies 0 <= x < n by {
            let i = choose|i: int| 0 <= i < ci.len() && ci[i] == x;
            assert(l.chain@[i] < n);
        }
        assert forall|x: int| fs.contains(x) implies 0 <= x < n by {
            let k = choose|k: int| 0 <= k < fi.len() && fi[k] == x;
            assert(l.free@[k] < n);
        }
        assert forall|x: int| 0 <= x < n implies (cs + fs).contains(x) by {
            if l.data@[x] is Occupied {
                assert(l.chain@.contains(x as usize));
                let i = choose|i: int| 0 <= i < l.chain@.len() && l.chain@[i] == x as usize;
                assert(ci[i] == x);
                assert(ci.contains(x));
            } else {
                assert(l.data@[x] is Free);
                assert(l.free@.contains(x as usize));
                let k = choose|k: int| 0 <= k < l.free@.len() && l.free@[k] == x as usize;
                assert(fi[k] == x);
                assert(fi.contains(x));
            }
        }
    }
    lemma_set_disjoint_lens(cs, fs);
    lemma_int_range(0, n);
}

} // verus!
