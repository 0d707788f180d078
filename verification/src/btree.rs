use vstd::prelude::*;
use vstd::multiset::Multiset;
use vstd::utf8::encode_utf8;
use crate::error::Error;
use crate::node::{entry_count, is_full, median_key, Node, NodeView};
use crate::node_type::{
    keys_strictly_sorted, lemma_lex_asym, lemma_lex_total, lemma_lex_trans, lex_le, lex_lt,
    pairs_strictly_sorted, Key, KeyValuePair, NodeType, NodeTypeView, Offset, PairView,
};
use crate::page::{
    codec_wf, enc_key, enc_keys, enc_node, enc_offsets, enc_pairs, lemma_enc_keys_append,
    lemma_enc_keys_count_key, lemma_enc_keys_insert_len, lemma_enc_offsets_append,
    lemma_enc_offsets_len, lemma_enc_pairs_append, lemma_enc_pairs_count_key,
    lemma_enc_pairs_insert_len, spec_decode,
    spec_page_of, Page,
};
use crate::page_layout::PAGE_SIZE;
use crate::pager::Pager;
use crate::wal::Wal;

verus! {

/// An exclusive lower bound on keys: nothing, or a key every member must
/// exceed.
pub open spec fn above_lo(lo: Option<Seq<u8>>, k: Seq<u8>) -> bool {
    match lo {
        None => true,
        Some(l) => lex_lt(l, k),
    }
}

/// An inclusive upper bound on keys: nothing, or a key no member may exceed.
pub open spec fn within_hi(k: Seq<u8>, hi: Option<Seq<u8>>) -> bool {
    match hi {
        None => true,
        Some(h) => lex_le(k, h),
    }
}

/// `k` lies in the half-open key interval `(lo, hi]`.
pub open spec fn in_range(lo: Option<Seq<u8>>, k: Seq<u8>, hi: Option<Seq<u8>>) -> bool {
    above_lo(lo, k) && within_hi(k, hi)
}

/// The node stored at byte offset `off` of the page store, if the offset is
/// aligned, in bounds, and the page decodes.
pub open spec fn node_at(pages: Seq<Seq<u8>>, off: usize) -> Option<NodeView> {
    if off % PAGE_SIZE == 0 && (off as int / PAGE_SIZE as int) < pages.len() {
        spec_decode(pages[off as int / PAGE_SIZE as int])
    } else {
        None
    }
}

/// The lower bound of the child at position `idx` among separators `ks`.
pub open spec fn lo_of(ks: Seq<Seq<u8>>, lo: Option<Seq<u8>>, idx: int) -> Option<Seq<u8>> {
    if idx == 0 {
        lo
    } else {
        Some(ks[idx - 1])
    }
}

/// The upper bound of the child at position `idx` among separators `ks`.
pub open spec fn hi_of(ks: Seq<Seq<u8>>, hi: Option<Seq<u8>>, idx: int) -> Option<Seq<u8>> {
    if idx == ks.len() {
        hi
    } else {
        Some(ks[idx])
    }
}

/// Well-formedness of an in-memory node value whose descendants live in
/// `pages`, for a subtree of height `h` covering the key interval
/// `(lo, hi]`. A leaf sits at height zero; all of its keys, and all
/// separator keys of an internal node, lie within the interval and are
/// strictly increasing; a node holds at most `2b - 1` and, unless it is the
/// root, at least `b - 1` entries; and every node fits in one page.
pub open spec fn node_wf(
    pages: Seq<Seq<u8>>,
    b: int,
    nv: NodeView,
    h: nat,
    lo: Option<Seq<u8>>,
    hi: Option<Seq<u8>>,
    root: bool,
) -> bool
    decreases h, 0int, 0int,
{
    &&& codec_wf(nv)
    &&& enc_node(nv).len() <= PAGE_SIZE
    &&& match nv.node_type {
        NodeTypeView::Leaf(ps) => {
            &&& h == 0
            &&& ps.len() <= 2 * b - 1
            &&& (root || ps.len() >= b - 1)
            &&& pairs_strictly_sorted(ps)
            &&& forall|i: int| 0 <= i < ps.len() ==> in_range(lo, #[trigger] ps[i].key, hi)
        },
        NodeTypeView::Internal(cs, ks) => {
            &&& h >= 1
            &&& cs.len() == ks.len() + 1
            &&& ks.len() <= 2 * b - 1
            &&& (if root {
                ks.len() >= 1
            } else {
                ks.len() >= b - 1
            })
            &&& keys_strictly_sorted(ks)
            &&& forall|i: int| 0 <= i < ks.len() ==> in_range(lo, #[trigger] ks[i], hi)
            &&& children_wf(pages, b, cs, ks, (h - 1) as nat, lo, hi)
        },
        NodeTypeView::Unexpected => false,
    }
}

/// Well-formedness of the subtree stored at offset `off`.
pub open spec fn child_wf(
    pages: Seq<Seq<u8>>,
    b: int,
    off: usize,
    h: nat,
    lo: Option<Seq<u8>>,
    hi: Option<Seq<u8>>,
) -> bool
    decreases h, 1int, 0int,
{
    match node_at(pages, off) {
        Some(nv) => node_wf(pages, b, nv, h, lo, hi, false),
        None => false,
    }
}

/// Well-formedness of a row of children `cs` separated by keys `ks`: the
/// child left of a separator holds keys at most the separator, the child
/// right of it strictly greater ones.
pub open spec fn children_wf(
    pages: Seq<Seq<u8>>,
    b: int,
    cs: Seq<usize>,
    ks: Seq<Seq<u8>>,
    h: nat,
    lo: Option<Seq<u8>>,
    hi: Option<Seq<u8>>,
) -> bool
    decreases h, 2int, cs.len(),
{
    if cs.len() == 1 && ks.len() == 0 {
        child_wf(pages, b, cs[0], h, lo, hi)
    } else if cs.len() >= 2 && ks.len() == cs.len() - 1 {
        &&& child_wf(pages, b, cs[0], h, lo, Some(ks[0]))
        &&& children_wf(pages, b, cs.drop_first(), ks.drop_first(), h, Some(ks[0]), hi)
    } else {
        false
    }
}

/// The records held by the subtree of an in-memory node.
pub open spec fn node_kvs(pages: Seq<Seq<u8>>, nv: NodeView, h: nat) -> Multiset<PairView>
    decreases h, 0int, 0int,
{
    match nv.node_type {
        NodeTypeView::Leaf(ps) => ps.to_multiset(),
        NodeTypeView::Internal(cs, _) => if h == 0 {
            Multiset::empty()
        } else {
            children_kvs(pages, cs, (h - 1) as nat)
        },
        NodeTypeView::Unexpected => Multiset::empty(),
    }
}

/// The records held by the subtree stored at offset `off`.
pub open spec fn child_kvs(pages: Seq<Seq<u8>>, off: usize, h: nat) -> Multiset<PairView>
    decreases h, 1int, 0int,
{
    match node_at(pages, off) {
        Some(nv) => node_kvs(pages, nv, h),
        None => Multiset::empty(),
    }
}

/// The records held by a row of children.
pub open spec fn children_kvs(pages: Seq<Seq<u8>>, cs: Seq<usize>, h: nat) -> Multiset<PairView>
    decreases h, 2int, cs.len(),
{
    if cs.len() == 0 {
        Multiset::empty()
    } else {
        child_kvs(pages, cs[0], h).add(children_kvs(pages, cs.drop_first(), h))
    }
}

/// The page offsets a subtree of an in-memory node occupies, the node's own
/// page excluded.
pub open spec fn node_offs(pages: Seq<Seq<u8>>, nv: NodeView, h: nat) -> Set<usize>
    decreases h, 0int, 0int,
{
    match nv.node_type {
        NodeTypeView::Internal(cs, _) => if h == 0 {
            Set::empty()
        } else {
            children_offs(pages, cs, (h - 1) as nat)
        },
        _ => Set::empty(),
    }
}

/// The page offsets the subtree stored at `off` occupies, `off` included.
pub open spec fn child_offs(pages: Seq<Seq<u8>>, off: usize, h: nat) -> Set<usize>
    decreases h, 1int, 0int,
{
    (match node_at(pages, off) {
        Some(nv) => node_offs(pages, nv, h),
        None => Set::empty(),
    }).insert(off)
}

/// The page offsets a row of children occupies.
pub open spec fn children_offs(pages: Seq<Seq<u8>>, cs: Seq<usize>, h: nat) -> Set<usize>
    decreases h, 2int, cs.len(),
{
    if cs.len() == 0 {
        Set::empty()
    } else {
        child_offs(pages, cs[0], h).union(children_offs(pages, cs.drop_first(), h))
    }
}


/// Reflexive order chains through a strict or equal step.
proof fn lemma_lex_le_trans(a: Seq<u8>, b: Seq<u8>, c: Seq<u8>)
    ensures
        lex_le(a, b) && lex_le(b, c) ==> lex_le(a, c),
{
    lemma_lex_trans(a, b, c);
}

/// Every record in a well-formed row of children has its key inside the
/// row's interval.
proof fn lemma_children_kvs_in_range(
    pages: Seq<Seq<u8>>,
    b: int,
    cs: Seq<usize>,
    ks: Seq<Seq<u8>>,
    h: nat,
    lo: Option<Seq<u8>>,
    hi: Option<Seq<u8>>,
)
    requires
        children_wf(pages, b, cs, ks, h, lo, hi),
        keys_strictly_sorted(ks),
        forall|i: int| 0 <= i < ks.len() ==> in_range(lo, #[trigger] ks[i], hi),
    ensures
        forall|pv: PairView|
            children_kvs(pages, cs, h).contains(pv) ==> in_range(lo, pv.key, hi),
    decreases h, 2int, cs.len(),
{
    if cs.len() == 1 && ks.len() == 0 {
        assert(child_wf(pages, b, cs[0], h, lo, hi));
        let nv = node_at(pages, cs[0])->Some_0;
        assert(node_wf(pages, b, nv, h, lo, hi, false));
        lemma_node_kvs_in_range(pages, b, nv, h, lo, hi, false);
        assert forall|pv: PairView|
            children_kvs(pages, cs, h).contains(pv) implies in_range(lo, pv.key, hi) by {
            assert(children_kvs(pages, cs.drop_first(), h) == Multiset::<PairView>::empty());
            assert(child_kvs(pages, cs[0], h).contains(pv));
            assert(node_kvs(pages, nv, h).contains(pv));
        }
    } else {
        assert(child_wf(pages, b, cs[0], h, lo, Some(ks[0])));
        let nv = node_at(pages, cs[0])->Some_0;
        assert(node_wf(pages, b, nv, h, lo, Some(ks[0]), false));
        lemma_node_kvs_in_range(pages, b, nv, h, lo, Some(ks[0]), false);
        assert forall|i: int|
            0 <= i < ks.drop_first().len() implies in_range(
            Some(ks[0]),
            #[trigger] ks.drop_first()[i],
            hi,
        ) by {
            assert(ks.drop_first()[i] == ks[i + 1]);
            assert(lex_lt(ks[0], ks[i + 1]));
            assert(in_range(lo, ks[i + 1], hi));
        }
        lemma_children_kvs_in_range(
            pages,
            b,
            cs.drop_first(),
            ks.drop_first(),
            h,
            Some(ks[0]),
            hi,
        );
        assert(in_range(lo, ks[0], hi));
        assert forall|pv: PairView|
            children_kvs(pages, cs, h).contains(pv) implies in_range(lo, pv.key, hi) by {
            if child_kvs(pages, cs[0], h).contains(pv) {
                assert(node_kvs(pages, nv, h).contains(pv));
                assert(in_range(lo, pv.key, Some(ks[0])));
                match hi {
                    Some(hh) => {
                        lemma_lex_le_trans(pv.key, ks[0], hh);
                    },
                    None => {},
                }
            } else {
                assert(children_kvs(pages, cs.drop_first(), h).contains(pv));
                assert(in_range(Some(ks[0]), pv.key, hi));
                match lo {
                    Some(ll) => {
                        lemma_lex_trans(ll, ks[0], pv.key);
                    },
                    None => {},
                }
            }
        }
    }
}

/// Every record in a well-formed subtree has its key inside the subtree's
/// interval.
proof fn lemma_node_kvs_in_range(
    pages: Seq<Seq<u8>>,
    b: int,
    nv: NodeView,
    h: nat,
    lo: Option<Seq<u8>>,
    hi: Option<Seq<u8>>,
    root: bool,
)
    requires
        node_wf(pages, b, nv, h, lo, hi, root),
    ensures
        forall|pv: PairView| node_kvs(pages, nv, h).contains(pv) ==> in_range(lo, pv.key, hi),
    decreases h, 0int, 0int,
{
    broadcast use vstd::seq_lib::group_to_multiset_ensures;

    match nv.node_type {
        NodeTypeView::Leaf(ps) => {
            assert forall|pv: PairView|
                node_kvs(pages, nv, h).contains(pv) implies in_range(lo, pv.key, hi) by {
                assert(ps.to_multiset().contains(pv));
                assert(ps.to_multiset().count(pv) > 0);
                assert(ps.contains(pv));
                let i = choose|i: int| 0 <= i < ps.len() && ps[i] == pv;
                assert(in_range(lo, ps[i].key, hi));
            }
        },
        NodeTypeView::Internal(cs, ks) => {
            lemma_children_kvs_in_range(pages, b, cs, ks, (h - 1) as nat, lo, hi);
            assert forall|pv: PairView|
                node_kvs(pages, nv, h).contains(pv) implies in_range(lo, pv.key, hi) by {
                assert(children_kvs(pages, cs, (h - 1) as nat).contains(pv));
            }
        },
        NodeTypeView::Unexpected => {},
    }
}

/// Every offset a well-formed row of children occupies is aligned and in
/// bounds.
proof fn lemma_children_offs_valid(
    pages: Seq<Seq<u8>>,
    b: int,
    cs: Seq<usize>,
    ks: Seq<Seq<u8>>,
    h: nat,
    lo: Option<Seq<u8>>,
    hi: Option<Seq<u8>>,
)
    requires
        children_wf(pages, b, cs, ks, h, lo, hi),
    ensures
        forall|o: usize|
            children_offs(pages, cs, h).contains(o) ==> o % PAGE_SIZE == 0 && (o as int
                / PAGE_SIZE as int) < pages.len(),
    decreases h, 2int, cs.len(),
{
    if cs.len() == 1 && ks.len() == 0 {
        lemma_child_offs_valid(pages, b, cs[0], h, lo, hi);
        assert forall|o: usize|
            children_offs(pages, cs, h).contains(o) implies o % PAGE_SIZE == 0 && (o as int
            / PAGE_SIZE as int) < pages.len() by {
            assert(children_offs(pages, cs.drop_first(), h) == Set::<usize>::empty());
            assert(child_offs(pages, cs[0], h).contains(o));
        }
    } else if cs.len() >= 2 && ks.len() == cs.len() - 1 {
        lemma_child_offs_valid(pages, b, cs[0], h, lo, Some(ks[0]));
        lemma_children_offs_valid(pages, b, cs.drop_first(), ks.drop_first(), h, Some(ks[0]), hi);
        assert forall|o: usize|
            children_offs(pages, cs, h).contains(o) implies o % PAGE_SIZE == 0 && (o as int
            / PAGE_SIZE as int) < pages.len() by {
            if child_offs(pages, cs[0], h).contains(o) {
            } else {
                assert(children_offs(pages, cs.drop_first(), h).contains(o));
            }
        }
    }
}

/// Every offset a well-formed subtree occupies is aligned and in bounds.
proof fn lemma_child_offs_valid(
    pages: Seq<Seq<u8>>,
    b: int,
    off: usize,
    h: nat,
    lo: Option<Seq<u8>>,
    hi: Option<Seq<u8>>,
)
    requires
        child_wf(pages, b, off, h, lo, hi),
    ensures
        forall|o: usize|
            child_offs(pages, off, h).contains(o) ==> o % PAGE_SIZE == 0 && (o as int
                / PAGE_SIZE as int) < pages.len(),
    decreases h, 0int, 0int,
{
    assert(node_at(pages, off) is Some);
    assert(off % PAGE_SIZE == 0 && (off as int / PAGE_SIZE as int) < pages.len());
    let nv = node_at(pages, off)->Some_0;
    match nv.node_type {
        NodeTypeView::Internal(cs, ks) => {
            lemma_children_offs_valid(pages, b, cs, ks, (h - 1) as nat, lo, hi);
            assert forall|o: usize|
                child_offs(pages, off, h).contains(o) implies o % PAGE_SIZE == 0 && (o as int
                / PAGE_SIZE as int) < pages.len() by {
                if o != off {
                    assert(node_offs(pages, nv, h).contains(o));
                    assert(children_offs(pages, cs, (h - 1) as nat).contains(o));
                }
            }
        },
        _ => {
            assert forall|o: usize|
                child_offs(pages, off, h).contains(o) implies o % PAGE_SIZE == 0 && (o as int
                / PAGE_SIZE as int) < pages.len() by {
                assert(node_offs(pages, nv, h) == Set::<usize>::empty());
                assert(o == off);
            }
        },
    }
}

/// A row of children is unaffected by changes to pages outside its offsets.
proof fn lemma_children_frame(
    p1: Seq<Seq<u8>>,
    p2: Seq<Seq<u8>>,
    b: int,
    cs: Seq<usize>,
    ks: Seq<Seq<u8>>,
    h: nat,
    lo: Option<Seq<u8>>,
    hi: Option<Seq<u8>>,
)
    requires
        children_wf(p1, b, cs, ks, h, lo, hi),
        forall|o: usize|
            children_offs(p1, cs, h).contains(o) ==> (o as int / PAGE_SIZE as int) < p2.len()
                && p2[o as int / PAGE_SIZE as int] == p1[o as int / PAGE_SIZE as int],
    ensures
        children_wf(p2, b, cs, ks, h, lo, hi),
        children_kvs(p2, cs, h) == children_kvs(p1, cs, h),
        children_offs(p2, cs, h) == children_offs(p1, cs, h),
    decreases h, 2int, cs.len(),
{
    if cs.len() == 1 && ks.len() == 0 {
        assert forall|o: usize| #[trigger] child_offs(p1, cs[0], h).contains(o) implies (o as int
            / PAGE_SIZE as int) < p2.len() && p2[o as int / PAGE_SIZE as int] == p1[o as int
            / PAGE_SIZE as int] by {
            assert(children_offs(p1, cs, h).contains(o));
        }
        lemma_child_frame(p1, p2, b, cs[0], h, lo, hi);
        assert(children_kvs(p1, cs.drop_first(), h) == Multiset::<PairView>::empty());
        assert(children_kvs(p2, cs.drop_first(), h) == Multiset::<PairView>::empty());
        assert(children_kvs(p2, cs, h) =~= children_kvs(p1, cs, h));
        assert(children_offs(p1, cs.drop_first(), h) == Set::<usize>::empty());
        assert(children_offs(p2, cs.drop_first(), h) == Set::<usize>::empty());
        assert(children_offs(p2, cs, h) =~= children_offs(p1, cs, h));
    } else if cs.len() >= 2 && ks.len() == cs.len() - 1 {
        assert forall|o: usize| #[trigger] child_offs(p1, cs[0], h).contains(o) implies (o as int
            / PAGE_SIZE as int) < p2.len() && p2[o as int / PAGE_SIZE as int] == p1[o as int
            / PAGE_SIZE as int] by {
            assert(children_offs(p1, cs, h).contains(o));
        }
        lemma_child_frame(p1, p2, b, cs[0], h, lo, Some(ks[0]));
        assert forall|o: usize|
            #[trigger] children_offs(p1, cs.drop_first(), h).contains(o) implies (o as int
            / PAGE_SIZE as int) < p2.len() && p2[o as int / PAGE_SIZE as int] == p1[o as int
            / PAGE_SIZE as int] by {
            assert(children_offs(p1, cs, h).contains(o));
        }
        lemma_children_frame(p1, p2, b, cs.drop_first(), ks.drop_first(), h, Some(ks[0]), hi);
        assert(children_kvs(p2, cs, h) =~= children_kvs(p1, cs, h));
        assert(children_offs(p2, cs, h) =~= children_offs(p1, cs, h));
    }
}

/// A subtree is unaffected by changes to pages outside its offsets.
proof fn lemma_child_frame(
    p1: Seq<Seq<u8>>,
    p2: Seq<Seq<u8>>,
    b: int,
    off: usize,
    h: nat,
    lo: Option<Seq<u8>>,
    hi: Option<Seq<u8>>,
)
    requires
        child_wf(p1, b, off, h, lo, hi),
        forall|o: usize|
            child_offs(p1, off, h).contains(o) ==> (o as int / PAGE_SIZE as int) < p2.len()
                && p2[o as int / PAGE_SIZE as int] == p1[o as int / PAGE_SIZE as int],
    ensures
        child_wf(p2, b, off, h, lo, hi),
        child_kvs(p2, off, h) == child_kvs(p1, off, h),
        child_offs(p2, off, h) == child_offs(p1, off, h),
    decreases h, 0int, 0int,
{
    assert(child_offs(p1, off, h).contains(off));
    assert(node_at(p2, off) == node_at(p1, off));
    let nv = node_at(p1, off)->Some_0;
    match nv.node_type {
        NodeTypeView::Internal(cs, ks) => {
            assert forall|o: usize|
                #[trigger] children_offs(p1, cs, (h - 1) as nat).contains(o) implies (o as int
                / PAGE_SIZE as int) < p2.len() && p2[o as int / PAGE_SIZE as int] == p1[o as int
                / PAGE_SIZE as int] by {
                assert(node_offs(p1, nv, h).contains(o));
                assert(child_offs(p1, off, h).contains(o));
            }
            lemma_children_frame(p1, p2, b, cs, ks, (h - 1) as nat, lo, hi);
            assert(child_offs(p2, off, h) =~= child_offs(p1, off, h));
        },
        NodeTypeView::Leaf(ps) => {
            assert(node_offs(p1, nv, h) == Set::<usize>::empty());
            assert(node_offs(p2, nv, h) == Set::<usize>::empty());
            assert(child_offs(p2, off, h) =~= child_offs(p1, off, h));
        },
        NodeTypeView::Unexpected => {},
    }
}


/// Picking the child whose interval holds `k`: every separator left of
/// `idx` is below `k`, and `k` is at most the separator at `idx`. The child
/// at `idx` is well-formed over its own interval, `k` lies in that interval,
/// and a record keyed `k` lies in the row exactly when it lies in that
/// child.
proof fn lemma_pick_child(
    pages: Seq<Seq<u8>>,
    b: int,
    cs: Seq<usize>,
    ks: Seq<Seq<u8>>,
    h: nat,
    lo: Option<Seq<u8>>,
    hi: Option<Seq<u8>>,
    k: Seq<u8>,
    idx: int,
)
    requires
        children_wf(pages, b, cs, ks, h, lo, hi),
        keys_strictly_sorted(ks),
        forall|i: int| 0 <= i < ks.len() ==> in_range(lo, #[trigger] ks[i], hi),
        in_range(lo, k, hi),
        0 <= idx <= ks.len(),
        forall|j: int| 0 <= j < idx ==> lex_lt(#[trigger] ks[j], k),
        idx < ks.len() ==> lex_le(k, ks[idx]),
    ensures
        child_wf(pages, b, cs[idx], h, lo_of(ks, lo, idx), hi_of(ks, hi, idx)),
        in_range(lo_of(ks, lo, idx), k, hi_of(ks, hi, idx)),
        forall|pv: PairView|
            children_kvs(pages, cs, h).contains(pv) && pv.key == k ==> child_kvs(
                pages,
                cs[idx],
                h,
            ).contains(pv),
        forall|pv: PairView|
            child_kvs(pages, cs[idx], h).contains(pv) ==> children_kvs(pages, cs, h).contains(pv),
    decreases cs.len(),
{
    if cs.len() == 1 && ks.len() == 0 {
        assert(cs[idx] == cs[0]);
        assert(children_kvs(pages, cs.drop_first(), h) == Multiset::<PairView>::empty());
        assert(children_kvs(pages, cs, h) =~= child_kvs(pages, cs[0], h));
    } else if idx == 0 {
        assert(child_wf(pages, b, cs[0], h, lo, Some(ks[0])));
        let nv = node_at(pages, cs[0])->Some_0;
        assert forall|i: int|
            0 <= i < ks.drop_first().len() implies in_range(
            Some(ks[0]),
            #[trigger] ks.drop_first()[i],
            hi,
        ) by {
            assert(ks.drop_first()[i] == ks[i + 1]);
            assert(lex_lt(ks[0], ks[i + 1]));
            assert(in_range(lo, ks[i + 1], hi));
        }
        lemma_children_kvs_in_range(
            pages,
            b,
            cs.drop_first(),
            ks.drop_first(),
            h,
            Some(ks[0]),
            hi,
        );
        assert forall|pv: PairView|
            children_kvs(pages, cs, h).contains(pv) && pv.key == k implies child_kvs(
            pages,
            cs[0],
            h,
        ).contains(pv) by {
            if children_kvs(pages, cs.drop_first(), h).contains(pv) {
                assert(lex_lt(ks[0], pv.key));
                lemma_lex_asym(ks[0], pv.key);
                lemma_lex_asym(k, ks[0]);
            }
        }
        assert forall|pv: PairView|
            child_kvs(pages, cs[idx], h).contains(pv) implies children_kvs(
            pages,
            cs,
            h,
        ).contains(pv) by {
            assert(children_kvs(pages, cs, h).count(pv) >= child_kvs(pages, cs[0], h).count(pv));
        }
    } else {
        assert(child_wf(pages, b, cs[0], h, lo, Some(ks[0])));
        let nv0 = node_at(pages, cs[0])->Some_0;
        lemma_node_kvs_in_range(pages, b, nv0, h, lo, Some(ks[0]), false);
        assert forall|i: int|
            0 <= i < ks.drop_first().len() implies in_range(
            Some(ks[0]),
            #[trigger] ks.drop_first()[i],
            hi,
        ) by {
            assert(ks.drop_first()[i] == ks[i + 1]);
            assert(lex_lt(ks[0], ks[i + 1]));
            assert(in_range(lo, ks[i + 1], hi));
        }
        assert(in_range(Some(ks[0]), k, hi));
        assert forall|j: int| 0 <= j < idx - 1 implies lex_lt(
            #[trigger] ks.drop_first()[j],
            k,
        ) by {
            assert(ks.drop_first()[j] == ks[j + 1]);
        }
        assert(idx - 1 < ks.drop_first().len() ==> lex_le(k, ks.drop_first()[idx - 1]));
        lemma_pick_child(
            pages,
            b,
            cs.drop_first(),
            ks.drop_first(),
            h,
            Some(ks[0]),
            hi,
            k,
            idx - 1,
        );
        assert(cs.drop_first()[idx - 1] == cs[idx]);
        assert(lo_of(ks.drop_first(), Some(ks[0]), idx - 1) == lo_of(ks, lo, idx));
        assert(hi_of(ks.drop_first(), hi, idx - 1) == hi_of(ks, hi, idx));
        assert forall|pv: PairView|
            children_kvs(pages, cs, h).contains(pv) && pv.key == k implies child_kvs(
            pages,
            cs[idx],
            h,
        ).contains(pv) by {
            if child_kvs(pages, cs[0], h).contains(pv) {
                assert(node_kvs(pages, nv0, h).contains(pv));
                assert(in_range(lo, pv.key, Some(ks[0])));
                assert(lex_le(pv.key, ks[0]));
                assert(lex_lt(ks[0], k));
                lemma_lex_trans(pv.key, ks[0], k);
                lemma_lex_asym(pv.key, k);
            } else {
                assert(children_kvs(pages, cs.drop_first(), h).contains(pv));
            }
        }
        assert forall|pv: PairView|
            child_kvs(pages, cs[idx], h).contains(pv) implies children_kvs(
            pages,
            cs,
            h,
        ).contains(pv) by {
            assert(children_kvs(pages, cs.drop_first(), h).contains(pv));
            assert(children_kvs(pages, cs, h).count(pv) >= children_kvs(
                pages,
                cs.drop_first(),
                h,
            ).count(pv));
        }
    }
}

/// The store: a pager holding the pages, the branching parameter, and the
/// log naming the current root.
pub struct BTree {
    pager: Pager,
    b: usize,
    wal: Wal,
    ht: Ghost<nat>,
}

/// The root subtree stored at `off`: decodes, and is well-formed with the
/// relaxed root entry minimum over the unbounded interval.
pub open spec fn root_wf(pages: Seq<Seq<u8>>, b: int, off: usize, h: nat) -> bool {
    match node_at(pages, off) {
        Some(nv) => node_wf(pages, b, nv, h, None, None, true),
        None => false,
    }
}

impl BTree {
    /// The pager is consistent and the branching parameter workable.
    pub closed spec fn env_wf(&self) -> bool {
        &&& self.pager.wf()
        &&& 2 <= self.b
        &&& self.b <= usize::MAX / 2
    }

    /// The invariant of the store: the log is non-empty and its last record
    /// names a well-formed root subtree of height `ht`. Since every level of
    /// that subtree sits exactly one step below its parent, all leaves are
    /// at the same depth.
    pub closed spec fn inv(&self) -> bool {
        &&& self.env_wf()
        &&& self.wal@.len() >= 1
        &&& root_wf(self.pager@, self.b as int, self.wal@.last(), self.ht@)
    }

    /// The records the tree currently holds, as a multiset of key-value
    /// byte pairs.
    pub closed spec fn kvs(&self) -> Multiset<PairView> {
        child_kvs(self.pager@, self.wal@.last(), self.ht@)
    }

    /// The height of the tree: the number of internal levels above the
    /// leaves.
    pub closed spec fn height(&self) -> nat {
        self.ht@
    }

    /// The branching parameter.
    pub closed spec fn b_param(&self) -> int {
        self.b as int
    }

    /// Some record with key `k` is in the tree.
    pub open spec fn contains_key(&self, k: Seq<u8>) -> bool {
        exists|pv: PairView| self.kvs().contains(pv) && pv.key == k
    }

    /// The store cannot take one more page without passing the address
    /// space's cap.
    pub closed spec fn store_at_cap(&self) -> bool {
        self.pager@.len() * PAGE_SIZE + PAGE_SIZE > usize::MAX
    }

    /// The store holds a node that inserting `kvv` could not rewrite within
    /// one page: a leaf too full for the pair, or a parent too full for the
    /// median a full child would promote.
    pub closed spec fn oversize_blocked(&self, kvv: PairView) -> bool {
        oversized_rewrite(self.pager@, self.b as int, kvv)
    }

    /// The root node holds the full `2b - 1` entries.
    pub closed spec fn root_full(&self) -> bool {
        match node_at(self.pager@, self.wal@.last()) {
            Some(nv) => is_full(nv.node_type, self.b as int),
            None => false,
        }
    }
}



/// The byte sequences of a run of keys.
pub open spec fn key_views(keys: Seq<Key>) -> Seq<Seq<u8>> {
    keys.map_values(|x: Key| x@)
}

/// The mathematical values of a run of pairs.
pub open spec fn pair_views(ps: Seq<KeyValuePair>) -> Seq<PairView> {
    ps.map_values(|p: KeyValuePair| p@)
}

/// The first position among sorted keys whose key is at least `k`
/// (byte-lexicographically), or the length when every key is below `k`.
fn lower_bound_keys(keys: &Vec<Key>, k: &str) -> (idx: usize)
    requires
        keys_strictly_sorted(key_views(keys@)),
    ensures
        0 <= idx <= keys@.len(),
        forall|j: int| 0 <= j < idx ==> lex_lt(#[trigger] key_views(keys@)[j], encode_utf8(k@)),
        idx < keys@.len() ==> lex_le(encode_utf8(k@), key_views(keys@)[idx as int]),
{
    let ghost ks = key_views(keys@);
    let ghost kk = encode_utf8(k@);
    let mut lo: usize = 0;
    let mut hi: usize = keys.len();
    while lo < hi
        invariant
            0 <= lo <= hi <= ks.len(),
            ks == key_views(keys@),
            kk == encode_utf8(k@),
            keys_strictly_sorted(ks),
            forall|j: int| 0 <= j < lo ==> lex_lt(#[trigger] ks[j], kk),
            forall|j: int| hi <= j < ks.len() ==> lex_le(kk, #[trigger] ks[j]),
        decreases hi - lo,
    {
        let mid = lo + (hi - lo) / 2;
        if crate::node_type::str_lt(keys[mid].0.as_str(), k) {
            proof {
                assert(lex_lt(ks[mid as int], kk));
                assert forall|j: int| 0 <= j < mid + 1 implies lex_lt(#[trigger] ks[j], kk) by {
                    if j < mid {
                        lemma_lex_trans(ks[j], ks[mid as int], kk);
                    }
                }
            }
            lo = mid + 1;
        } else {
            proof {
                lemma_lex_total(kk, ks[mid as int]);
                assert(lex_le(kk, ks[mid as int]));
                assert forall|j: int| mid <= j < ks.len() implies lex_le(kk, #[trigger] ks[j]) by {
                    if j > mid {
                        assert(lex_lt(ks[mid as int], ks[j]));
                        lemma_lex_trans(kk, ks[mid as int], ks[j]);
                    }
                }
            }
            hi = mid;
        }
    }
    lo
}

/// The first position among sorted pairs whose key is at least `k`
/// (byte-lexicographically), or the length when every key is below `k`.
fn lower_bound_pairs(pairs: &Vec<KeyValuePair>, k: &str) -> (idx: usize)
    requires
        pairs_strictly_sorted(pair_views(pairs@)),
    ensures
        0 <= idx <= pairs@.len(),
        forall|j: int|
            0 <= j < idx ==> lex_lt(#[trigger] pair_views(pairs@)[j].key, encode_utf8(k@)),
        idx < pairs@.len() ==> lex_le(encode_utf8(k@), pair_views(pairs@)[idx as int].key),
{
    let ghost ps = pair_views(pairs@);
    let ghost kk = encode_utf8(k@);
    let mut lo: usize = 0;
    let mut hi: usize = pairs.len();
    while lo < hi
        invariant
            0 <= lo <= hi <= ps.len(),
            ps == pair_views(pairs@),
            kk == encode_utf8(k@),
            pairs_strictly_sorted(ps),
            forall|j: int| 0 <= j < lo ==> lex_lt(#[trigger] ps[j].key, kk),
            forall|j: int| hi <= j < ps.len() ==> lex_le(kk, #[trigger] ps[j].key),
        decreases hi - lo,
    {
        let mid = lo + (hi - lo) / 2;
        if crate::node_type::str_lt(pairs[mid].key.as_str(), k) {
            proof {
                assert(lex_lt(ps[mid as int].key, kk));
                assert forall|j: int| 0 <= j < mid + 1 implies lex_lt(
                    #[trigger] ps[j].key,
                    kk,
                ) by {
                    if j < mid {
                        lemma_lex_trans(ps[j].key, ps[mid as int].key, kk);
                    }
                }
            }
            lo = mid + 1;
        } else {
            proof {
                lemma_lex_total(kk, ps[mid as int].key);
                assert(lex_le(kk, ps[mid as int].key));
                assert forall|j: int| mid <= j < ps.len() implies lex_le(
                    kk,
                    #[trigger] ps[j].key,
                ) by {
                    if j > mid {
                        assert(lex_lt(ps[mid as int].key, ps[j].key));
                        lemma_lex_trans(kk, ps[mid as int].key, ps[j].key);
                    }
                }
            }
            hi = mid;
        }
    }
    lo
}

/// A builder for the store: a backing path and the branching parameter.
pub struct BTreeBuilder {
    path: &'static str,
    b: usize,
}

impl BTreeBuilder {
    /// The configured path.
    pub closed spec fn spec_path(&self) -> Seq<char> {
        self.path@
    }

    /// The configured branching parameter.
    pub closed spec fn spec_b(&self) -> int {
        self.b as int
    }

    pub fn new() -> (r: BTreeBuilder)
        ensures
            r.spec_path().len() == 0,
            r.spec_b() == 0,
    {
        proof {
            reveal_strlit("");
        }
        BTreeBuilder { path: "", b: 0 }
    }

    pub fn path(self, path: &'static str) -> (r: BTreeBuilder)
        ensures
            r.spec_path() == path@,
            r.spec_b() == self.spec_b(),
    {
        BTreeBuilder { path, b: self.b }
    }

    pub fn b_parameter(self, b: usize) -> (r: BTreeBuilder)
        ensures
            r.spec_b() == b as int,
            r.spec_path() == self.spec_path(),
    {
        BTreeBuilder { path: self.path, b }
    }

    /// Opens a fresh store: one empty leaf root page, and one log record
    /// naming it. Fails with `UnexpectedError` exactly when the path is
    /// empty or the branching parameter is unusable: below two, the tree
    /// invariants make no sense, and above `usize::MAX / 2` the node
    /// capacity `2b - 1` cannot even be computed.
    pub fn build(&self) -> (r: Result<BTree, Error>)
        ensures
            match r {
                Ok(t) => {
                    &&& self.spec_path().len() > 0
                    &&& 2 <= self.spec_b() <= usize::MAX as int / 2
                    &&& t.inv()
                    &&& t.kvs() == Multiset::<PairView>::empty()
                    &&& t.height() == 0
                    &&& t.b_param() == self.spec_b()
                },
                Err(e) => {
                    &&& e == Error::UnexpectedError
                    &&& (self.spec_path().len() == 0 || self.spec_b() < 2 || self.spec_b()
                        > usize::MAX as int / 2)
                },
            },
    {
        if self.path.is_empty() {
            return Err(Error::UnexpectedError);
        }
        if self.b < 2 || self.b > usize::MAX / 2 {
            return Err(Error::UnexpectedError);
        }
        let mut pager = Pager::new();
        let root = Node::new(NodeType::Leaf(Vec::new()), true, None);
        proof {
            assert(root@.node_type->Leaf_0 =~= Seq::<PairView>::empty());
            assert(crate::page::enc_pairs(root@.node_type->Leaf_0) == Seq::<u8>::empty());
            assert(enc_node(root@).len() == 18);
        }
        let page = match root.encode() {
            Ok(p) => p,
            Err(e) => {
                proof {
                    assert(false);
                }
                return Err(e);
            },
        };
        let root_offset = match pager.write_page(page) {
            Ok(o) => o,
            Err(e) => {
                proof {
                    assert(false);
                }
                return Err(e);
            },
        };
        let mut wal = Wal::new();
        match wal.set_root(root_offset) {
            Ok(_) => {},
            Err(e) => {
                return Err(e);
            },
        };
        let tree = BTree { pager, b: self.b, wal, ht: Ghost(0nat) };
        proof {
            let nv = root@;
            crate::page::lemma_decode_encode(nv);
            assert(tree.pager@[0] == spec_page_of(nv));
            assert(node_at(tree.pager@, 0) == Some(nv));
            assert(tree.wal@.last() == 0);
            assert(node_wf(tree.pager@, tree.b as int, nv, 0, None, None, true));
            broadcast use vstd::seq_lib::group_to_multiset_ensures;

            assert forall|pv: PairView|
                Seq::<PairView>::empty().to_multiset().count(pv) == 0 by {
                if Seq::<PairView>::empty().to_multiset().count(pv) > 0 {
                    assert(Seq::<PairView>::empty().contains(pv));
                }
            }
            assert(Seq::<PairView>::empty().to_multiset() =~= Multiset::<PairView>::empty());
            assert(tree.kvs() == Multiset::<PairView>::empty());
        }
        Ok(tree)
    }
}

impl Default for BTreeBuilder {
    /// A builder with the branching parameter set to 200 and the path set to
    /// `/tmp/db`.
    fn default() -> (r: Self)
        ensures
            r.spec_b() == 200,
            r.spec_path() == "/tmp/db"@,
    {
        BTreeBuilder::new().b_parameter(200).path("/tmp/db")
    }
}


/// A subtree well-formed under the strict entry minimum also meets the
/// relaxed one.
proof fn lemma_wf_relax_root(
    pages: Seq<Seq<u8>>,
    b: int,
    nv: NodeView,
    h: nat,
    lo: Option<Seq<u8>>,
    hi: Option<Seq<u8>>,
)
    requires
        node_wf(pages, b, nv, h, lo, hi, false),
        b >= 2,
    ensures
        node_wf(pages, b, nv, h, lo, hi, true),
{
}

impl BTree {
    /// Searches the subtree rooted at the in-memory `node` for `search`.
    fn search_node(
        &self,
        node: Node,
        search: &str,
        Ghost(h): Ghost<nat>,
        Ghost(lo): Ghost<Option<Seq<u8>>>,
        Ghost(hi): Ghost<Option<Seq<u8>>>,
    ) -> (r: Result<KeyValuePair, Error>)
        requires
            self.env_wf(),
            node_wf(self.pager@, self.b_param(), node@, h, lo, hi, true),
            in_range(lo, encode_utf8(search@), hi),
        ensures
            match r {
                Ok(p) => node_kvs(self.pager@, node@, h).contains(p@) && p@.key == encode_utf8(
                    search@,
                ),
                Err(e) => e == Error::KeyNotFound && (forall|pv: PairView|
                    node_kvs(self.pager@, node@, h).contains(pv) ==> pv.key != encode_utf8(
                        search@,
                    )),
            },
        decreases h,
    {
        let ghost pages = self.pager@;
        let ghost kk = encode_utf8(search@);
        match node.node_type {
            NodeType::Leaf(pairs) => {
                let idx = lower_bound_pairs(&pairs, search);
                let ghost ps = pair_views(pairs@);
                if idx < pairs.len() {
                    if !crate::node_type::str_lt(search, pairs[idx].key.as_str()) {
                        proof {
                            broadcast use vstd::seq_lib::group_to_multiset_ensures;

                            lemma_lex_total(kk, ps[idx as int].key);
                            assert(ps[idx as int].key == kk);
                            assert(ps[idx as int] == pairs@[idx as int]@);
                            assert(ps.contains(ps[idx as int]));
                            assert(ps.to_multiset().count(ps[idx as int]) > 0);
                        }
                        return Ok(pairs[idx].duplicate());
                    }
                }
                proof {
                    broadcast use vstd::seq_lib::group_to_multiset_ensures;

                    assert forall|pv: PairView|
                        node_kvs(pages, node@, h).contains(pv) implies pv.key != kk by {
                        assert(ps.to_multiset().count(pv) > 0);
                        assert(ps.contains(pv));
                        let i = choose|i: int| 0 <= i < ps.len() && ps[i] == pv;
                        if i < idx {
                            assert(lex_lt(ps[i].key, kk));
                            lemma_lex_asym(ps[i].key, kk);
                        } else {
                            assert(idx < ps.len());
                            assert(lex_lt(kk, ps[idx as int].key));
                            if i > idx {
                                assert(lex_lt(ps[idx as int].key, ps[i].key));
                                lemma_lex_trans(kk, ps[idx as int].key, ps[i].key);
                            }
                            lemma_lex_asym(kk, ps[i].key);
                        }
                    }
                }
                Err(Error::KeyNotFound)
            },
            NodeType::Internal(children, keys) => {
                let idx = lower_bound_keys(&keys, search);
                let ghost cs = children@.map_values(|c: Offset| c.0);
                let ghost ks = key_views(keys@);
                let ghost clo = lo_of(ks, lo, idx as int);
                let ghost chi = hi_of(ks, hi, idx as int);
                proof {
                    lemma_pick_child(
                        pages,
                        self.b_param(),
                        cs,
                        ks,
                        (h - 1) as nat,
                        lo,
                        hi,
                        kk,
                        idx as int,
                    );
                }
                let child_off = children[idx];
                let page = match self.pager.get_page(&child_off) {
                    Ok(p) => p,
                    Err(e) => {
                        proof {
                            assert(false);
                        }
                        return Err(e);
                    },
                };
                let child = match Node::decode(&page) {
                    Ok(c) => c,
                    Err(e) => {
                        proof {
                            assert(false);
                        }
                        return Err(e);
                    },
                };
                proof {
                    assert(cs[idx as int] == children@[idx as int].0);
                    assert(node_at(pages, cs[idx as int]) == Some(child@));
                    lemma_wf_relax_root(pages, self.b_param(), child@, (h - 1) as nat, clo, chi);
                }
                let r = self.search_node(child, search, Ghost((h - 1) as nat), Ghost(clo), Ghost(chi));
                proof {
                    assert(child_kvs(pages, cs[idx as int], (h - 1) as nat) == node_kvs(
                        pages,
                        child@,
                        (h - 1) as nat,
                    ));
                    assert(node_kvs(pages, node@, h) == children_kvs(pages, cs, (h - 1) as nat));
                    match &r {
                        Ok(p) => {
                            assert(child_kvs(pages, cs[idx as int], (h - 1) as nat).contains(p@));
                        },
                        Err(_) => {
                            assert forall|pv: PairView|
                                node_kvs(pages, node@, h).contains(pv) implies pv.key != kk by {
                                if pv.key == kk {
                                    assert(child_kvs(
                                        pages,
                                        cs[idx as int],
                                        (h - 1) as nat,
                                    ).contains(pv));
                                }
                            }
                        },
                    }
                }
                r
            },
            NodeType::Unexpected => {
                proof {
                    assert(false);
                }
                Err(Error::UnexpectedError)
            },
        }
    }

    /// Searches the tree for `key`, returning the stored pair with that key.
    /// Fails with `KeyNotFound` exactly when no record with that key is in
    /// the tree. Search reads the current root from the log and walks down;
    /// it writes nothing, so two searches of the same key on the same tree
    /// return the same outcome.
    pub fn search(&self, key: String) -> (r: Result<KeyValuePair, Error>)
        requires
            self.inv(),
        ensures
            match r {
                Ok(p) => self.kvs().contains(p@) && p@.key == encode_utf8(key@),
                Err(e) => e == Error::KeyNotFound && !self.contains_key(encode_utf8(key@)),
            },
    {
        let root_offset = match self.wal.get_root_offset() {
            Ok(o) => o,
            Err(e) => {
                proof {
                    assert(false);
                }
                return Err(e);
            },
        };
        let root_page = match self.pager.get_page(&root_offset) {
            Ok(p) => p,
            Err(e) => {
                proof {
                    assert(false);
                }
                return Err(e);
            },
        };
        let root = match Node::decode(&root_page) {
            Ok(n) => n,
            Err(e) => {
                proof {
                    assert(false);
                }
                return Err(e);
            },
        };
        proof {
            assert(node_at(self.pager@, self.wal@.last()) == Some(root@));
        }
        let r = self.search_node(root, key.as_str(), Ghost(self.ht@), Ghost(None), Ghost(None));
        proof {
            assert(self.kvs() == node_kvs(self.pager@, root@, self.ht@));
            if r is Err {
                assert forall|pv: PairView|
                    !(self.kvs().contains(pv) && pv.key == encode_utf8(key@)) by {
                    if self.kvs().contains(pv) {
                        assert(node_kvs(self.pager@, root@, self.ht@).contains(pv));
                    }
                }
            }
        }
        r
    }
}


/// A concatenation holds the records of both halves.
proof fn lemma_to_multiset_append(s1: Seq<PairView>, s2: Seq<PairView>)
    ensures
        (s1 + s2).to_multiset() == s1.to_multiset().add(s2.to_multiset()),
    decreases s2.len(),
{
    broadcast use vstd::seq_lib::group_to_multiset_ensures;

    if s2.len() == 0 {
        assert(s1 + s2 =~= s1);
        assert forall|pv: PairView| s2.to_multiset().count(pv) == 0 by {
            if s2.to_multiset().count(pv) > 0 {
                assert(s2.contains(pv));
            }
        }
        assert((s1 + s2).to_multiset() =~= s1.to_multiset().add(s2.to_multiset()));
    } else {
        let s2h = s2.drop_last();
        let x = s2.last();
        lemma_to_multiset_append(s1, s2h);
        assert(s1 + s2 =~= (s1 + s2h).push(x));
        assert(s2 =~= s2h.push(x));
        assert((s1 + s2h).push(x).to_multiset() =~= (s1 + s2h).to_multiset().insert(x));
        assert(s2h.push(x).to_multiset() =~= s2h.to_multiset().insert(x));
        assert((s1 + s2).to_multiset() =~= s1.to_multiset().add(s2.to_multiset()));
    }
}

/// Inserting a fresh pair at its sorted position keeps a leaf's pairs
/// strictly increasing, inside the interval, and adds exactly that record.
proof fn lemma_pairs_insert(
    ps: Seq<PairView>,
    idx: int,
    pv: PairView,
    lo: Option<Seq<u8>>,
    hi: Option<Seq<u8>>,
)
    requires
        pairs_strictly_sorted(ps),
        forall|i: int| 0 <= i < ps.len() ==> in_range(lo, #[trigger] ps[i].key, hi),
        in_range(lo, pv.key, hi),
        0 <= idx <= ps.len(),
        forall|j: int| 0 <= j < idx ==> lex_lt(#[trigger] ps[j].key, pv.key),
        idx < ps.len() ==> lex_lt(pv.key, ps[idx].key),
    ensures
        pairs_strictly_sorted(ps.insert(idx, pv)),
        forall|i: int|
            0 <= i < ps.insert(idx, pv).len() ==> in_range(
                lo,
                #[trigger] ps.insert(idx, pv)[i].key,
                hi,
            ),
        ps.insert(idx, pv).to_multiset() == ps.to_multiset().insert(pv),
{
    broadcast use vstd::seq_lib::group_to_multiset_ensures;

    let ns = ps.insert(idx, pv);
    assert(ns.len() == ps.len() + 1);
    assert forall|i: int| 0 <= i < ns.len() implies (if i < idx {
        ns[i] == ps[i]
    } else if i == idx {
        ns[i] == pv
    } else {
        ns[i] == ps[i - 1]
    }) by {
        ps.insert_ensures(idx, pv);
    }
    assert forall|i: int, j: int| 0 <= i < j < ns.len() implies lex_lt(ns[i].key, ns[j].key) by {
        if i == idx && j > idx {
            if j - 1 > idx - 1 && idx < ps.len() {
                if j - 1 == idx {
                    assert(lex_lt(pv.key, ps[idx].key));
                } else {
                    lemma_lex_trans(pv.key, ps[idx].key, ps[j - 1].key);
                }
            }
        } else if j == idx && i < idx {
        } else if i < idx && j > idx {
            lemma_lex_trans(ps[i].key, pv.key, ps[j - 1].key);
        }
    }
    assert(ns =~= ps.take(idx) + (seq![pv] + ps.skip(idx)));
    assert(ps =~= ps.take(idx) + ps.skip(idx));
    lemma_to_multiset_append(ps.take(idx), seq![pv] + ps.skip(idx));
    lemma_to_multiset_append(seq![pv], ps.skip(idx));
    lemma_to_multiset_append(ps.take(idx), ps.skip(idx));
    assert(seq![pv] =~= Seq::<PairView>::empty().push(pv));
    assert(Seq::<PairView>::empty().push(pv).to_multiset() =~= Seq::<
        PairView,
    >::empty().to_multiset().insert(pv));
    assert forall|q: PairView| Seq::<PairView>::empty().to_multiset().count(q) == 0 by {
        if Seq::<PairView>::empty().to_multiset().count(q) > 0 {
            assert(Seq::<PairView>::empty().contains(q));
        }
    }
    assert(ns.to_multiset() =~= ps.to_multiset().insert(pv));
}

/// Splitting a row of children after separator `j` yields two well-formed
/// rows over the split intervals, holding the same records between them.
proof fn lemma_children_split(
    pages: Seq<Seq<u8>>,
    b: int,
    cs: Seq<usize>,
    ks: Seq<Seq<u8>>,
    h: nat,
    lo: Option<Seq<u8>>,
    hi: Option<Seq<u8>>,
    j: int,
)
    requires
        children_wf(pages, b, cs, ks, h, lo, hi),
        0 <= j < ks.len(),
    ensures
        children_wf(pages, b, cs.take(j + 1), ks.take(j), h, lo, Some(ks[j])),
        children_wf(pages, b, cs.skip(j + 1), ks.skip(j + 1), h, Some(ks[j]), hi),
        forall|pv: PairView|
            children_kvs(pages, cs, h).count(pv) == children_kvs(pages, cs.take(j + 1), h).count(
                pv,
            ) + children_kvs(pages, cs.skip(j + 1), h).count(pv),
        forall|o: usize|
            children_offs(pages, cs, h).contains(o) <==> (children_offs(
                pages,
                cs.take(j + 1),
                h,
            ).contains(o) || children_offs(pages, cs.skip(j + 1), h).contains(o)),
    decreases j,
{
    if j == 0 {
        assert(cs.take(1) =~= seq![cs[0]]);
        assert(ks.take(0) =~= Seq::<Seq<u8>>::empty());
        assert(cs.skip(1) =~= cs.drop_first());
        assert(ks.skip(1) =~= ks.drop_first());
        assert(cs.take(1).drop_first() =~= Seq::<usize>::empty());
        assert(children_wf(pages, b, cs.take(1), ks.take(0), h, lo, Some(ks[0])));
        assert forall|pv: PairView|
            children_kvs(pages, cs, h).count(pv) == children_kvs(pages, cs.take(1), h).count(pv)
                + children_kvs(pages, cs.skip(1), h).count(pv) by {
            assert(children_kvs(pages, cs.take(1), h) == child_kvs(pages, cs[0], h).add(
                children_kvs(pages, cs.take(1).drop_first(), h),
            ));
            assert(children_kvs(pages, cs.take(1).drop_first(), h) == Multiset::<
                PairView,
            >::empty());
        }
        assert forall|o: usize|
            children_offs(pages, cs, h).contains(o) <==> (children_offs(
                pages,
                cs.take(1),
                h,
            ).contains(o) || children_offs(pages, cs.skip(1), h).contains(o)) by {
            assert(children_offs(pages, cs.take(1), h) == child_offs(pages, cs[0], h).union(
                children_offs(pages, cs.take(1).drop_first(), h),
            ));
            assert(children_offs(pages, cs.take(1).drop_first(), h) == Set::<usize>::empty());
        }
    } else {
        let ct = cs.drop_first();
        let kt = ks.drop_first();
        lemma_children_split(pages, b, ct, kt, h, Some(ks[0]), hi, j - 1);
        assert(kt[j - 1] == ks[j]);
        assert(cs.take(j + 1)[0] == cs[0]);
        assert(cs.take(j + 1).drop_first() =~= ct.take(j));
        assert(ks.take(j)[0] == ks[0]);
        assert(ks.take(j).drop_first() =~= kt.take(j - 1));
        assert(cs.skip(j + 1) =~= ct.skip(j));
        assert(ks.skip(j + 1) =~= kt.skip(j));
        assert(children_wf(pages, b, cs.take(j + 1), ks.take(j), h, lo, Some(ks[j])));
        assert(children_wf(pages, b, cs.skip(j + 1), ks.skip(j + 1), h, Some(ks[j]), hi));
        assert forall|pv: PairView|
            children_kvs(pages, cs, h).count(pv) == children_kvs(pages, cs.take(j + 1), h).count(
            pv,
        ) + children_kvs(pages, cs.skip(j + 1), h).count(pv) by {
            assert(children_kvs(pages, cs, h) == child_kvs(pages, cs[0], h).add(
                children_kvs(pages, ct, h),
            ));
            assert(children_kvs(pages, cs.take(j + 1), h) == child_kvs(pages, cs[0], h).add(
                children_kvs(pages, ct.take(j), h),
            ));
        }
        assert forall|o: usize|
            children_offs(pages, cs, h).contains(o) <==> (children_offs(
            pages,
            cs.take(j + 1),
            h,
        ).contains(o) || children_offs(pages, cs.skip(j + 1), h).contains(o)) by {
            assert(children_offs(pages, cs, h) == child_offs(pages, cs[0], h).union(
                children_offs(pages, ct, h),
            ));
            assert(children_offs(pages, cs.take(j + 1), h) == child_offs(pages, cs[0], h).union(
                children_offs(pages, ct.take(j), h),
            ));
        }
    }
}


/// Replacing the child at position `j` with another well-formed subtree
/// over the same interval keeps the row well-formed; the records change by
/// swapping that child's records.
proof fn lemma_children_update(
    pages: Seq<Seq<u8>>,
    b: int,
    cs: Seq<usize>,
    ks: Seq<Seq<u8>>,
    h: nat,
    lo: Option<Seq<u8>>,
    hi: Option<Seq<u8>>,
    j: int,
    off2: usize,
)
    requires
        children_wf(pages, b, cs, ks, h, lo, hi),
        0 <= j < cs.len(),
        child_wf(pages, b, off2, h, lo_of(ks, lo, j), hi_of(ks, hi, j)),
    ensures
        children_wf(pages, b, cs.update(j, off2), ks, h, lo, hi),
        forall|pv: PairView|
            children_kvs(pages, cs.update(j, off2), h).count(pv) + child_kvs(
                pages,
                cs[j],
                h,
            ).count(pv) == children_kvs(pages, cs, h).count(pv) + child_kvs(
                pages,
                off2,
                h,
            ).count(pv),
        forall|o: usize|
            children_offs(pages, cs.update(j, off2), h).contains(o) ==> children_offs(
                pages,
                cs,
                h,
            ).contains(o) || child_offs(pages, off2, h).contains(o),
    decreases cs.len(),
{
    let ncs = cs.update(j, off2);
    if cs.len() == 1 && ks.len() == 0 {
        assert(ncs[0] == off2);
        assert(ncs.drop_first() =~= Seq::<usize>::empty());
        assert(cs.drop_first() =~= Seq::<usize>::empty());
        assert(children_wf(pages, b, ncs, ks, h, lo, hi));
        assert forall|pv: PairView|
            children_kvs(pages, ncs, h).count(pv) + child_kvs(pages, cs[j], h).count(pv)
                == children_kvs(pages, cs, h).count(pv) + child_kvs(pages, off2, h).count(pv) by {
            assert(children_kvs(pages, ncs, h) == child_kvs(pages, off2, h).add(
                children_kvs(pages, ncs.drop_first(), h),
            ));
            assert(children_kvs(pages, cs, h) == child_kvs(pages, cs[0], h).add(
                children_kvs(pages, cs.drop_first(), h),
            ));
        }
        assert forall|o: usize|
            children_offs(pages, ncs, h).contains(o) implies children_offs(
            pages,
            cs,
            h,
        ).contains(o) || child_offs(pages, off2, h).contains(o) by {
            assert(children_offs(pages, ncs, h) == child_offs(pages, off2, h).union(
                children_offs(pages, ncs.drop_first(), h),
            ));
            assert(children_offs(pages, ncs.drop_first(), h) == Set::<usize>::empty());
        }
    } else if j == 0 {
        assert(ncs[0] == off2);
        assert(ncs.drop_first() =~= cs.drop_first());
        assert(children_wf(pages, b, ncs, ks, h, lo, hi));
        assert forall|pv: PairView|
            children_kvs(pages, ncs, h).count(pv) + child_kvs(pages, cs[j], h).count(pv)
                == children_kvs(pages, cs, h).count(pv) + child_kvs(pages, off2, h).count(pv) by {
            assert(children_kvs(pages, ncs, h) == child_kvs(pages, off2, h).add(
                children_kvs(pages, cs.drop_first(), h),
            ));
            assert(children_kvs(pages, cs, h) == child_kvs(pages, cs[0], h).add(
                children_kvs(pages, cs.drop_first(), h),
            ));
        }
        assert forall|o: usize|
            children_offs(pages, ncs, h).contains(o) implies children_offs(
            pages,
            cs,
            h,
        ).contains(o) || child_offs(pages, off2, h).contains(o) by {
            assert(children_offs(pages, ncs, h) == child_offs(pages, off2, h).union(
                children_offs(pages, cs.drop_first(), h),
            ));
            assert(children_offs(pages, cs, h) == child_offs(pages, cs[0], h).union(
                children_offs(pages, cs.drop_first(), h),
            ));
        }
    } else {
        let ct = cs.drop_first();
        let kt = ks.drop_first();
        assert(lo_of(kt, Some(ks[0]), j - 1) == lo_of(ks, lo, j));
        assert(hi_of(kt, hi, j - 1) == hi_of(ks, hi, j));
        assert(ct[j - 1] == cs[j]);
        lemma_children_update(pages, b, ct, kt, h, Some(ks[0]), hi, j - 1, off2);
        assert(ncs[0] == cs[0]);
        assert(ncs.drop_first() =~= ct.update(j - 1, off2));
        assert(children_wf(pages, b, ncs, ks, h, lo, hi));
        assert forall|pv: PairView|
            children_kvs(pages, ncs, h).count(pv) + child_kvs(pages, cs[j], h).count(pv)
                == children_kvs(pages, cs, h).count(pv) + child_kvs(pages, off2, h).count(pv) by {
            assert(children_kvs(pages, ncs, h) == child_kvs(pages, cs[0], h).add(
                children_kvs(pages, ct.update(j - 1, off2), h),
            ));
            assert(children_kvs(pages, cs, h) == child_kvs(pages, cs[0], h).add(
                children_kvs(pages, ct, h),
            ));
        }
        assert forall|o: usize|
            children_offs(pages, ncs, h).contains(o) implies children_offs(
            pages,
            cs,
            h,
        ).contains(o) || child_offs(pages, off2, h).contains(o) by {
            assert(children_offs(pages, ncs, h) == child_offs(pages, cs[0], h).union(
                children_offs(pages, ct.update(j - 1, off2), h),
            ));
            assert(children_offs(pages, cs, h) == child_offs(pages, cs[0], h).union(
                children_offs(pages, ct, h),
            ));
        }
    }
}

/// Replacing the child at position `idx` by a split pair of children with
/// the median `m` promoted between them keeps the row well-formed over the
/// same interval; the records change by swapping the old child's records
/// for those of the two halves.
proof fn lemma_children_insert_split(
    pages: Seq<Seq<u8>>,
    b: int,
    cs: Seq<usize>,
    ks: Seq<Seq<u8>>,
    h: nat,
    lo: Option<Seq<u8>>,
    hi: Option<Seq<u8>>,
    idx: int,
    loff: usize,
    roff: usize,
    m: Seq<u8>,
)
    requires
        children_wf(pages, b, cs, ks, h, lo, hi),
        keys_strictly_sorted(ks),
        0 <= idx <= ks.len(),
        cs.len() == ks.len() + 1,
        child_wf(pages, b, loff, h, lo_of(ks, lo, idx), Some(m)),
        child_wf(pages, b, roff, h, Some(m), hi_of(ks, hi, idx)),
        above_lo(lo_of(ks, lo, idx), m),
        idx < ks.len() ==> lex_lt(m, ks[idx]),
        idx == ks.len() ==> within_hi(m, hi),
    ensures
        children_wf(
            pages,
            b,
            cs.update(idx, loff).insert(idx + 1, roff),
            ks.insert(idx, m),
            h,
            lo,
            hi,
        ),
        forall|pv: PairView|
            children_kvs(pages, cs.update(idx, loff).insert(idx + 1, roff), h).count(pv)
                + child_kvs(pages, cs[idx], h).count(pv) == children_kvs(pages, cs, h).count(pv)
                + child_kvs(pages, loff, h).count(pv) + child_kvs(pages, roff, h).count(pv),
        forall|o: usize|
            children_offs(pages, cs.update(idx, loff).insert(idx + 1, roff), h).contains(o)
                ==> children_offs(pages, cs, h).contains(o) || child_offs(
                pages,
                loff,
                h,
            ).contains(o) || child_offs(pages, roff, h).contains(o),
    decreases cs.len(),
{
    let ncs = cs.update(idx, loff).insert(idx + 1, roff);
    let nks = ks.insert(idx, m);
    if idx == 0 {
        assert(ncs =~= seq![loff, roff] + cs.drop_first());
        assert(nks =~= seq![m] + ks);
        assert(ncs[0] == loff && nks[0] == m);
        assert(ncs.drop_first() =~= seq![roff] + cs.drop_first());
        assert(nks.drop_first() =~= ks);
        let rrow = seq![roff] + cs.drop_first();
        assert(rrow[0] == roff);
        assert(rrow.drop_first() =~= cs.drop_first());
        if ks.len() == 0 {
            assert(rrow.len() == 1);
            assert(children_wf(pages, b, rrow, ks, h, Some(m), hi));
        } else {
            assert(children_wf(pages, b, rrow, ks, h, Some(m), hi));
        }
        assert(children_wf(pages, b, ncs, nks, h, lo, hi));
        assert forall|pv: PairView|
            children_kvs(pages, ncs, h).count(pv) + child_kvs(pages, cs[idx], h).count(pv)
                == children_kvs(pages, cs, h).count(pv) + child_kvs(pages, loff, h).count(pv)
                + child_kvs(pages, roff, h).count(pv) by {
            assert(children_kvs(pages, ncs, h) == child_kvs(pages, loff, h).add(
                children_kvs(pages, rrow, h),
            ));
            assert(children_kvs(pages, rrow, h) == child_kvs(pages, roff, h).add(
                children_kvs(pages, cs.drop_first(), h),
            ));
            assert(children_kvs(pages, cs, h) == child_kvs(pages, cs[0], h).add(
                children_kvs(pages, cs.drop_first(), h),
            ));
        }
        assert forall|o: usize|
            children_offs(pages, ncs, h).contains(o) implies children_offs(
            pages,
            cs,
            h,
        ).contains(o) || child_offs(pages, loff, h).contains(o) || child_offs(
            pages,
            roff,
            h,
        ).contains(o) by {
            assert(children_offs(pages, ncs, h) == child_offs(pages, loff, h).union(
                children_offs(pages, rrow, h),
            ));
            assert(children_offs(pages, rrow, h) == child_offs(pages, roff, h).union(
                children_offs(pages, cs.drop_first(), h),
            ));
            assert(children_offs(pages, cs, h) == child_offs(pages, cs[0], h).union(
                children_offs(pages, cs.drop_first(), h),
            ));
        }
    } else {
        let ct = cs.drop_first();
        let kt = ks.drop_first();
        assert(lo_of(kt, Some(ks[0]), idx - 1) == lo_of(ks, lo, idx));
        assert(hi_of(kt, hi, idx - 1) == hi_of(ks, hi, idx));
        assert(ct[idx - 1] == cs[idx]);
        assert(idx - 1 < kt.len() ==> kt[idx - 1] == ks[idx]);
        lemma_children_insert_split(
            pages,
            b,
            ct,
            kt,
            h,
            Some(ks[0]),
            hi,
            idx - 1,
            loff,
            roff,
            m,
        );
        assert(ncs[0] == cs[0]);
        assert(nks[0] == ks[0]);
        assert(ncs.drop_first() =~= ct.update(idx - 1, loff).insert(idx, roff));
        assert(nks.drop_first() =~= kt.insert(idx - 1, m));
        assert(children_wf(pages, b, ncs, nks, h, lo, hi));
        assert forall|pv: PairView|
            children_kvs(pages, ncs, h).count(pv) + child_kvs(pages, cs[idx], h).count(pv)
                == children_kvs(pages, cs, h).count(pv) + child_kvs(pages, loff, h).count(pv)
                + child_kvs(pages, roff, h).count(pv) by {
            assert(children_kvs(pages, ncs, h) == child_kvs(pages, cs[0], h).add(
                children_kvs(pages, ct.update(idx - 1, loff).insert(idx, roff), h),
            ));
            assert(children_kvs(pages, cs, h) == child_kvs(pages, cs[0], h).add(
                children_kvs(pages, ct, h),
            ));
        }
        assert forall|o: usize|
            children_offs(pages, ncs, h).contains(o) implies children_offs(
            pages,
            cs,
            h,
        ).contains(o) || child_offs(pages, loff, h).contains(o) || child_offs(
            pages,
            roff,
            h,
        ).contains(o) by {
            assert(children_offs(pages, ncs, h) == child_offs(pages, cs[0], h).union(
                children_offs(pages, ct.update(idx - 1, loff).insert(idx, roff), h),
            ));
            assert(children_offs(pages, cs, h) == child_offs(pages, cs[0], h).union(
                children_offs(pages, ct, h),
            ));
        }
    }
}



/// Two page-aligned offsets with the same page index are equal.
proof fn lemma_aligned_same_index(o1: usize, o2: usize)
    requires
        o1 % PAGE_SIZE == 0,
        o2 % PAGE_SIZE == 0,
        o1 as int / PAGE_SIZE as int == o2 as int / PAGE_SIZE as int,
    ensures
        o1 == o2,
{
    let a = o1 as int;
    let c = o2 as int;
    let p = PAGE_SIZE as int;
    assert(a == (a / p) * p + (a % p) && c == (c / p) * p + (c % p)) by (nonlinear_arith)
        requires
            p == 4096,
            a >= 0,
            c >= 0,
    ;
}

/// A page-aligned offset with index below `n` lies below `n * PAGE_SIZE`.
proof fn lemma_off_below(o: usize, n: int)
    requires
        o % PAGE_SIZE == 0,
        (o as int / PAGE_SIZE as int) < n,
    ensures
        (o as int) < n * (PAGE_SIZE as int),
{
    let oi = o as int;
    let p = PAGE_SIZE as int;
    assert(oi == (oi / p) * p + (oi % p) && (oi / p) * p <= (n - 1) * p && (n - 1) * p < n * p)
        by (nonlinear_arith)
        requires
            p == 4096,
            oi % p == 0,
            oi / p < n,
            oi >= 0,
    ;
}

/// A multiple of the page size is aligned and indexes its own factor.
proof fn lemma_page_index(n: int)
    requires
        n >= 0,
    ensures
        (n * (PAGE_SIZE as int)) % (PAGE_SIZE as int) == 0,
        (n * (PAGE_SIZE as int)) / (PAGE_SIZE as int) == n,
{
    let p = PAGE_SIZE as int;
    assert((n * p) % p == 0 && (n * p) / p == n) by (nonlinear_arith)
        requires
            p == 4096,
            n >= 0,
    ;
}


/// A strict step followed by a reflexive one stays strict.
proof fn lemma_lex_lt_le_trans(a: Seq<u8>, b: Seq<u8>, c: Seq<u8>)
    requires
        lex_lt(a, b),
        lex_le(b, c),
    ensures
        lex_lt(a, c),
{
    lemma_lex_trans(a, b, c);
}

/// An in-memory node's subtree survives a change confined to one page
/// outside it, even when the store has grown.
proof fn lemma_node_frame_except(
    p1: Seq<Seq<u8>>,
    p2: Seq<Seq<u8>>,
    b: int,
    nv: NodeView,
    h: nat,
    lo: Option<Seq<u8>>,
    hi: Option<Seq<u8>>,
    root: bool,
    excl: usize,
)
    requires
        node_wf(p1, b, nv, h, lo, hi, root),
        p2.len() >= p1.len(),
        excl % PAGE_SIZE == 0,
        forall|i: int| 0 <= i < p1.len() && i != excl as int / PAGE_SIZE as int ==> p2[i] == p1[i],
        !node_offs(p1, nv, h).contains(excl),
    ensures
        node_wf(p2, b, nv, h, lo, hi, root),
        node_kvs(p2, nv, h) == node_kvs(p1, nv, h),
        node_offs(p2, nv, h) == node_offs(p1, nv, h),
{
    match nv.node_type {
        NodeTypeView::Internal(cs, ks) => {
            lemma_row_frame_except(p1, p2, b, cs, ks, (h - 1) as nat, lo, hi, excl);
        },
        NodeTypeView::Leaf(ps) => {
            assert(node_offs(p2, nv, h) =~= node_offs(p1, nv, h));
        },
        NodeTypeView::Unexpected => {},
    }
}


/// Inserting a promoted median at its position keeps the separators
/// strictly increasing and inside the node's interval.
proof fn lemma_keys_insert(
    ks: Seq<Seq<u8>>,
    idx: int,
    m: Seq<u8>,
    lo: Option<Seq<u8>>,
    hi: Option<Seq<u8>>,
)
    requires
        keys_strictly_sorted(ks),
        forall|i: int| 0 <= i < ks.len() ==> in_range(lo, #[trigger] ks[i], hi),
        0 <= idx <= ks.len(),
        above_lo(lo_of(ks, lo, idx), m),
        idx < ks.len() ==> lex_lt(m, ks[idx]),
        idx == ks.len() ==> within_hi(m, hi),
    ensures
        keys_strictly_sorted(ks.insert(idx, m)),
        forall|i: int|
            0 <= i < ks.insert(idx, m).len() ==> in_range(
                lo,
                #[trigger] ks.insert(idx, m)[i],
                hi,
            ),
{
    let ns = ks.insert(idx, m);
    assert forall|i: int| 0 <= i < ns.len() implies (if i < idx {
        ns[i] == ks[i]
    } else if i == idx {
        ns[i] == m
    } else {
        ns[i] == ks[i - 1]
    }) by {
        ks.insert_ensures(idx, m);
    }
    assert(in_range(lo, m, hi)) by {
        if idx > 0 {
            assert(lex_lt(ks[idx - 1], m));
            match lo {
                Some(ll) => {
                    lemma_lex_lt_le_trans(ll, ks[idx - 1], ks[idx - 1]);
                    lemma_lex_trans(ll, ks[idx - 1], m);
                },
                None => {},
            }
        }
        if idx < ks.len() {
            match hi {
                Some(hh) => {
                    lemma_lex_lt_le_trans(m, ks[idx], hh);
                },
                None => {},
            }
        }
    }
    assert forall|i: int, j: int| 0 <= i < j < ns.len() implies lex_lt(ns[i], ns[j]) by {
        if i == idx {
            assert(lex_lt(m, ks[j - 1])) by {
                if j - 1 > idx {
                    lemma_lex_trans(m, ks[idx], ks[j - 1]);
                }
            }
        } else if j == idx {
            assert(lex_lt(ks[i], m)) by {
                if i < idx - 1 {
                    lemma_lex_trans(ks[i], ks[idx - 1], m);
                }
            }
        } else if i < idx && j > idx {
            assert(lex_lt(ks[i], m)) by {
                if i < idx - 1 {
                    lemma_lex_trans(ks[i], ks[idx - 1], m);
                }
            }
            assert(lex_lt(m, ks[j - 1])) by {
                if j - 1 > idx {
                    lemma_lex_trans(m, ks[idx], ks[j - 1]);
                }
            }
            lemma_lex_trans(ks[i], m, ks[j - 1]);
        }
    }
}

/// Splitting a full node yields two well-formed halves around the median:
/// the left half covers keys up to the median, the right half the strictly
/// greater ones, and together they hold exactly the original records.
proof fn lemma_split_halves(
    pages: Seq<Seq<u8>>,
    b: int,
    cv: NodeView,
    lv: NodeView,
    rv: NodeView,
    m: Seq<u8>,
    h: nat,
    clo: Option<Seq<u8>>,
    chi: Option<Seq<u8>>,
)
    requires
        node_wf(pages, b, cv, h, clo, chi, false),
        is_full(cv.node_type, b),
        b >= 2,
        lv.parent_offset == cv.parent_offset,
        rv.parent_offset == cv.parent_offset,
        enc_node(lv).len() <= PAGE_SIZE,
        enc_node(rv).len() <= PAGE_SIZE,
        match cv.node_type {
            NodeTypeView::Leaf(ps) => {
                &&& lv.node_type == NodeTypeView::Leaf(ps.subrange(0, b))
                &&& m == ps[b - 1].key
                &&& rv.node_type == NodeTypeView::Leaf(ps.subrange(b, 2 * b - 1))
            },
            NodeTypeView::Internal(cs, ks) => {
                &&& cs.len() == ks.len() + 1
                &&& lv.node_type == NodeTypeView::Internal(
                    cs.subrange(0, b),
                    ks.subrange(0, b - 1),
                )
                &&& m == ks[b - 1]
                &&& rv.node_type == NodeTypeView::Internal(
                    cs.subrange(b, 2 * b),
                    ks.subrange(b, 2 * b - 1),
                )
            },
            NodeTypeView::Unexpected => false,
        },
    ensures
        node_wf(pages, b, lv, h, clo, Some(m), false),
        node_wf(pages, b, rv, h, Some(m), chi, false),
        forall|pv: PairView|
            node_kvs(pages, lv, h).count(pv) + node_kvs(pages, rv, h).count(pv) == node_kvs(
                pages,
                cv,
                h,
            ).count(pv),
        above_lo(clo, m),
        within_hi(m, chi),
        (chi matches Some(hh) ==> lex_lt(m, hh)),
        forall|o: usize| node_offs(pages, lv, h).contains(o) ==> node_offs(pages, cv, h).contains(o),
        forall|o: usize| node_offs(pages, rv, h).contains(o) ==> node_offs(pages, cv, h).contains(o),
{
    match cv.node_type {
        NodeTypeView::Leaf(ps) => {
            let lp = ps.subrange(0, b);
            let rp = ps.subrange(b, 2 * b - 1);
            assert(in_range(clo, ps[b - 1].key, chi));
            assert forall|i: int| 0 <= i < lp.len() implies in_range(
                clo,
                #[trigger] lp[i].key,
                Some(m),
            ) by {
                assert(lp[i] == ps[i]);
                if i < b - 1 {
                    assert(lex_lt(ps[i].key, ps[b - 1].key));
                }
            }
            assert forall|i: int| 0 <= i < rp.len() implies in_range(
                Some(m),
                #[trigger] rp[i].key,
                chi,
            ) by {
                assert(rp[i] == ps[b + i]);
                assert(lex_lt(ps[b - 1].key, ps[b + i].key));
            }
            match chi {
                Some(hh) => {
                    assert(lex_lt(ps[b - 1].key, ps[2 * b - 2].key));
                    assert(within_hi(ps[2 * b - 2].key, chi));
                    lemma_lex_lt_le_trans(m, ps[2 * b - 2].key, hh);
                },
                None => {},
            }
            assert(ps =~= lp + rp);
            lemma_to_multiset_append(lp, rp);
            assert(node_offs(pages, lv, h) =~= Set::<usize>::empty());
            assert(node_offs(pages, rv, h) =~= Set::<usize>::empty());
            assert(node_offs(pages, cv, h) =~= Set::<usize>::empty());
            assert forall|pv: PairView|
                node_kvs(pages, lv, h).count(pv) + node_kvs(pages, rv, h).count(pv) == node_kvs(
                pages,
                cv,
                h,
            ).count(pv) by {
                assert(ps.to_multiset() == lp.to_multiset().add(rp.to_multiset()));
            }
            assert(node_wf(pages, b, lv, h, clo, Some(m), false));
            assert(node_wf(pages, b, rv, h, Some(m), chi, false));
        },
        NodeTypeView::Internal(cs, ks) => {
            let hc = (h - 1) as nat;
            assert(cs.take(b) =~= cs.subrange(0, b));
            assert(ks.take(b - 1) =~= ks.subrange(0, b - 1));
            assert(cs.skip(b) =~= cs.subrange(b, 2 * b));
            assert(ks.skip(b) =~= ks.subrange(b, 2 * b - 1));
            lemma_children_split(pages, b, cs, ks, hc, clo, chi, b - 1);
            assert(in_range(clo, ks[b - 1], chi));
            assert forall|i: int| 0 <= i < b - 1 implies in_range(
                clo,
                #[trigger] ks.subrange(0, b - 1)[i],
                Some(m),
            ) by {
                assert(ks.subrange(0, b - 1)[i] == ks[i]);
                assert(lex_lt(ks[i], ks[b - 1]));
            }
            assert forall|i: int| 0 <= i < b - 1 implies in_range(
                Some(m),
                #[trigger] ks.subrange(b, 2 * b - 1)[i],
                chi,
            ) by {
                assert(ks.subrange(b, 2 * b - 1)[i] == ks[b + i]);
                assert(lex_lt(ks[b - 1], ks[b + i]));
            }
            match chi {
                Some(hh) => {
                    assert(lex_lt(ks[b - 1], ks[2 * b - 2]));
                    assert(within_hi(ks[2 * b - 2], chi));
                    lemma_lex_lt_le_trans(m, ks[2 * b - 2], hh);
                },
                None => {},
            }
            assert(node_wf(pages, b, lv, h, clo, Some(m), false));
            assert(node_wf(pages, b, rv, h, Some(m), chi, false));
            assert forall|pv: PairView|
                node_kvs(pages, lv, h).count(pv) + node_kvs(pages, rv, h).count(pv) == node_kvs(
                pages,
                cv,
                h,
            ).count(pv) by {
                assert(node_kvs(pages, lv, h) == children_kvs(pages, cs.take(b), hc));
                assert(node_kvs(pages, rv, h) == children_kvs(pages, cs.skip(b), hc));
                assert(node_kvs(pages, cv, h) == children_kvs(pages, cs, hc));
            }
            assert(node_offs(pages, lv, h) == children_offs(pages, cs.take(b), hc));
            assert(node_offs(pages, rv, h) == children_offs(pages, cs.skip(b), hc));
            assert(node_offs(pages, cv, h) == children_offs(pages, cs, hc));
            assert forall|o: usize|
                node_offs(pages, lv, h).contains(o) implies node_offs(pages, cv, h).contains(
                o,
            ) by {
                assert(children_offs(pages, cs.take(b), hc).contains(o));
                assert(children_offs(pages, cs, hc).contains(o));
            }
            assert forall|o: usize|
                node_offs(pages, rv, h).contains(o) implies node_offs(pages, cv, h).contains(
                o,
            ) by {
                assert(children_offs(pages, cs.skip(b), hc).contains(o));
                assert(children_offs(pages, cs, hc).contains(o));
            }
        },
        NodeTypeView::Unexpected => {},
    }
}

impl BTree {
    /// Whether `node` holds the full `2b - 1` entries; the `Unexpected`
    /// sentinel has no meaningful count and fails.
    fn is_node_full(&self, node: &Node) -> (r: Result<bool, Error>)
        requires
            self.env_wf(),
        ensures
            match r {
                Ok(f) => !(node@.node_type is Unexpected) && f == is_full(
                    node@.node_type,
                    self.b_param(),
                ),
                Err(e) => e == Error::UnexpectedError && node@.node_type is Unexpected,
            },
    {
        match &node.node_type {
            NodeType::Leaf(pairs) => Ok(pairs.len() == 2 * self.b - 1),
            NodeType::Internal(_, keys) => Ok(keys.len() == 2 * self.b - 1),
            NodeType::Unexpected => Err(Error::UnexpectedError),
        }
    }



    /// Continues the walk into the non-full `child`, already copied to
    /// `new_child_offset`: rewrites the parent at `node_offset` to point at
    /// the copy, then inserts into the copy.
    #[verifier::rlimit(100)]
    fn descend_not_full(
        &mut self,
        mut child: Node,
        new_child_offset: Offset,
        node: &mut Node,
        children: Vec<Offset>,
        keys: Vec<Key>,
        idx: usize,
        node_offset: Offset,
        kv: KeyValuePair,
        Ghost(h): Ghost<nat>,
        Ghost(lo): Ghost<Option<Seq<u8>>>,
        Ghost(hi): Ghost<Option<Seq<u8>>>,
        Ghost(root): Ghost<bool>,
        Ghost(nv0): Ghost<NodeView>,
    ) -> (r: Result<(), Error>)
        requires
            old(self).env_wf(),
            h >= 1,
            idx <= keys@.len(),
            children@.len() == keys@.len() + 1,
            nv0.node_type == NodeTypeView::Internal(
                children@.map_values(|c: Offset| c.0),
                key_views(keys@),
            ),
            node_wf(old(self).pager@, old(self).b_param(), nv0, h, lo, hi, root),
            in_range(lo, kv@.key, hi),
            forall|pv: PairView|
                node_kvs(old(self).pager@, nv0, h).contains(pv) ==> pv.key != kv@.key,
            node_offset.0 % PAGE_SIZE == 0,
            (node_offset.0 as int / PAGE_SIZE as int) < old(self).pager@.len(),
            !node_offs(old(self).pager@, nv0, h).contains(node_offset.0),
            nv0.is_root == old(node).is_root,
            nv0.parent_offset == old(node)@.parent_offset,
            ({
                let cs = children@.map_values(|c: Offset| c.0);
                let ks = key_views(keys@);
                let hc = (h - 1) as nat;
                let clo = lo_of(ks, lo, idx as int);
                let chi = hi_of(ks, hi, idx as int);
                &&& in_range(clo, kv@.key, chi)
                &&& node_at(old(self).pager@, new_child_offset.0) == Some(child@)
                &&& node_at(old(self).pager@, cs[idx as int]) == Some(child@)
                &&& node_wf(old(self).pager@, old(self).b_param(), child@, hc, clo, chi, false)
                &&& entry_count(child@.node_type) < 2 * old(self).b_param() - 1
                &&& new_child_offset.0 % PAGE_SIZE == 0
                &&& new_child_offset.0 as int / PAGE_SIZE as int == old(self).pager@.len() - 1
                &&& node_offset.0 != new_child_offset.0
                &&& (forall|o: usize|
                    children_offs(old(self).pager@, cs, hc).contains(o) ==> (o as int
                        / PAGE_SIZE as int) < old(self).pager@.len() - 1)
            }),
        ensures
            final(self).env_wf(),
            final(self).b_param() == old(self).b_param(),
            final(self).wal@ == old(self).wal@,
            final(self).height() == old(self).height(),
            final(self).pager@.len() >= old(self).pager@.len(),
            forall|i: int|
                0 <= i < old(self).pager@.len() && i != node_offset.0 as int / PAGE_SIZE as int
                    && i != new_child_offset.0 as int / PAGE_SIZE as int
                    ==> final(self).pager@[i] == old(self).pager@[i],
            match r {
                Ok(_) => ({
                    let got = node_at(final(self).pager@, node_offset.0);
                    &&& got is Some
                    &&& node_wf(
                        final(self).pager@,
                        old(self).b_param(),
                        got->Some_0,
                        h,
                        lo,
                        hi,
                        root,
                    )
                    &&& node_kvs(final(self).pager@, got->Some_0, h) == node_kvs(
                        old(self).pager@,
                        nv0,
                        h,
                    ).insert(kv@)
                }),
                Err(e) => {
                    &&& (e == Error::UnexpectedError || e == Error::IoError)
                    &&& (e == Error::IoError ==> final(self).store_at_cap())
                    &&& (e == Error::UnexpectedError ==> final(self).oversize_blocked(kv@))
                },
            },
        decreases h, 0int,
    {
        let ghost b = self.b_param();
        let ghost q0 = self.pager@;
        let ghost kvv = kv@;
        let ghost kk = kv@.key;
        let ghost cs = children@.map_values(|c: Offset| c.0);
        let ghost ks = key_views(keys@);
        let ghost hc = (h - 1) as nat;
        let ghost clo = lo_of(ks, lo, idx as int);
        let ghost chi = hi_of(ks, hi, idx as int);
        let ghost nidx = node_offset.0 as int / PAGE_SIZE as int;
        let ghost nco = new_child_offset.0;
        let ghost ncidx = nco as int / PAGE_SIZE as int;
        let ghost cv = child@;
        let mut children = children;
        let keys = keys;
        proof {
            assert(node_offs(q0, nv0, h) == children_offs(q0, cs, hc));
            lemma_children_offs_valid(q0, b, cs, ks, hc, lo, hi);
            lemma_child_offs_in_row(q0, cs, hc, idx as int);
            assert(child_offs(q0, cs[idx as int], hc).contains(cs[idx as int]));
            assert(children_offs(q0, cs, hc).contains(cs[idx as int]));
            assert((cs[idx as int] as int / PAGE_SIZE as int) < ncidx);
            assert(cs[idx as int] != node_offset.0 && cs[idx as int] != nco);
            assert forall|o: usize| #[trigger] node_offs(q0, cv, hc).contains(o) implies o
                != node_offset.0 && o != nco && (o as int / PAGE_SIZE as int) < ncidx by {
                assert(child_offs(q0, cs[idx as int], hc).contains(o));
                assert(children_offs(q0, cs, hc).contains(o));
                if o as int / PAGE_SIZE as int == ncidx {
                    lemma_aligned_same_index(o, nco);
                }
            }
        }
        children.set(idx, new_child_offset);
        let ghost cs1 = children@.map_values(|c: Offset| c.0);
        node.node_type = NodeType::Internal(children, keys);
        let ghost nodev = node@;
        proof {
            assert(cs1 =~= cs.update(idx as int, nco));
            assert(nodev.node_type == NodeTypeView::Internal(cs1, ks));
        }
        let np = match node.encode() {
            Ok(p) => p,
            Err(e) => {
                proof {
                    lemma_parent_same_len(nv0, nodev, cs, idx as int, nco);
                    assert(false);
                }
                return Err(Error::UnexpectedError);
            },
        };
        match self.pager.write_page_at_offset(np, &node_offset) {
            Ok(_) => {},
            Err(e) => {
                proof {
                    assert(false);
                }
                return Err(Error::IoError);
            },
        }
        let ghost q1 = self.pager@;
        proof {
            assert(codec_wf(nodev));
            crate::page::lemma_decode_encode(nodev);
            assert(q1[nidx] == spec_page_of(nodev));
            assert(node_at(q1, node_offset.0) == Some(nodev));
            lemma_node_frame_except(
                q0,
                q1,
                b,
                cv,
                hc,
                clo,
                chi,
                false,
                node_offset.0,
            );
            // requirements of the recursive call
            assert(node_wf(q1, b, cv, hc, clo, chi, false));
            assert forall|pv: PairView|
                node_kvs(q1, cv, hc).contains(pv) implies pv.key != kk by {
                assert(node_kvs(q1, cv, hc) == node_kvs(q0, cv, hc));
                assert(child_kvs(q0, cs[idx as int], hc).contains(pv));
                lemma_child_le_row(q0, cs, hc, idx as int);
                assert(children_kvs(q0, cs, hc).contains(pv));
                assert(node_kvs(q0, nv0, h).contains(pv));
            }
            assert(!node_offs(q1, cv, hc).contains(nco));
        }
        let rr = self.insert_non_full(
            &mut child,
            new_child_offset,
            kv,
            Ghost(hc),
            Ghost(clo),
            Ghost(chi),
            Ghost(false),
        );
        let ghost q2 = self.pager@;
        proof {
            assert forall|i: int| 0 <= i < q0.len() && i != nidx && i != ncidx implies q2[i]
                == q0[i] by {
                assert(q2[i] == q1[i]);
                assert(q1[i] == q0[i]);
            }
        }
        match rr {
            Ok(_) => {},
            Err(e) => {
                return Err(e);
            },
        }
        proof {
            let got = node_at(q2, nco);
            let nv3 = got->Some_0;
            assert(node_wf(q2, b, nv3, hc, clo, chi, false));
            assert(node_kvs(q2, nv3, hc) == node_kvs(q1, cv, hc).insert(kvv));
            assert(node_kvs(q1, cv, hc) == node_kvs(q0, cv, hc));
            assert(child_kvs(q0, cs[idx as int], hc) == node_kvs(q0, cv, hc));
            assert(!children_offs(q0, cs, hc).contains(nco)) by {
                if children_offs(q0, cs, hc).contains(nco) {
                    assert((nco as int / PAGE_SIZE as int) < ncidx);
                }
            }
            lemma_row_frame_except2(q0, q2, b, cs, ks, hc, lo, hi, node_offset.0, nco);
            assert(!child_offs(q0, cs[idx as int], hc).contains(nco)) by {
                if child_offs(q0, cs[idx as int], hc).contains(nco) {
                    assert(children_offs(q0, cs, hc).contains(nco));
                }
            }
            assert(!child_offs(q0, cs[idx as int], hc).contains(node_offset.0)) by {
                if child_offs(q0, cs[idx as int], hc).contains(node_offset.0) {
                    assert(children_offs(q0, cs, hc).contains(node_offset.0));
                }
            }
            lemma_subtree_frame_except2(
                q0,
                q2,
                b,
                cs[idx as int],
                hc,
                clo,
                chi,
                node_offset.0,
                nco,
            );
            assert(child_kvs(q2, nco, hc) == child_kvs(
                q2,
                cs[idx as int],
                hc,
            ).insert(kvv));
            lemma_row_swap_child(q2, b, cs, ks, hc, lo, hi, idx as int, nco, kvv);
            assert(children_kvs(q2, cs1, hc) == children_kvs(
                q0,
                cs,
                hc,
            ).insert(kvv));
            assert(q2[nidx] == q1[nidx]);
            assert(node_at(q2, node_offset.0) == Some(nodev));
            assert(node_wf(q2, b, nodev, h, lo, hi, root));
            assert(node_kvs(q2, nodev, h) == node_kvs(q0, nv0, h).insert(
                kvv,
            ));
        }
        Ok(())
    }


/// After the recursive insert below a split, the parent row made of the two
/// halves holds the old records plus the new one.
#[verifier::rlimit(100)]
proof fn lemma_split_assembly(
    q0: Seq<Seq<u8>>,
    q4: Seq<Seq<u8>>,
    b: int,
    cs: Seq<usize>,
    ks: Seq<Seq<u8>>,
    hc: nat,
    lo: Option<Seq<u8>>,
    hi: Option<Seq<u8>>,
    idx: int,
    nco: usize,
    so: usize,
    m: Seq<u8>,
    node_offset: usize,
    cv: NodeView,
    kvv: PairView,
)
    requires
        children_wf(q0, b, cs, ks, hc, lo, hi),
        keys_strictly_sorted(ks),
        0 <= idx <= ks.len(),
        cs.len() == ks.len() + 1,
        q4.len() >= q0.len(),
        node_offset % PAGE_SIZE == 0,
        nco % PAGE_SIZE == 0,
        nco as int / PAGE_SIZE as int == q0.len() - 1,
        forall|i: int|
            0 <= i < q0.len() && i != node_offset as int / PAGE_SIZE as int && i != nco as int
                / PAGE_SIZE as int ==> q4[i] == q0[i],
        !children_offs(q0, cs, hc).contains(node_offset),
        forall|o: usize|
            children_offs(q0, cs, hc).contains(o) ==> (o as int / PAGE_SIZE as int) < q0.len()
                - 1,
        node_at(q0, cs[idx]) == Some(cv),
        child_wf(q0, b, cs[idx], hc, lo_of(ks, lo, idx), hi_of(ks, hi, idx)),
        child_wf(q4, b, nco, hc, lo_of(ks, lo, idx), Some(m)),
        child_wf(q4, b, so, hc, Some(m), hi_of(ks, hi, idx)),
        above_lo(lo_of(ks, lo, idx), m),
        idx < ks.len() ==> lex_lt(m, ks[idx]),
        idx == ks.len() ==> within_hi(m, hi),
        forall|pv: PairView|
            child_kvs(q4, nco, hc).count(pv) + child_kvs(q4, so, hc).count(pv) == node_kvs(
                q0,
                cv,
                hc,
            ).count(pv) + (if pv == kvv {
                1int
            } else {
                0int
            }),
    ensures
        children_wf(q4, b, cs.update(idx, nco).insert(idx + 1, so), ks.insert(idx, m), hc, lo, hi),
        children_kvs(q4, cs.update(idx, nco).insert(idx + 1, so), hc) == children_kvs(
            q0,
            cs,
            hc,
        ).insert(kvv),
{
    assert(!children_offs(q0, cs, hc).contains(nco)) by {
        if children_offs(q0, cs, hc).contains(nco) {
            assert((nco as int / PAGE_SIZE as int) < q0.len() - 1);
        }
    }
    lemma_row_frame_except2(q0, q4, b, cs, ks, hc, lo, hi, node_offset, nco);
    lemma_child_offs_in_row(q0, cs, hc, idx);
    assert(!child_offs(q0, cs[idx], hc).contains(node_offset)) by {
        if child_offs(q0, cs[idx], hc).contains(node_offset) {
            assert(children_offs(q0, cs, hc).contains(node_offset));
        }
    }
    assert(!child_offs(q0, cs[idx], hc).contains(nco)) by {
        if child_offs(q0, cs[idx], hc).contains(nco) {
            assert(children_offs(q0, cs, hc).contains(nco));
        }
    }
    lemma_subtree_frame_except2(q0, q4, b, cs[idx], hc, lo_of(ks, lo, idx), hi_of(ks, hi, idx), node_offset, nco);
    assert(child_kvs(q4, cs[idx], hc) == node_kvs(q0, cv, hc));
    lemma_children_insert_split(q4, b, cs, ks, hc, lo, hi, idx, nco, so, m);
    let cs2 = cs.update(idx, nco).insert(idx + 1, so);
    assert forall|pv: PairView|
        children_kvs(q4, cs2, hc).count(pv) == children_kvs(q0, cs, hc).insert(kvv).count(
        pv,
    ) by {
        assert(children_kvs(q4, cs2, hc).count(pv) + child_kvs(q4, cs[idx], hc).count(pv)
            == children_kvs(q4, cs, hc).count(pv) + child_kvs(q4, nco, hc).count(pv) + child_kvs(
            q4,
            so,
            hc,
        ).count(pv));
    }
    assert(children_kvs(q4, cs2, hc) =~= children_kvs(q0, cs, hc).insert(kvv));
}

    /// Splits the full `child`, already copied to `new_child_offset`, around
    /// its median: writes the post-split child there, appends the sibling,
    /// promotes the median into the parent at `node_offset`, and descends
    /// into the half whose interval holds the new key.
    #[verifier::rlimit(100)]
    #[verifier::spinoff_prover]
    fn split_and_descend(
        &mut self,
        mut child: Node,
        new_child_offset: Offset,
        node: &mut Node,
        children: Vec<Offset>,
        keys: Vec<Key>,
        idx: usize,
        node_offset: Offset,
        kv: KeyValuePair,
        Ghost(h): Ghost<nat>,
        Ghost(lo): Ghost<Option<Seq<u8>>>,
        Ghost(hi): Ghost<Option<Seq<u8>>>,
        Ghost(root): Ghost<bool>,
        Ghost(nv0): Ghost<NodeView>,
    ) -> (r: Result<(), Error>)
        requires
            old(self).env_wf(),
            h >= 1,
            idx <= keys@.len(),
            children@.len() == keys@.len() + 1,
            nv0.node_type == NodeTypeView::Internal(
                children@.map_values(|c: Offset| c.0),
                key_views(keys@),
            ),
            node_wf(old(self).pager@, old(self).b_param(), nv0, h, lo, hi, root),
            entry_count(nv0.node_type) < 2 * old(self).b_param() - 1,
            in_range(lo, kv@.key, hi),
            forall|pv: PairView|
                node_kvs(old(self).pager@, nv0, h).contains(pv) ==> pv.key != kv@.key,
            node_offset.0 % PAGE_SIZE == 0,
            (node_offset.0 as int / PAGE_SIZE as int) < old(self).pager@.len(),
            !node_offs(old(self).pager@, nv0, h).contains(node_offset.0),
            nv0.is_root == old(node).is_root,
            nv0.parent_offset == old(node)@.parent_offset,
            node_at(old(self).pager@, node_offset.0) == Some(nv0),
            ({
                let cs = children@.map_values(|c: Offset| c.0);
                let ks = key_views(keys@);
                let hc = (h - 1) as nat;
                let clo = lo_of(ks, lo, idx as int);
                let chi = hi_of(ks, hi, idx as int);
                &&& in_range(clo, kv@.key, chi)
                &&& node_at(old(self).pager@, new_child_offset.0) == Some(child@)
                &&& node_at(old(self).pager@, cs[idx as int]) == Some(child@)
                &&& node_wf(old(self).pager@, old(self).b_param(), child@, hc, clo, chi, false)
                &&& is_full(child@.node_type, old(self).b_param())
                &&& new_child_offset.0 % PAGE_SIZE == 0
                &&& new_child_offset.0 as int / PAGE_SIZE as int == old(self).pager@.len() - 1
                &&& node_offset.0 != new_child_offset.0
                &&& (forall|o: usize|
                    children_offs(old(self).pager@, cs, hc).contains(o) ==> (o as int
                        / PAGE_SIZE as int) < old(self).pager@.len() - 1)
            }),
        ensures
            final(self).env_wf(),
            final(self).b_param() == old(self).b_param(),
            final(self).wal@ == old(self).wal@,
            final(self).height() == old(self).height(),
            final(self).pager@.len() >= old(self).pager@.len(),
            forall|i: int|
                0 <= i < old(self).pager@.len() && i != node_offset.0 as int / PAGE_SIZE as int
                    && i != new_child_offset.0 as int / PAGE_SIZE as int
                    ==> final(self).pager@[i] == old(self).pager@[i],
            match r {
                Ok(_) => ({
                    let got = node_at(final(self).pager@, node_offset.0);
                    &&& got is Some
                    &&& node_wf(
                        final(self).pager@,
                        old(self).b_param(),
                        got->Some_0,
                        h,
                        lo,
                        hi,
                        root,
                    )
                    &&& node_kvs(final(self).pager@, got->Some_0, h) == node_kvs(
                        old(self).pager@,
                        nv0,
                        h,
                    ).insert(kv@)
                }),
                Err(e) => {
                    &&& (e == Error::UnexpectedError || e == Error::IoError)
                    &&& (e == Error::IoError ==> final(self).store_at_cap())
                    &&& (e == Error::UnexpectedError ==> final(self).oversize_blocked(kv@))
                },
            },
        decreases h, 0int,
    {
        let ghost b = self.b_param();
        let ghost q0 = self.pager@;
        let ghost kvv = kv@;
        let ghost kk = kv@.key;
        let ghost cs = children@.map_values(|c: Offset| c.0);
        let ghost ks = key_views(keys@);
        let ghost hc = (h - 1) as nat;
        let ghost clo = lo_of(ks, lo, idx as int);
        let ghost chi = hi_of(ks, hi, idx as int);
        let ghost nidx = node_offset.0 as int / PAGE_SIZE as int;
        let ghost nco = new_child_offset.0;
        let ghost ncidx = nco as int / PAGE_SIZE as int;
        let ghost cv = child@;
        let mut children = children;
        let mut keys = keys;
        proof {
            assert(node_offs(q0, nv0, h) == children_offs(q0, cs, hc));
            lemma_children_offs_valid(q0, b, cs, ks, hc, lo, hi);
            lemma_child_offs_in_row(q0, cs, hc, idx as int);
            assert(child_offs(q0, cs[idx as int], hc).contains(cs[idx as int]));
            assert(children_offs(q0, cs, hc).contains(cs[idx as int]));
            assert((cs[idx as int] as int / PAGE_SIZE as int) < ncidx);
            assert(cs[idx as int] != node_offset.0 && cs[idx as int] != nco);
            // the child subtree sits strictly below the copied page
            assert forall|o: usize| #[trigger] node_offs(q0, cv, hc).contains(o) implies o
                != node_offset.0 && o != nco && (o as int / PAGE_SIZE as int) < ncidx by {
                assert(child_offs(q0, cs[idx as int], hc).contains(o));
                assert(children_offs(q0, cs, hc).contains(o));
                if o as int / PAGE_SIZE as int == ncidx {
                    lemma_aligned_same_index(o, nco);
                }
            }
        }
        let (median, mut sibling) = match child.split(self.b) {
            Ok(t) => t,
            Err(e) => {
                proof {
                    assert(false);
                }
                return Err(e);
            },
        };
        let ghost lv = child@;
        let ghost rv = sibling@;
        let ghost m = median@;
        proof {
            lemma_split_halves_fit(cv, lv, rv, m, b);
        }
        let lp = match child.encode() {
            Ok(p) => p,
            Err(e) => {
                proof {
                    assert(false);
                }
                return Err(Error::UnexpectedError);
            },
        };
        match self.pager.write_page_at_offset(lp, &new_child_offset) {
            Ok(_) => {},
            Err(e) => {
                proof {
                    assert(false);
                }
                return Err(Error::IoError);
            },
        }
        let ghost q1 = self.pager@;
        let rp = match sibling.encode() {
            Ok(p) => p,
            Err(e) => {
                proof {
                    assert(false);
                }
                return Err(Error::UnexpectedError);
            },
        };
        let sibling_offset = match self.pager.write_page(rp) {
            Ok(o) => o,
            Err(e) => {
                return Err(Error::IoError);
            },
        };
        let ghost q2 = self.pager@;
        let ghost so = sibling_offset.0;
        let ghost sidx = so as int / PAGE_SIZE as int;
        proof {
            lemma_page_index(q0.len() as int);
            assert(so % PAGE_SIZE == 0 && sidx == q0.len() as int);
            lemma_split_halves(q0, b, cv, lv, rv, m, hc, clo, chi);
            assert forall|o: usize| (node_offs(q0, lv, hc).contains(o) || node_offs(
                q0,
                rv,
                hc,
            ).contains(o)) implies o != nco && o != node_offset.0 && o != so && (o as int
                / PAGE_SIZE as int) < ncidx by {
                assert(node_offs(q0, cv, hc).contains(o));
                if o as int / PAGE_SIZE as int == sidx {
                    lemma_aligned_same_index(o, so);
                }
            }
            crate::page::lemma_decode_encode(lv);
            assert(q1[ncidx] == spec_page_of(lv));
            assert(node_at(q1, nco) == Some(lv));
            lemma_node_frame_except(q0, q1, b, lv, hc, clo, Some(m), false, nco);
            lemma_node_frame_except(q0, q1, b, rv, hc, Some(m), chi, false, nco);
            lemma_node_frame_except(q1, q2, b, lv, hc, clo, Some(m), false, so);
            lemma_node_frame_except(q1, q2, b, rv, hc, Some(m), chi, false, so);
            crate::page::lemma_decode_encode(rv);
            assert(q2[sidx] == spec_page_of(rv));
            assert(node_at(q2, so) == Some(rv));
            assert(node_at(q2, nco) == Some(lv));
            assert(child_wf(q2, b, nco, hc, clo, Some(m)));
            assert(child_wf(q2, b, so, hc, Some(m), chi));
        }
        children.set(idx, new_child_offset);
        children.insert(idx + 1, sibling_offset);
        keys.insert(idx, Key(median.0.clone()));
        let ghost cs2 = children@.map_values(|c: Offset| c.0);
        let ghost ks2 = key_views(keys@);
        node.node_type = NodeType::Internal(children, keys);
        let ghost nodev = node@;
        proof {
            assert(cs2 =~= cs.update(idx as int, nco).insert(idx as int + 1, so));
            assert(ks2 =~= ks.insert(idx as int, m));
            assert(nodev.node_type == NodeTypeView::Internal(cs2, ks2));
            assert(idx < ks.len() ==> chi == Some(ks[idx as int]));
            lemma_keys_insert(ks, idx as int, m, lo, hi);
            broadcast use vstd::utf8::encode_utf8_valid_utf8;

            assert(codec_wf(nodev));
        }
        let np = match node.encode() {
            Ok(p) => p,
            Err(e) => {
                proof {
                    let cur = self.pager@;
                    if nidx == ncidx {
                        lemma_aligned_same_index(node_offset.0, nco);
                    }
                    assert(q1[nidx] == q0[nidx]);
                    assert(cur[nidx] == q1[nidx]);
                    assert(node_at(cur, node_offset.0) == Some(nv0));
                    let cidx = cs[idx as int] as int / PAGE_SIZE as int;
                    assert(cidx < ncidx);
                    assert(q1[cidx] == q0[cidx]);
                    assert(cur[cidx] == q1[cidx]);
                    assert(node_at(cur, cs[idx as int]) == Some(cv));
                    lemma_parent_insert_len(nv0, nodev, cs, ks, idx as int, nco, so, m);
                    assert(median_key(cv.node_type, b) == m);
                    assert(oversized_parent(cur, node_offset.0, cs[idx as int], b));
                }
                return Err(Error::UnexpectedError);
            },
        };
        match self.pager.write_page_at_offset(np, &node_offset) {
            Ok(_) => {},
            Err(e) => {
                proof {
                    assert(false);
                }
                return Err(Error::IoError);
            },
        }
        let ghost q3 = self.pager@;
        proof {
            crate::page::lemma_decode_encode(nodev);
            assert(q3[nidx] == spec_page_of(nodev));
            assert(node_at(q3, node_offset.0) == Some(nodev));
            lemma_node_frame_except(q2, q3, b, lv, hc, clo, Some(m), false, node_offset.0);
            lemma_node_frame_except(q2, q3, b, rv, hc, Some(m), chi, false, node_offset.0);
            assert(node_wf(q3, b, lv, hc, clo, Some(m), false));
            assert(node_wf(q3, b, rv, hc, Some(m), chi, false));
            assert forall|pv: PairView|
                (node_kvs(q3, lv, hc).contains(pv) || node_kvs(q3, rv, hc).contains(pv))
                implies pv.key != kk by {
                assert(node_kvs(q0, cv, hc).count(pv) > 0);
                assert(child_kvs(q0, cs[idx as int], hc).count(pv) > 0);
                lemma_child_le_row(q0, cs, hc, idx as int);
                assert(children_kvs(q0, cs, hc).contains(pv));
                assert(node_kvs(q0, nv0, h).contains(pv));
            }
            assert(!node_offs(q3, lv, hc).contains(nco));
            assert(!node_offs(q3, rv, hc).contains(so));
            assert(entry_count(lv.node_type) < 2 * b - 1);
            assert(entry_count(rv.node_type) < 2 * b - 1);
        }
        let go_left = !crate::node_type::str_lt(median.0.as_str(), kv.key.as_str());
        proof {
            lemma_lex_total(kk, m);
        }
        let rr = if go_left {
            self.insert_non_full(
                &mut child,
                new_child_offset,
                kv,
                Ghost(hc),
                Ghost(clo),
                Ghost(Some(m)),
                Ghost(false),
            )
        } else {
            self.insert_non_full(
                &mut sibling,
                sibling_offset,
                kv,
                Ghost(hc),
                Ghost(Some(m)),
                Ghost(chi),
                Ghost(false),
            )
        };
        let ghost q4 = self.pager@;
        proof {
            assert forall|i: int| 0 <= i < q0.len() && i != nidx && i != ncidx implies q4[i]
                == q0[i] by {
                assert(i != sidx);
                assert(q4[i] == q3[i] && q3[i] == q2[i] && q2[i] == q1[i] && q1[i] == q0[i]);
            }
        }
        match rr {
            Ok(_) => {},
            Err(e) => {
                return Err(e);
            },
        }
        proof {
            if go_left {
                lemma_node_frame_except(q3, q4, b, rv, hc, Some(m), chi, false, nco);
                assert(q4[sidx] == q3[sidx]);
                assert(node_at(q4, so) == Some(rv));
            } else {
                lemma_node_frame_except(q3, q4, b, lv, hc, clo, Some(m), false, so);
                assert(q4[ncidx] == q3[ncidx]);
                assert(node_at(q4, nco) == Some(lv));
            }
            assert(child_wf(q4, b, nco, hc, clo, Some(m)));
            assert(child_wf(q4, b, so, hc, Some(m), chi));
            assert forall|pv: PairView|
                child_kvs(q4, nco, hc).count(pv) + child_kvs(q4, so, hc).count(pv) == node_kvs(
                q0,
                cv,
                hc,
            ).count(pv) + (if pv == kvv {
                1int
            } else {
                0int
            }) by {
                if go_left {
                    assert(child_kvs(q4, nco, hc) == node_kvs(q3, lv, hc).insert(kvv));
                    assert(child_kvs(q4, so, hc) == node_kvs(q3, rv, hc));
                } else {
                    assert(child_kvs(q4, so, hc) == node_kvs(q3, rv, hc).insert(kvv));
                    assert(child_kvs(q4, nco, hc) == node_kvs(q3, lv, hc));
                }
                assert(node_kvs(q3, lv, hc).count(pv) + node_kvs(q3, rv, hc).count(pv)
                    == node_kvs(q0, cv, hc).count(pv));
            }
            assert(node_offs(q0, nv0, h) == children_offs(q0, cs, hc));
            assert(child_wf(q0, b, cs[idx as int], hc, clo, chi));
            Self::lemma_split_assembly(
                q0,
                q4,
                b,
                cs,
                ks,
                hc,
                lo,
                hi,
                idx as int,
                nco,
                so,
                m,
                node_offset.0,
                cv,
                kvv,
            );
            assert(q4[nidx] == q3[nidx]);
            assert(node_at(q4, node_offset.0) == Some(nodev));
            assert(node_wf(q4, b, nodev, h, lo, hi, root));
            assert(node_kvs(q4, nodev, h) == node_kvs(q0, nv0, h).insert(kvv));
        }
        Ok(())
    }

    /// Inserts `kv` into the non-full subtree rooted at the in-memory
    /// `node`, whose page lives at `node_offset`, splitting full children on
    /// the way down; every touched node is written at a fresh offset except
    /// `node`'s own page, which is overwritten.
    #[verifier::loop_isolation(false)]
    #[verifier::rlimit(100)]
    fn insert_non_full(
        &mut self,
        node: &mut Node,
        node_offset: Offset,
        kv: KeyValuePair,
        Ghost(h): Ghost<nat>,
        Ghost(lo): Ghost<Option<Seq<u8>>>,
        Ghost(hi): Ghost<Option<Seq<u8>>>,
        Ghost(root): Ghost<bool>,
    ) -> (r: Result<(), Error>)
        requires
            old(self).env_wf(),
            node_wf(old(self).pager@, old(self).b_param(), old(node)@, h, lo, hi, root),
            entry_count(old(node)@.node_type) < 2 * old(self).b_param() - 1,
            in_range(lo, kv@.key, hi),
            forall|pv: PairView|
                node_kvs(old(self).pager@, old(node)@, h).contains(pv) ==> pv.key != kv@.key,
            node_offset.0 % PAGE_SIZE == 0,
            (node_offset.0 as int / PAGE_SIZE as int) < old(self).pager@.len(),
            node_at(old(self).pager@, node_offset.0) == Some(old(node)@),
            !node_offs(old(self).pager@, old(node)@, h).contains(node_offset.0),
        ensures
            final(self).env_wf(),
            final(self).b_param() == old(self).b_param(),
            final(self).wal@ == old(self).wal@,
            final(self).height() == old(self).height(),
            final(self).pager@.len() >= old(self).pager@.len(),
            forall|i: int|
                0 <= i < old(self).pager@.len() && i != node_offset.0 as int / PAGE_SIZE as int
                    ==> final(self).pager@[i] == old(self).pager@[i],
            match r {
                Ok(_) => ({
                    let got = node_at(final(self).pager@, node_offset.0);
                    &&& got is Some
                    &&& node_wf(
                        final(self).pager@,
                        old(self).b_param(),
                        got->Some_0,
                        h,
                        lo,
                        hi,
                        root,
                    )
                    &&& node_kvs(final(self).pager@, got->Some_0, h) == node_kvs(
                        old(self).pager@,
                        old(node)@,
                        h,
                    ).insert(kv@)
                }),
                Err(e) => {
                    &&& (e == Error::UnexpectedError || e == Error::IoError)
                    &&& (e == Error::IoError ==> final(self).store_at_cap())
                    &&& (e == Error::UnexpectedError ==> final(self).oversize_blocked(kv@))
                },
            },
        decreases h, 1int,
    {
        let ghost b = self.b_param();
        let ghost pages0 = self.pager@;
        let ghost kvv = kv@;
        let ghost kk = kv@.key;
        let ghost node0 = node@;
        let mut nt = NodeType::Unexpected;
        core::mem::swap(&mut nt, &mut node.node_type);
        match nt {
            NodeType::Leaf(mut pairs) => {
                let idx = lower_bound_pairs(&pairs, kv.key.as_str());
                let ghost ps = pair_views(pairs@);
                proof {
                    broadcast use vstd::seq_lib::group_to_multiset_ensures;
                    broadcast use vstd::utf8::encode_utf8_valid_utf8;

                    if idx < ps.len() {
                        assert(ps.contains(ps[idx as int]));
                        assert(ps.to_multiset().count(ps[idx as int]) > 0);
                        assert(node_kvs(pages0, node0, h).contains(ps[idx as int]));
                        assert(ps[idx as int].key != kk);
                        lemma_lex_total(kk, ps[idx as int].key);
                        assert(lex_lt(kk, ps[idx as int].key));
                    }
                    lemma_pairs_insert(ps, idx as int, kvv, lo, hi);
                }
                pairs.insert(idx, kv);
                let ghost nps = pair_views(pairs@);
                proof {
                    assert(nps =~= ps.insert(idx as int, kvv));
                }
                node.node_type = NodeType::Leaf(pairs);
                let page = match node.encode() {
                    Ok(p) => p,
                    Err(e) => {
                        proof {
                            lemma_enc_pairs_insert_len(ps, idx as int, kvv);
                            assert(enc_node(node@).len() == 18 + enc_pairs(nps).len());
                            assert(enc_node(node0).len() == 18 + enc_pairs(ps).len());
                            assert(oversized_leaf(self.pager@, node_offset.0, kvv));
                        }
                        return Err(Error::UnexpectedError);
                    },
                };
                match self.pager.write_page_at_offset(page, &node_offset) {
                    Ok(_) => {},
                    Err(e) => {
                        proof {
                            assert(false);
                        }
                        return Err(Error::IoError);
                    },
                }
                proof {
                    let nv = node@;
                    assert(nv.node_type == NodeTypeView::Leaf(nps));
                    assert(codec_wf(nv));
                    crate::page::lemma_decode_encode(nv);
                    let pages1 = self.pager@;
                    assert(pages1[node_offset.0 as int / PAGE_SIZE as int] == spec_page_of(nv));
                    assert(node_at(pages1, node_offset.0) == Some(nv));
                    assert(node_wf(pages1, b, nv, h, lo, hi, root));
                    assert(node_kvs(pages1, nv, h) == nps.to_multiset());
                    assert(node_kvs(pages1, nv, h) == node_kvs(pages0, node0, h).insert(kvv));
                }
                Ok(())
            },
            NodeType::Internal(mut children, mut keys) => {
                let idx = lower_bound_keys(&keys, kv.key.as_str());
                let ghost cs = children@.map_values(|c: Offset| c.0);
                let ghost ks = key_views(keys@);
                let ghost hc = (h - 1) as nat;
                let ghost clo = lo_of(ks, lo, idx as int);
                let ghost chi = hi_of(ks, hi, idx as int);
                let ghost nidx = node_offset.0 as int / PAGE_SIZE as int;
                let ghost len0 = pages0.len() as int;
                proof {
                    lemma_pick_child(pages0, b, cs, ks, hc, lo, hi, kk, idx as int);
                    lemma_children_offs_valid(pages0, b, cs, ks, hc, lo, hi);
                    assert(node_offs(pages0, node0, h) == children_offs(pages0, cs, hc));
                    lemma_child_offs_in_row(pages0, cs, hc, idx as int);
                    lemma_child_le_row(pages0, cs, hc, idx as int);
                }
                let child_offset = children[idx];
                let child_page = match self.pager.get_page(&child_offset) {
                    Ok(p) => p,
                    Err(e) => {
                        proof {
                            assert(false);
                        }
                        return Err(Error::IoError);
                    },
                };
                let mut child = match Node::decode(&child_page) {
                    Ok(c) => c,
                    Err(e) => {
                        proof {
                            assert(false);
                        }
                        return Err(Error::UnexpectedError);
                    },
                };
                let ghost cv = child@;
                proof {
                    assert(cs[idx as int] == children@[idx as int].0);
                    assert(node_at(pages0, cs[idx as int]) == Some(cv));
                    assert(node_wf(pages0, b, cv, hc, clo, chi, false));
                    // the subtree of the picked child avoids the parent page and
                    // stays below the current end of the store
                    assert forall|o: usize| #[trigger] node_offs(pages0, cv, hc).contains(o)
                        implies o != node_offset.0 && (o as int) < len0 * (PAGE_SIZE as int) by {
                        assert(child_offs(pages0, cs[idx as int], hc).contains(o));
                        assert(children_offs(pages0, cs, hc).contains(o));
                        lemma_child_offs_valid(pages0, b, cs[idx as int], hc, clo, chi);
                        lemma_off_below(o, len0);
                    }
                    assert(child_offs(pages0, cs[idx as int], hc).contains(cs[idx as int]));
                    assert(cs[idx as int] != node_offset.0);
                }
                let full = match self.is_node_full(&child) {
                    Ok(f) => f,
                    Err(e) => {
                        proof {
                            assert(false);
                        }
                        return Err(e);
                    },
                };
                let new_child_page = match child.encode() {
                    Ok(p) => p,
                    Err(e) => {
                        proof {
                            assert(false);
                        }
                        return Err(Error::UnexpectedError);
                    },
                };
                let new_child_offset = match self.pager.write_page(new_child_page) {
                    Ok(o) => o,
                    Err(e) => {
                        return Err(Error::IoError);
                    },
                };
                let ghost pages1 = self.pager@;
                let ghost nco = new_child_offset.0;
                proof {
                    lemma_page_index(len0);
                    assert(nco % PAGE_SIZE == 0);
                    assert(nco as int / PAGE_SIZE as int == len0);
                    assert(!node_offs(pages0, node0, h).contains(nco) && !node_offs(
                        pages0,
                        cv,
                        hc,
                    ).contains(nco)) by {
                        assert forall|o: usize|
                            #[trigger] children_offs(pages0, cs, hc).contains(o) implies o
                            != nco by {
                            lemma_off_below(o, len0);
                        }
                    }
                    lemma_node_frame_except(pages0, pages1, b, node0, h, lo, hi, root, nco);
                    lemma_node_frame_except(pages0, pages1, b, cv, hc, clo, chi, false, nco);
                    crate::page::lemma_decode_encode(cv);
                    assert(pages1[len0] == spec_page_of(cv));
                    assert(node_at(pages1, nco) == Some(cv));
                }
                if !full {
                    proof {
                        assert(node_wf(pages1, b, node0, h, lo, hi, root));
                        assert(node_kvs(pages1, node0, h) == node_kvs(pages0, node0, h));
                        assert(node_offs(pages1, node0, h) == node_offs(pages0, node0, h));
                        assert(node_at(pages1, cs[idx as int]) == node_at(pages0, cs[idx as int]));
                        assert(node_offs(pages1, node0, h) == children_offs(pages1, cs, hc));
                        assert(node_offs(pages0, node0, h) == children_offs(pages0, cs, hc));
                        assert forall|o: usize|
                            children_offs(pages1, cs, hc).contains(o) implies (o as int
                            / PAGE_SIZE as int) < len0 by {
                            assert(node_offs(pages1, node0, h).contains(o));
                            assert(node_offs(pages0, node0, h).contains(o));
                            assert(children_offs(pages0, cs, hc).contains(o));
                        }
                        assert forall|pv: PairView|
                            node_kvs(pages1, node0, h).contains(pv) implies pv.key != kk by {
                            assert(node_kvs(pages0, node0, h).contains(pv));
                        }
                    }
                    let rr = self.descend_not_full(
                        child,
                        new_child_offset,
                        node,
                        children,
                        keys,
                        idx,
                        node_offset,
                        kv,
                        Ghost(h),
                        Ghost(lo),
                        Ghost(hi),
                        Ghost(root),
                        Ghost(node0),
                    );
                    proof {
                        let pagesf = self.pager@;
                        assert forall|i: int| 0 <= i < len0 && i != nidx implies pagesf[i]
                            == pages0[i] by {
                            assert(i != len0);
                            assert(pagesf[i] == pages1[i]);
                        }
                    }
                    rr
                } else {
                    proof {
                        assert(node_wf(pages1, b, node0, h, lo, hi, root));
                        assert(node_kvs(pages1, node0, h) == node_kvs(pages0, node0, h));
                        assert(node_offs(pages1, node0, h) == node_offs(pages0, node0, h));
                        assert(node_at(pages1, cs[idx as int]) == node_at(pages0, cs[idx as int]));
                        assert(node_offs(pages1, node0, h) == children_offs(pages1, cs, hc));
                        assert(node_offs(pages0, node0, h) == children_offs(pages0, cs, hc));
                        assert forall|o: usize|
                            children_offs(pages1, cs, hc).contains(o) implies (o as int
                            / PAGE_SIZE as int) < len0 by {
                            assert(node_offs(pages1, node0, h).contains(o));
                            assert(node_offs(pages0, node0, h).contains(o));
                            assert(children_offs(pages0, cs, hc).contains(o));
                        }
                        assert forall|pv: PairView|
                            node_kvs(pages1, node0, h).contains(pv) implies pv.key != kk by {
                            assert(node_kvs(pages0, node0, h).contains(pv));
                        }
                    }
                    let rr = self.split_and_descend(
                        child,
                        new_child_offset,
                        node,
                        children,
                        keys,
                        idx,
                        node_offset,
                        kv,
                        Ghost(h),
                        Ghost(lo),
                        Ghost(hi),
                        Ghost(root),
                        Ghost(node0),
                    );
                    proof {
                        let pagesf = self.pager@;
                        assert forall|i: int| 0 <= i < len0 && i != nidx implies pagesf[i]
                            == pages0[i] by {
                            assert(i != len0);
                            assert(pagesf[i] == pages1[i]);
                        }
                    }
                    rr
                }
            },
            NodeType::Unexpected => {
                proof {
                    assert(false);
                }
                Err(Error::UnexpectedError)
            },
        }
    }
}



/// One child's records count into the row's records.
proof fn lemma_child_le_row(pages: Seq<Seq<u8>>, cs: Seq<usize>, h: nat, j: int)
    requires
        0 <= j < cs.len(),
    ensures
        forall|pv: PairView|
            children_kvs(pages, cs, h).count(pv) >= child_kvs(pages, cs[j], h).count(pv),
    decreases cs.len(),
{
    if j > 0 {
        lemma_child_le_row(pages, cs.drop_first(), h, j - 1);
        assert(cs.drop_first()[j - 1] == cs[j]);
        assert forall|pv: PairView|
            children_kvs(pages, cs, h).count(pv) >= child_kvs(pages, cs[j], h).count(pv) by {
            assert(children_kvs(pages, cs, h) == child_kvs(pages, cs[0], h).add(
                children_kvs(pages, cs.drop_first(), h),
            ));
        }
    } else {
        assert forall|pv: PairView|
            children_kvs(pages, cs, h).count(pv) >= child_kvs(pages, cs[j], h).count(pv) by {
            assert(children_kvs(pages, cs, h) == child_kvs(pages, cs[0], h).add(
                children_kvs(pages, cs.drop_first(), h),
            ));
        }
    }
}

/// One child's pages lie within the row's pages.
proof fn lemma_child_offs_in_row(pages: Seq<Seq<u8>>, cs: Seq<usize>, h: nat, j: int)
    requires
        0 <= j < cs.len(),
    ensures
        forall|o: usize|
            child_offs(pages, cs[j], h).contains(o) ==> children_offs(pages, cs, h).contains(o),
    decreases cs.len(),
{
    if j > 0 {
        lemma_child_offs_in_row(pages, cs.drop_first(), h, j - 1);
        assert(cs.drop_first()[j - 1] == cs[j]);
        assert forall|o: usize|
            child_offs(pages, cs[j], h).contains(o) implies children_offs(
            pages,
            cs,
            h,
        ).contains(o) by {
            assert(children_offs(pages, cs, h) == child_offs(pages, cs[0], h).union(
                children_offs(pages, cs.drop_first(), h),
            ));
        }
    } else {
        assert forall|o: usize|
            child_offs(pages, cs[j], h).contains(o) implies children_offs(
            pages,
            cs,
            h,
        ).contains(o) by {
            assert(children_offs(pages, cs, h) == child_offs(pages, cs[0], h).union(
                children_offs(pages, cs.drop_first(), h),
            ));
        }
    }
}

/// A row of children survives a change confined to one page outside it,
/// even when the store has grown.
proof fn lemma_row_frame_except(
    p1: Seq<Seq<u8>>,
    p2: Seq<Seq<u8>>,
    b: int,
    cs: Seq<usize>,
    ks: Seq<Seq<u8>>,
    h: nat,
    lo: Option<Seq<u8>>,
    hi: Option<Seq<u8>>,
    excl: usize,
)
    requires
        children_wf(p1, b, cs, ks, h, lo, hi),
        p2.len() >= p1.len(),
        excl % PAGE_SIZE == 0,
        forall|i: int| 0 <= i < p1.len() && i != excl as int / PAGE_SIZE as int ==> p2[i] == p1[i],
        !children_offs(p1, cs, h).contains(excl),
    ensures
        children_wf(p2, b, cs, ks, h, lo, hi),
        children_kvs(p2, cs, h) == children_kvs(p1, cs, h),
        children_offs(p2, cs, h) == children_offs(p1, cs, h),
{
    lemma_children_offs_valid(p1, b, cs, ks, h, lo, hi);
    assert forall|o: usize|
        #[trigger] children_offs(p1, cs, h).contains(o) implies (o as int / PAGE_SIZE as int)
        < p2.len() && p2[o as int / PAGE_SIZE as int] == p1[o as int / PAGE_SIZE as int] by {
        if o as int / PAGE_SIZE as int == excl as int / PAGE_SIZE as int {
            lemma_aligned_same_index(o, excl);
        }
    }
    lemma_children_frame(p1, p2, b, cs, ks, h, lo, hi);
}

/// A subtree survives a change confined to one page outside it, even when
/// the store has grown.
proof fn lemma_subtree_frame_except(
    p1: Seq<Seq<u8>>,
    p2: Seq<Seq<u8>>,
    b: int,
    off: usize,
    h: nat,
    lo: Option<Seq<u8>>,
    hi: Option<Seq<u8>>,
    excl: usize,
)
    requires
        child_wf(p1, b, off, h, lo, hi),
        p2.len() >= p1.len(),
        excl % PAGE_SIZE == 0,
        forall|i: int| 0 <= i < p1.len() && i != excl as int / PAGE_SIZE as int ==> p2[i] == p1[i],
        !child_offs(p1, off, h).contains(excl),
    ensures
        child_wf(p2, b, off, h, lo, hi),
        child_kvs(p2, off, h) == child_kvs(p1, off, h),
        child_offs(p2, off, h) == child_offs(p1, off, h),
{
    lemma_child_offs_valid(p1, b, off, h, lo, hi);
    assert forall|o: usize|
        #[trigger] child_offs(p1, off, h).contains(o) implies (o as int / PAGE_SIZE as int)
        < p2.len() && p2[o as int / PAGE_SIZE as int] == p1[o as int / PAGE_SIZE as int] by {
        if o as int / PAGE_SIZE as int == excl as int / PAGE_SIZE as int {
            lemma_aligned_same_index(o, excl);
        }
    }
    lemma_child_frame(p1, p2, b, off, h, lo, hi);
}


/// A row of children survives changes confined to two pages outside it.
proof fn lemma_row_frame_except2(
    p1: Seq<Seq<u8>>,
    p2: Seq<Seq<u8>>,
    b: int,
    cs: Seq<usize>,
    ks: Seq<Seq<u8>>,
    h: nat,
    lo: Option<Seq<u8>>,
    hi: Option<Seq<u8>>,
    excl1: usize,
    excl2: usize,
)
    requires
        children_wf(p1, b, cs, ks, h, lo, hi),
        p2.len() >= p1.len(),
        excl1 % PAGE_SIZE == 0,
        excl2 % PAGE_SIZE == 0,
        forall|i: int|
            0 <= i < p1.len() && i != excl1 as int / PAGE_SIZE as int && i != excl2 as int
                / PAGE_SIZE as int ==> p2[i] == p1[i],
        !children_offs(p1, cs, h).contains(excl1),
        !children_offs(p1, cs, h).contains(excl2),
    ensures
        children_wf(p2, b, cs, ks, h, lo, hi),
        children_kvs(p2, cs, h) == children_kvs(p1, cs, h),
        children_offs(p2, cs, h) == children_offs(p1, cs, h),
{
    lemma_children_offs_valid(p1, b, cs, ks, h, lo, hi);
    assert forall|o: usize|
        #[trigger] children_offs(p1, cs, h).contains(o) implies (o as int / PAGE_SIZE as int)
        < p2.len() && p2[o as int / PAGE_SIZE as int] == p1[o as int / PAGE_SIZE as int] by {
        if o as int / PAGE_SIZE as int == excl1 as int / PAGE_SIZE as int {
            lemma_aligned_same_index(o, excl1);
        }
        if o as int / PAGE_SIZE as int == excl2 as int / PAGE_SIZE as int {
            lemma_aligned_same_index(o, excl2);
        }
    }
    lemma_children_frame(p1, p2, b, cs, ks, h, lo, hi);
}

/// A subtree survives changes confined to two pages outside it.
proof fn lemma_subtree_frame_except2(
    p1: Seq<Seq<u8>>,
    p2: Seq<Seq<u8>>,
    b: int,
    off: usize,
    h: nat,
    lo: Option<Seq<u8>>,
    hi: Option<Seq<u8>>,
    excl1: usize,
    excl2: usize,
)
    requires
        child_wf(p1, b, off, h, lo, hi),
        p2.len() >= p1.len(),
        excl1 % PAGE_SIZE == 0,
        excl2 % PAGE_SIZE == 0,
        forall|i: int|
            0 <= i < p1.len() && i != excl1 as int / PAGE_SIZE as int && i != excl2 as int
                / PAGE_SIZE as int ==> p2[i] == p1[i],
        !child_offs(p1, off, h).contains(excl1),
        !child_offs(p1, off, h).contains(excl2),
    ensures
        child_wf(p2, b, off, h, lo, hi),
        child_kvs(p2, off, h) == child_kvs(p1, off, h),
        child_offs(p2, off, h) == child_offs(p1, off, h),
{
    lemma_child_offs_valid(p1, b, off, h, lo, hi);
    assert forall|o: usize|
        #[trigger] child_offs(p1, off, h).contains(o) implies (o as int / PAGE_SIZE as int)
        < p2.len() && p2[o as int / PAGE_SIZE as int] == p1[o as int / PAGE_SIZE as int] by {
        if o as int / PAGE_SIZE as int == excl1 as int / PAGE_SIZE as int {
            lemma_aligned_same_index(o, excl1);
        }
        if o as int / PAGE_SIZE as int == excl2 as int / PAGE_SIZE as int {
            lemma_aligned_same_index(o, excl2);
        }
    }
    lemma_child_frame(p1, p2, b, off, h, lo, hi);
}

/// Swapping one child of a row for a subtree over the same interval that
/// holds one more record adds exactly that record to the row.
proof fn lemma_row_swap_child(
    pages: Seq<Seq<u8>>,
    b: int,
    cs: Seq<usize>,
    ks: Seq<Seq<u8>>,
    h: nat,
    lo: Option<Seq<u8>>,
    hi: Option<Seq<u8>>,
    idx: int,
    nco: usize,
    kvv: PairView,
)
    requires
        children_wf(pages, b, cs, ks, h, lo, hi),
        0 <= idx < cs.len(),
        child_wf(pages, b, nco, h, lo_of(ks, lo, idx), hi_of(ks, hi, idx)),
        child_kvs(pages, nco, h) == child_kvs(pages, cs[idx], h).insert(kvv),
    ensures
        children_wf(pages, b, cs.update(idx, nco), ks, h, lo, hi),
        children_kvs(pages, cs.update(idx, nco), h) == children_kvs(pages, cs, h).insert(kvv),
{
    lemma_children_update(pages, b, cs, ks, h, lo, hi, idx, nco);
    assert(children_kvs(pages, cs.update(idx, nco), h) =~= children_kvs(pages, cs, h).insert(
        kvv,
    ));
}

/// Replacing one full child of a row by its two split halves, with the
/// median promoted, keeps the row's records.
proof fn lemma_row_split_child(
    pages: Seq<Seq<u8>>,
    b: int,
    cs: Seq<usize>,
    ks: Seq<Seq<u8>>,
    h: nat,
    lo: Option<Seq<u8>>,
    hi: Option<Seq<u8>>,
    idx: int,
    loff: usize,
    roff: usize,
    m: Seq<u8>,
)
    requires
        children_wf(pages, b, cs, ks, h, lo, hi),
        keys_strictly_sorted(ks),
        0 <= idx <= ks.len(),
        cs.len() == ks.len() + 1,
        child_wf(pages, b, loff, h, lo_of(ks, lo, idx), Some(m)),
        child_wf(pages, b, roff, h, Some(m), hi_of(ks, hi, idx)),
        above_lo(lo_of(ks, lo, idx), m),
        idx < ks.len() ==> lex_lt(m, ks[idx]),
        idx == ks.len() ==> within_hi(m, hi),
        child_kvs(pages, loff, h).add(child_kvs(pages, roff, h)) == child_kvs(
            pages,
            cs[idx],
            h,
        ),
    ensures
        children_wf(
            pages,
            b,
            cs.update(idx, loff).insert(idx + 1, roff),
            ks.insert(idx, m),
            h,
            lo,
            hi,
        ),
        children_kvs(pages, cs.update(idx, loff).insert(idx + 1, roff), h) == children_kvs(
            pages,
            cs,
            h,
        ),
{
    lemma_children_insert_split(pages, b, cs, ks, h, lo, hi, idx, loff, roff, m);
    assert(children_kvs(pages, cs.update(idx, loff).insert(idx + 1, roff), h) =~= children_kvs(
        pages,
        cs,
        h,
    ));
}


impl BTree {
    /// Inserts a key-value pair, splitting full nodes on the way down. The
    /// walk is copy-on-write: every visited node is rewritten at a fresh
    /// offset, and the log is advanced to the new root only as the last
    /// step, so a failed insert leaves the tree readable as of the last
    /// success. A full root is split first, which makes the tree one level
    /// deeper. The key must not already be in the tree.
    pub fn insert(&mut self, kv: KeyValuePair) -> (r: Result<(), Error>)
        requires
            old(self).inv(),
            !old(self).contains_key(kv@.key),
        ensures
            final(self).inv(),
            final(self).b_param() == old(self).b_param(),
            match r {
                Ok(_) => {
                    &&& final(self).kvs() == old(self).kvs().insert(kv@)
                    &&& final(self).height() == old(self).height() + (if old(self).root_full() {
                        1nat
                    } else {
                        0nat
                    })
                },
                Err(e) => {
                    &&& (e == Error::UnexpectedError || e == Error::IoError)
                    &&& final(self).kvs() == old(self).kvs()
                    &&& final(self).height() == old(self).height()
                    &&& (e == Error::IoError ==> final(self).store_at_cap())
                    &&& (e == Error::UnexpectedError ==> final(self).oversize_blocked(kv@))
                },
            },
    {
        let ghost b = self.b_param();
        let ghost pages0 = self.pager@;
        let ghost h0 = self.ht@;
        let ghost kvv = kv@;
        let ghost kk = kv@.key;
        let ghost len0 = pages0.len() as int;
        let root_offset = match self.wal.get_root_offset() {
            Ok(o) => o,
            Err(e) => {
                proof {
                    assert(false);
                }
                return Err(Error::UnexpectedError);
            },
        };
        let root_page = match self.pager.get_page(&root_offset) {
            Ok(p) => p,
            Err(e) => {
                proof {
                    assert(false);
                }
                return Err(Error::IoError);
            },
        };
        let mut root = match Node::decode(&root_page) {
            Ok(n) => n,
            Err(e) => {
                proof {
                    assert(false);
                }
                return Err(Error::UnexpectedError);
            },
        };
        let ghost rv0 = root@;
        proof {
            assert(node_at(pages0, self.wal@.last()) == Some(rv0));
            assert(node_wf(pages0, b, rv0, h0, None, None, true));
            assert(self.kvs() == node_kvs(pages0, rv0, h0));
            assert(len0 >= 1);
            // the root's own subtree is page-aligned and within the store
            match rv0.node_type {
                NodeTypeView::Internal(cs0, ks0) => {
                    lemma_children_offs_valid(
                        pages0,
                        b,
                        cs0,
                        ks0,
                        (h0 - 1) as nat,
                        None,
                        None,
                    );
                    assert forall|o: usize|
                        #[trigger] node_offs(pages0, rv0, h0).contains(o) implies (o as int)
                        < len0 * (PAGE_SIZE as int) by {
                        assert(children_offs(pages0, cs0, (h0 - 1) as nat).contains(o));
                        lemma_off_below(o, len0);
                    }
                },
                NodeTypeView::Leaf(ps0) => {
                    assert(node_offs(pages0, rv0, h0) =~= Set::<usize>::empty());
                },
                NodeTypeView::Unexpected => {},
            }
        }
        let full = match self.is_node_full(&root) {
            Ok(f) => f,
            Err(e) => {
                proof {
                    assert(false);
                }
                return Err(e);
            },
        };
        if !full {
            let page = match root.encode() {
                Ok(p) => p,
                Err(e) => {
                    proof {
                        assert(false);
                    }
                    return Err(Error::UnexpectedError);
                },
            };
            let new_root_offset = match self.pager.write_page(page) {
                Ok(o) => o,
                Err(e) => {
                    return Err(Error::IoError);
                },
            };
            let ghost pages1 = self.pager@;
            let ghost nro = new_root_offset.0;
            proof {
                lemma_page_index(len0);
                assert(nro % PAGE_SIZE == 0 && nro as int / PAGE_SIZE as int == len0);
                assert(!node_offs(pages0, rv0, h0).contains(nro));
                lemma_node_frame_except(pages0, pages1, b, rv0, h0, None, None, true, nro);
                crate::page::lemma_decode_encode(rv0);
                assert(pages1[len0] == spec_page_of(rv0));
                assert(node_at(pages1, nro) == Some(rv0));
                assert forall|pv: PairView|
                    node_kvs(pages1, rv0, h0).contains(pv) implies pv.key != kk by {
                    assert(node_kvs(pages0, rv0, h0).contains(pv));
                }
            }
            let rr = self.insert_non_full(
                &mut root,
                new_root_offset,
                kv,
                Ghost(h0),
                Ghost(None),
                Ghost(None),
                Ghost(true),
            );
            let ghost pagesf = self.pager@;
            proof {
                assert forall|i: int| 0 <= i < len0 implies pagesf[i] == pages0[i] by {
                    assert(i != len0);
                    assert(pagesf[i] == pages1[i]);
                }
            }
            match rr {
                Ok(_) => {},
                Err(e) => {
                    proof {
                        lemma_root_intact(pages0, pagesf, b, rv0, h0, nro, self.wal@.last());
                        assert(self.kvs() == node_kvs(pagesf, rv0, h0));
                    }
                    return Err(e);
                },
            }
            match self.wal.set_root(new_root_offset) {
                Ok(_) => {},
                Err(e) => {
                    return Err(e);
                },
            }
            proof {
                let got = node_at(pagesf, nro);
                assert(got is Some);
                assert(self.wal@.last() == nro);
                assert(node_wf(pagesf, b, got->Some_0, h0, None, None, true));
                assert(self.kvs() == node_kvs(pagesf, got->Some_0, h0));
                assert(self.kvs() == node_kvs(pages0, rv0, h0).insert(kvv));
            }
            Ok(())
        } else {
            self.insert_split_root(root, kv, Ghost(rv0))
        }
    }
}



/// A fresh root with one separator and the two halves as children is a
/// well-formed tree one level higher, holding the halves' records.
#[verifier::rlimit(60)]
proof fn lemma_new_root(
    pages: Seq<Seq<u8>>,
    b: int,
    oro: usize,
    so: usize,
    m: Seq<u8>,
    h0: nat,
    nrv: NodeView,
    nro: usize,
)
    requires
        b >= 2,
        child_wf(pages, b, oro, h0, None, Some(m)),
        child_wf(pages, b, so, h0, Some(m), None),
        nrv.node_type == NodeTypeView::Internal(seq![oro, so], seq![m]),
        codec_wf(nrv),
        enc_node(nrv).len() <= PAGE_SIZE,
        forall|o: usize| #[trigger] child_offs(pages, oro, h0).contains(o) ==> o != nro,
        forall|o: usize| #[trigger] child_offs(pages, so, h0).contains(o) ==> o != nro,
    ensures
        node_wf(pages, b, nrv, (h0 + 1) as nat, None, None, true),
        forall|pv: PairView|
            node_kvs(pages, nrv, (h0 + 1) as nat).count(pv) == child_kvs(pages, oro, h0).count(
                pv,
            ) + child_kvs(pages, so, h0).count(pv),
        !node_offs(pages, nrv, (h0 + 1) as nat).contains(nro),
{
    let nrcs = seq![oro, so];
    let nrks = seq![m];
    let h1 = (h0 + 1) as nat;
    assert(nrcs.drop_first() =~= seq![so]);
    assert(nrks.drop_first() =~= Seq::<Seq<u8>>::empty());
    assert(nrcs.drop_first().drop_first() =~= Seq::<usize>::empty());
    assert(children_wf(pages, b, nrcs.drop_first(), nrks.drop_first(), h0, Some(m), None));
    assert(children_wf(pages, b, nrcs, nrks, h0, None, None));
    assert(keys_strictly_sorted(nrks));
    assert(node_wf(pages, b, nrv, h1, None, None, true));
    assert forall|pv: PairView|
        node_kvs(pages, nrv, h1).count(pv) == child_kvs(pages, oro, h0).count(pv) + child_kvs(
        pages,
        so,
        h0,
    ).count(pv) by {
        assert(children_kvs(pages, nrcs, h0) == child_kvs(pages, oro, h0).add(
            children_kvs(pages, nrcs.drop_first(), h0),
        ));
        assert(children_kvs(pages, nrcs.drop_first(), h0) == child_kvs(pages, so, h0).add(
            children_kvs(pages, nrcs.drop_first().drop_first(), h0),
        ));
    }
    assert forall|o: usize|
        #[trigger] node_offs(pages, nrv, h1).contains(o) implies o != nro by {
        assert(children_offs(pages, nrcs, h0).contains(o));
        assert(children_offs(pages, nrcs, h0) == child_offs(pages, oro, h0).union(
            children_offs(pages, nrcs.drop_first(), h0),
        ));
        assert(children_offs(pages, nrcs.drop_first(), h0) == child_offs(pages, so, h0).union(
            children_offs(pages, nrcs.drop_first().drop_first(), h0),
        ));
    }
}


/// After appending the pages of the two halves of a split root, both halves
/// are stored, well-formed over their intervals, and together hold the old
/// root's records.
#[verifier::rlimit(100)]
proof fn lemma_halves_stored(
    pages1: Seq<Seq<u8>>,
    pages2: Seq<Seq<u8>>,
    pages3: Seq<Seq<u8>>,
    b: int,
    rv1: NodeView,
    lv: NodeView,
    rvv: NodeView,
    m: Seq<u8>,
    h0: nat,
    oro: usize,
    so: usize,
)
    requires
        node_wf(pages1, b, rv1, h0, None, None, false),
        is_full(rv1.node_type, b),
        b >= 2,
        lv.parent_offset == rv1.parent_offset,
        rvv.parent_offset == rv1.parent_offset,
        enc_node(lv).len() <= PAGE_SIZE,
        enc_node(rvv).len() <= PAGE_SIZE,
        match rv1.node_type {
            NodeTypeView::Leaf(ps) => {
                &&& lv.node_type == NodeTypeView::Leaf(ps.subrange(0, b))
                &&& m == ps[b - 1].key
                &&& rvv.node_type == NodeTypeView::Leaf(ps.subrange(b, 2 * b - 1))
            },
            NodeTypeView::Internal(cs, ks) => {
                &&& cs.len() == ks.len() + 1
                &&& lv.node_type == NodeTypeView::Internal(
                    cs.subrange(0, b),
                    ks.subrange(0, b - 1),
                )
                &&& m == ks[b - 1]
                &&& rvv.node_type == NodeTypeView::Internal(
                    cs.subrange(b, 2 * b),
                    ks.subrange(b, 2 * b - 1),
                )
            },
            NodeTypeView::Unexpected => false,
        },
        pages2 == pages1.push(spec_page_of(lv)),
        pages3 == pages2.push(spec_page_of(rvv)),
        oro % PAGE_SIZE == 0,
        so % PAGE_SIZE == 0,
        oro as int / PAGE_SIZE as int == pages1.len() as int,
        so as int / PAGE_SIZE as int == pages1.len() as int + 1,
        forall|o: usize|
            #[trigger] node_offs(pages1, rv1, h0).contains(o) ==> (o as int / PAGE_SIZE as int)
                < pages1.len() - 1,
    ensures
        node_at(pages3, oro) == Some(lv),
        node_at(pages3, so) == Some(rvv),
        node_wf(pages3, b, lv, h0, None, Some(m), false),
        node_wf(pages3, b, rvv, h0, Some(m), None, false),
        forall|pv: PairView|
            node_kvs(pages3, lv, h0).count(pv) + node_kvs(pages3, rvv, h0).count(pv) == node_kvs(
                pages1,
                rv1,
                h0,
            ).count(pv),
        forall|o: usize|
            (node_offs(pages3, lv, h0).contains(o) || node_offs(pages3, rvv, h0).contains(o))
                ==> node_offs(pages1, rv1, h0).contains(o),
{
    lemma_split_halves(pages1, b, rv1, lv, rvv, m, h0, None, None);
    assert forall|o: usize| (node_offs(pages1, lv, h0).contains(o) || node_offs(
        pages1,
        rvv,
        h0,
    ).contains(o)) implies o != oro && o != so by {
        assert(node_offs(pages1, rv1, h0).contains(o));
        if o as int / PAGE_SIZE as int == oro as int / PAGE_SIZE as int {
            lemma_aligned_same_index(o, oro);
        }
        if o as int / PAGE_SIZE as int == so as int / PAGE_SIZE as int {
            lemma_aligned_same_index(o, so);
        }
    }
    crate::page::lemma_decode_encode(lv);
    assert(pages2[oro as int / PAGE_SIZE as int] == spec_page_of(lv));
    assert(node_at(pages2, oro) == Some(lv));
    lemma_node_frame_except(pages1, pages2, b, lv, h0, None, Some(m), false, oro);
    lemma_node_frame_except(pages1, pages2, b, rvv, h0, Some(m), None, false, oro);
    lemma_node_frame_except(pages2, pages3, b, lv, h0, None, Some(m), false, so);
    lemma_node_frame_except(pages2, pages3, b, rvv, h0, Some(m), None, false, so);
    crate::page::lemma_decode_encode(rvv);
    assert(pages3[so as int / PAGE_SIZE as int] == spec_page_of(rvv));
    assert(node_at(pages3, so) == Some(rvv));
    assert(node_at(pages3, oro) == Some(lv));
}

/// The previously visible root is untouched by changes confined to one
/// fresh page.
proof fn lemma_root_intact(
    pages0: Seq<Seq<u8>>,
    cur: Seq<Seq<u8>>,
    b: int,
    rv0: NodeView,
    h0: nat,
    nro: usize,
    last: usize,
)
    requires
        node_wf(pages0, b, rv0, h0, None, None, true),
        node_at(pages0, last) == Some(rv0),
        cur.len() >= pages0.len(),
        nro % PAGE_SIZE == 0,
        last != nro,
        forall|i: int|
            0 <= i < pages0.len() && i != nro as int / PAGE_SIZE as int ==> cur[i] == pages0[i],
        !node_offs(pages0, rv0, h0).contains(nro),
    ensures
        node_at(cur, last) == Some(rv0),
        node_wf(cur, b, rv0, h0, None, None, true),
        node_kvs(cur, rv0, h0) == node_kvs(pages0, rv0, h0),
{
    lemma_node_frame_except(pages0, cur, b, rv0, h0, None, None, true, nro);
    if last as int / PAGE_SIZE as int == nro as int / PAGE_SIZE as int {
        lemma_aligned_same_index(last, nro);
    }
    assert(cur[last as int / PAGE_SIZE as int] == pages0[last as int / PAGE_SIZE as int]);
}


/// Writing the populated new root over its placeholder page yields a stored
/// root one level higher holding exactly the old root's records.
#[verifier::rlimit(100)]
proof fn lemma_new_root_stored(
    pages0: Seq<Seq<u8>>,
    pages1: Seq<Seq<u8>>,
    pages3: Seq<Seq<u8>>,
    pages4: Seq<Seq<u8>>,
    b: int,
    rv0: NodeView,
    rv1: NodeView,
    lv: NodeView,
    rvv: NodeView,
    m: Seq<u8>,
    h0: nat,
    nro: usize,
    oro: usize,
    so: usize,
    nrv: NodeView,
)
    requires
        b >= 2,
        node_wf(pages0, b, rv0, h0, None, None, true),
        rv1.node_type == rv0.node_type,
        node_kvs(pages1, rv1, h0) == node_kvs(pages0, rv0, h0),
        node_offs(pages1, rv1, h0) == node_offs(pages0, rv0, h0),
        forall|o: usize| #[trigger] node_offs(pages0, rv0, h0).contains(o) ==> o != nro,
        node_at(pages3, oro) == Some(lv),
        node_at(pages3, so) == Some(rvv),
        node_wf(pages3, b, lv, h0, None, Some(m), false),
        node_wf(pages3, b, rvv, h0, Some(m), None, false),
        forall|pv: PairView|
            node_kvs(pages3, lv, h0).count(pv) + node_kvs(pages3, rvv, h0).count(pv) == node_kvs(
                pages1,
                rv1,
                h0,
            ).count(pv),
        forall|o: usize|
            (node_offs(pages3, lv, h0).contains(o) || node_offs(pages3, rvv, h0).contains(o))
                ==> node_offs(pages1, rv1, h0).contains(o),
        pages4 == pages3.update(nro as int / PAGE_SIZE as int, spec_page_of(nrv)),
        nro % PAGE_SIZE == 0,
        (nro as int / PAGE_SIZE as int) < pages3.len(),
        oro != nro,
        so != nro,
        nrv.node_type == NodeTypeView::Internal(seq![oro, so], seq![m]),
        codec_wf(nrv),
        enc_node(nrv).len() <= PAGE_SIZE,
    ensures
        node_at(pages4, nro) == Some(nrv),
        node_wf(pages4, b, nrv, (h0 + 1) as nat, None, None, true),
        forall|pv: PairView|
            node_kvs(pages4, nrv, (h0 + 1) as nat).count(pv) == node_kvs(pages0, rv0, h0).count(
                pv,
            ),
        !node_offs(pages4, nrv, (h0 + 1) as nat).contains(nro),
{
    let h1 = (h0 + 1) as nat;
    crate::page::lemma_decode_encode(nrv);
    assert(pages4[nro as int / PAGE_SIZE as int] == spec_page_of(nrv));
    assert(node_at(pages4, nro) == Some(nrv));
    lemma_node_frame_except(pages3, pages4, b, lv, h0, None, Some(m), false, nro);
    lemma_node_frame_except(pages3, pages4, b, rvv, h0, Some(m), None, false, nro);
    assert(node_at(pages4, oro) == Some(lv));
    assert(node_at(pages4, so) == Some(rvv));
    assert(child_wf(pages4, b, oro, h0, None, Some(m)));
    assert(child_wf(pages4, b, so, h0, Some(m), None));
    assert forall|o: usize|
        #[trigger] child_offs(pages4, oro, h0).contains(o) implies o != nro by {
        if o != oro {
            assert(node_offs(pages4, lv, h0).contains(o));
            assert(node_offs(pages3, lv, h0).contains(o));
            assert(node_offs(pages1, rv1, h0).contains(o));
            assert(node_offs(pages0, rv0, h0).contains(o));
        }
    }
    assert forall|o: usize|
        #[trigger] child_offs(pages4, so, h0).contains(o) implies o != nro by {
        if o != so {
            assert(node_offs(pages4, rvv, h0).contains(o));
            assert(node_offs(pages3, rvv, h0).contains(o));
            assert(node_offs(pages1, rv1, h0).contains(o));
            assert(node_offs(pages0, rv0, h0).contains(o));
        }
    }
    lemma_new_root(pages4, b, oro, so, m, h0, nrv, nro);
    assert forall|pv: PairView|
        node_kvs(pages4, nrv, h1).count(pv) == node_kvs(pages0, rv0, h0).count(pv) by {
        assert(child_kvs(pages4, oro, h0) == node_kvs(pages3, lv, h0));
        assert(child_kvs(pages4, so, h0) == node_kvs(pages3, rvv, h0));
    }
}

impl BTree {
    /// First phase of a root split: allocates the placeholder page for the
    /// fresh root, splits the old root around its median, and writes both
    /// halves at fresh offsets. The log still names the old root.
    #[verifier::rlimit(100)]
    fn split_root_halves(
        &mut self,
        mut root: Node,
        Ghost(rv0): Ghost<NodeView>,
    ) -> (r: Result<(Node, Offset, Key, Offset, Offset), Error>)
        requires
            old(self).inv(),
            old(self).root_full(),
            root@ == rv0,
            node_at(old(self).pager@, old(self).wal@.last()) == Some(rv0),
        ensures
            final(self).inv(),
            final(self).b_param() == old(self).b_param(),
            final(self).wal@ == old(self).wal@,
            final(self).height() == old(self).height(),
            final(self).kvs() == old(self).kvs(),
            match r {
                Ok((new_root, new_root_offset, median, old_root_offset, sibling_offset)) => ({
                    let q = final(self).pager@;
                    let q0 = old(self).pager@;
                    let b = old(self).b_param();
                    let h0 = old(self).height();
                    let m = median@;
                    let lvv = node_at(q, old_root_offset.0)->Some_0;
                    let rvv = node_at(q, sibling_offset.0)->Some_0;
                    &&& q.len() == q0.len() + 3
                    &&& (forall|i: int| 0 <= i < q0.len() ==> q[i] == q0[i])
                    &&& new_root_offset.0 % PAGE_SIZE == 0
                    &&& new_root_offset.0 as int / PAGE_SIZE as int == q0.len() as int
                    &&& new_root_offset.0 >= PAGE_SIZE
                    &&& old_root_offset.0 % PAGE_SIZE == 0
                    &&& old_root_offset.0 as int / PAGE_SIZE as int == q0.len() as int + 1
                    &&& sibling_offset.0 % PAGE_SIZE == 0
                    &&& sibling_offset.0 as int / PAGE_SIZE as int == q0.len() as int + 2
                    &&& new_root.is_root == true
                    &&& new_root@.parent_offset is None
                    &&& node_at(q, old_root_offset.0) is Some
                    &&& node_at(q, sibling_offset.0) is Some
                    &&& node_wf(q, b, lvv, h0, None, Some(m), false)
                    &&& node_wf(q, b, rvv, h0, Some(m), None, false)
                    &&& entry_count(lvv.node_type) < 2 * b - 1
                    &&& entry_count(rvv.node_type) < 2 * b - 1
                    &&& m == median_key(rv0.node_type, b)
                    &&& (forall|pv: PairView|
                        node_kvs(q, lvv, h0).count(pv) + node_kvs(q, rvv, h0).count(pv)
                            == node_kvs(q0, rv0, h0).count(pv))
                    &&& (forall|o: usize|
                        node_offs(q, lvv, h0).contains(o) || node_offs(q, rvv, h0).contains(o)
                            ==> node_offs(q0, rv0, h0).contains(o))
                    &&& (forall|o: usize|
                        node_offs(q0, rv0, h0).contains(o) ==> (o as int) < q0.len() * (
                        PAGE_SIZE as int))
                }),
                Err(e) => {
                    &&& e == Error::IoError
                    &&& final(self).store_at_cap()
                },
            },
    {
        let ghost b = self.b_param();
        let ghost pages0 = self.pager@;
        let ghost h0 = self.ht@;
        let ghost len0 = pages0.len() as int;
        proof {
            assert(node_wf(pages0, b, rv0, h0, None, None, true));
            assert(self.kvs() == node_kvs(pages0, rv0, h0));
            assert(len0 >= 1);
            match rv0.node_type {
                NodeTypeView::Internal(cs0, ks0) => {
                    lemma_children_offs_valid(pages0, b, cs0, ks0, (h0 - 1) as nat, None, None);
                    assert forall|o: usize|
                        #[trigger] node_offs(pages0, rv0, h0).contains(o) implies (o as int)
                        < len0 * (PAGE_SIZE as int) by {
                        assert(children_offs(pages0, cs0, (h0 - 1) as nat).contains(o));
                        lemma_off_below(o, len0);
                    }
                },
                NodeTypeView::Leaf(ps0) => {
                    assert(node_offs(pages0, rv0, h0) =~= Set::<usize>::empty());
                },
                NodeTypeView::Unexpected => {},
            }
        }
            let mut new_root = Node::new(
                NodeType::Internal(Vec::new(), Vec::new()),
                true,
                None,
            );
            proof {
                assert(new_root@.node_type->Internal_0 =~= Seq::<usize>::empty());
                assert(new_root@.node_type->Internal_1 =~= Seq::<Seq<u8>>::empty());
                assert(crate::page::enc_offsets(new_root@.node_type->Internal_0) == Seq::<
                    u8,
                >::empty());
                assert(crate::page::enc_keys(new_root@.node_type->Internal_1) == Seq::<
                    u8,
                >::empty());
                assert(enc_node(new_root@).len() == 18);
            }
            let placeholder = match new_root.encode() {
                Ok(p) => p,
                Err(e) => {
                    proof {
                        assert(false);
                    }
                    return Err(Error::UnexpectedError);
                },
            };
            let new_root_offset = match self.pager.write_page(placeholder) {
                Ok(o) => o,
                Err(e) => {
                    return Err(Error::IoError);
                },
            };
            let ghost pages1 = self.pager@;
            let ghost nro = new_root_offset.0;
            proof {
                lemma_page_index(len0);
                assert(nro % PAGE_SIZE == 0 && nro as int / PAGE_SIZE as int == len0);
                assert(nro >= PAGE_SIZE);
                assert(!node_offs(pages0, rv0, h0).contains(nro));
                lemma_node_frame_except(pages0, pages1, b, rv0, h0, None, None, true, nro);
            }
            root.parent_offset = Some(new_root_offset);
            root.is_root = false;
            let ghost rv1 = root@;
            proof {
                assert(rv1.node_type == rv0.node_type);
                assert(node_kvs(pages1, rv1, h0) == node_kvs(pages1, rv0, h0));
                assert(node_offs(pages1, rv1, h0) == node_offs(pages1, rv0, h0));
                assert(enc_node(rv1).len() == enc_node(rv0).len());
                assert(codec_wf(rv1));
                assert(node_wf(pages1, b, rv1, h0, None, None, false));
            }
            let (median, mut sibling) = match root.split(self.b) {
                Ok(t) => t,
                Err(e) => {
                    proof {
                        assert(false);
                    }
                    return Err(e);
                },
            };
            let ghost lv = root@;
            let ghost rvv = sibling@;
            let ghost m = median@;
            proof {
                lemma_split_halves_fit(rv1, lv, rvv, m, b);
            }
            let lp = match root.encode() {
                Ok(p) => p,
                Err(e) => {
                    proof {
                        assert(false);
                    }
                    return Err(Error::UnexpectedError);
                },
            };
            let old_root_offset = match self.pager.write_page(lp) {
                Ok(o) => o,
                Err(e) => {
                    proof {
                        let cur = self.pager@;
                        assert forall|i: int| 0 <= i < len0 implies cur[i] == pages0[i] by {
                            assert(cur[i] == pages1[i]);
                        }
                        lemma_root_intact(pages0, cur, b, rv0, h0, nro, self.wal@.last());
                        assert(self.kvs() == node_kvs(cur, rv0, h0));
                    }
                    return Err(Error::IoError);
                },
            };
            let ghost pages2 = self.pager@;
            let ghost oro = old_root_offset.0;
            let sp = match sibling.encode() {
                Ok(p) => p,
                Err(e) => {
                    proof {
                        assert(false);
                    }
                    return Err(Error::UnexpectedError);
                },
            };
            let sibling_offset = match self.pager.write_page(sp) {
                Ok(o) => o,
                Err(e) => {
                    proof {
                        let cur = self.pager@;
                        assert forall|i: int| 0 <= i < len0 implies cur[i] == pages0[i] by {
                            assert(cur[i] == pages2[i]);
                            assert(pages2[i] == pages1[i]);
                        }
                        lemma_root_intact(pages0, cur, b, rv0, h0, nro, self.wal@.last());
                        assert(self.kvs() == node_kvs(cur, rv0, h0));
                    }
                    return Err(Error::IoError);
                },
            };
            let ghost pages3 = self.pager@;
            let ghost so = sibling_offset.0;
            proof {
                lemma_page_index(len0 + 1);
                lemma_page_index(len0 + 2);
                assert(oro % PAGE_SIZE == 0 && oro as int / PAGE_SIZE as int == len0 + 1);
                assert(so % PAGE_SIZE == 0 && so as int / PAGE_SIZE as int == len0 + 2);
                assert forall|o: usize|
                    #[trigger] node_offs(pages1, rv1, h0).contains(o) implies (o as int
                    / PAGE_SIZE as int) < pages1.len() - 1 by {
                    assert(node_offs(pages0, rv0, h0).contains(o));
                    assert((o as int) < len0 * (PAGE_SIZE as int));
                }
                lemma_halves_stored(pages1, pages2, pages3, b, rv1, lv, rvv, m, h0, oro, so);
            }
            proof {
                assert forall|i: int| 0 <= i < len0 implies pages3[i] == pages0[i] by {
                    assert(pages3[i] == pages2[i] && pages2[i] == pages1[i]);
                }
                lemma_root_intact(pages0, pages3, b, rv0, h0, nro, self.wal@.last());
                assert(self.kvs() == node_kvs(pages3, rv0, h0));
                assert(median_key(rv1.node_type, b) == m);
                assert(entry_count(lv.node_type) < 2 * b - 1);
                assert(entry_count(rvv.node_type) < 2 * b - 1);
                assert forall|pv: PairView|
                    node_kvs(pages3, lv, h0).count(pv) + node_kvs(pages3, rvv, h0).count(pv)
                    == node_kvs(pages0, rv0, h0).count(pv) by {
                    assert(node_kvs(pages1, rv1, h0) == node_kvs(pages0, rv0, h0));
                }
                assert forall|o: usize|
                    node_offs(pages3, lv, h0).contains(o) || node_offs(
                    pages3,
                    rvv,
                    h0,
                ).contains(o) implies node_offs(pages0, rv0, h0).contains(o) by {
                    assert(node_offs(pages1, rv1, h0).contains(o));
                    assert(node_offs(pages1, rv1, h0) == node_offs(pages0, rv0, h0));
                }
            }
            Ok((new_root, new_root_offset, median, old_root_offset, sibling_offset))
    }

    /// Splits a full root: a fresh internal root is allocated first, the old
    /// root is split into two children beneath it, and the walk continues
    /// below the new root; the tree gets one level deeper.
    #[verifier::rlimit(100)]
    fn insert_split_root(
        &mut self,
        root: Node,
        kv: KeyValuePair,
        Ghost(rv0): Ghost<NodeView>,
    ) -> (r: Result<(), Error>)
        requires
            old(self).inv(),
            !old(self).contains_key(kv@.key),
            old(self).root_full(),
            root@ == rv0,
            node_at(old(self).pager@, old(self).wal@.last()) == Some(rv0),
        ensures
            final(self).inv(),
            final(self).b_param() == old(self).b_param(),
            match r {
                Ok(_) => {
                    &&& final(self).kvs() == old(self).kvs().insert(kv@)
                    &&& final(self).height() == old(self).height() + 1
                },
                Err(e) => {
                    &&& (e == Error::UnexpectedError || e == Error::IoError)
                    &&& final(self).kvs() == old(self).kvs()
                    &&& final(self).height() == old(self).height()
                    &&& (e == Error::IoError ==> final(self).store_at_cap())
                    &&& (e == Error::UnexpectedError ==> final(self).oversize_blocked(kv@))
                },
            },
    {
        let ghost b = self.b_param();
        let ghost pages0 = self.pager@;
        let ghost h0 = self.ht@;
        let ghost kvv = kv@;
        let ghost kk = kv@.key;
        let ghost len0 = pages0.len() as int;
        proof {
            assert(node_wf(pages0, b, rv0, h0, None, None, true));
            assert(self.kvs() == node_kvs(pages0, rv0, h0));
        }
        let (mut new_root, new_root_offset, median, old_root_offset, sibling_offset) =
            match self.split_root_halves(root, Ghost(rv0)) {
            Ok(t) => t,
            Err(e) => {
                return Err(e);
            },
        };
        let ghost pages3 = self.pager@;
        let ghost nro = new_root_offset.0;
        let ghost oro = old_root_offset.0;
        let ghost so = sibling_offset.0;
        let ghost m = median@;
        let ghost lv = node_at(pages3, oro)->Some_0;
        let ghost rvv = node_at(pages3, so)->Some_0;
        let mut offsets: Vec<Offset> = Vec::new();
        offsets.push(old_root_offset);
        offsets.push(sibling_offset);
        let mut new_keys: Vec<Key> = Vec::new();
        new_keys.push(median);
        let ghost nrcs = offsets@.map_values(|c: Offset| c.0);
        let ghost nrks = key_views(new_keys@);
        new_root.node_type = NodeType::Internal(offsets, new_keys);
        let ghost nrv = new_root@;
        proof {
            assert(nrcs =~= seq![oro, so]);
            assert(nrks =~= seq![m]);
            assert(nrv.node_type == NodeTypeView::Internal(nrcs, nrks));
            broadcast use vstd::utf8::encode_utf8_valid_utf8;

            assert(codec_wf(nrv));
        }
        let np = match new_root.encode() {
            Ok(p) => p,
            Err(e) => {
                proof {
                    lemma_new_root_fits(rv0, nrv, oro, so, b);
                    assert(false);
                }
                return Err(Error::UnexpectedError);
            },
        };
        match self.pager.write_page_at_offset(np, &new_root_offset) {
            Ok(_) => {},
            Err(e) => {
                proof {
                    assert(false);
                }
                return Err(Error::IoError);
            },
        }
        let ghost pages4 = self.pager@;
        let ghost h1 = (h0 + 1) as nat;
        proof {
            assert forall|o: usize|
                #[trigger] node_offs(pages0, rv0, h0).contains(o) implies o != nro by {
                assert((o as int) < len0 * (PAGE_SIZE as int));
            }
            lemma_new_root_stored(
                pages0,
                pages0,
                pages3,
                pages4,
                b,
                rv0,
                rv0,
                lv,
                rvv,
                m,
                h0,
                nro,
                oro,
                so,
                nrv,
            );
            assert(node_kvs(pages4, nrv, h1) =~= node_kvs(pages0, rv0, h0));
            assert forall|pv: PairView|
                node_kvs(pages4, nrv, h1).contains(pv) implies pv.key != kk by {
                assert(node_kvs(pages0, rv0, h0).contains(pv));
            }
        }
        let rr = self.insert_non_full(
            &mut new_root,
            new_root_offset,
            kv,
            Ghost(h1),
            Ghost(None),
            Ghost(None),
            Ghost(true),
        );
        let ghost pagesf = self.pager@;
        proof {
            assert forall|i: int| 0 <= i < len0 implies pagesf[i] == pages0[i] by {
                assert(i != len0);
                assert(pagesf[i] == pages4[i]);
                assert(pages4[i] == pages3[i]);
            }
        }
        match rr {
            Ok(_) => {},
            Err(e) => {
                proof {
                    lemma_root_intact(pages0, pagesf, b, rv0, h0, nro, self.wal@.last());
                    assert(self.kvs() == node_kvs(pagesf, rv0, h0));
                }
                return Err(e);
            },
        }
        match self.wal.set_root(new_root_offset) {
            Ok(_) => {},
            Err(e) => {
                return Err(e);
            },
        }
        self.ht = Ghost(h1);
        proof {
            let got = node_at(pagesf, nro);
            assert(got is Some);
            assert(self.wal@.last() == nro);
            assert(node_wf(pagesf, b, got->Some_0, h1, None, None, true));
            assert(self.kvs() == node_kvs(pagesf, got->Some_0, h1));
            assert(self.kvs() == node_kvs(pages0, rv0, h0).insert(kvv));
        }
        Ok(())
    }
}


/// A stored leaf that cannot take the new pair: its encoding plus the
/// pair's would exceed one page.
pub open spec fn oversized_leaf(pages: Seq<Seq<u8>>, off: usize, kvv: PairView) -> bool {
    &&& node_at(pages, off) is Some
    &&& node_at(pages, off)->Some_0.node_type is Leaf
    &&& enc_node(node_at(pages, off)->Some_0).len() + 8 + kvv.key.len() + kvv.value.len()
        > PAGE_SIZE
}

/// A stored internal node that cannot take the median a full stored child
/// would promote: its encoding plus one child pointer and the encoded
/// median would exceed one page.
pub open spec fn oversized_parent(pages: Seq<Seq<u8>>, off1: usize, off2: usize, b: int) -> bool {
    &&& node_at(pages, off1) is Some
    &&& node_at(pages, off1)->Some_0.node_type is Internal
    &&& node_at(pages, off2) is Some
    &&& is_full(node_at(pages, off2)->Some_0.node_type, b)
    &&& enc_node(node_at(pages, off1)->Some_0).len() + 12 + median_key(
        node_at(pages, off2)->Some_0.node_type,
        b,
    ).len() > PAGE_SIZE
}

/// The store holds evidence that an insert of `kvv` had to rewrite a node
/// beyond one page: a leaf too full for the pair, or a parent too full for
/// a promoted median.
pub open spec fn oversized_rewrite(pages: Seq<Seq<u8>>, b: int, kvv: PairView) -> bool {
    ||| exists|off: usize| #[trigger] oversized_leaf(pages, off, kvv)
    ||| exists|off1: usize, off2: usize| #[trigger] oversized_parent(pages, off1, off2, b)
}

/// Both halves of a split encode within the whole node's encoding.
proof fn lemma_split_halves_fit(cv: NodeView, lv: NodeView, rv: NodeView, m: Seq<u8>, b: int)
    requires
        is_full(cv.node_type, b),
        b >= 2,
        match cv.node_type {
            NodeTypeView::Leaf(ps) => {
                &&& lv.node_type == NodeTypeView::Leaf(ps.subrange(0, b))
                &&& rv.node_type == NodeTypeView::Leaf(ps.subrange(b, 2 * b - 1))
            },
            NodeTypeView::Internal(cs, ks) => {
                &&& cs.len() == ks.len() + 1
                &&& lv.node_type == NodeTypeView::Internal(
                    cs.subrange(0, b),
                    ks.subrange(0, b - 1),
                )
                &&& rv.node_type == NodeTypeView::Internal(
                    cs.subrange(b, 2 * b),
                    ks.subrange(b, 2 * b - 1),
                )
            },
            NodeTypeView::Unexpected => false,
        },
    ensures
        enc_node(lv).len() <= enc_node(cv).len(),
        enc_node(rv).len() <= enc_node(cv).len(),
{
    match cv.node_type {
        NodeTypeView::Leaf(ps) => {
            assert(ps =~= ps.subrange(0, b) + ps.subrange(b, 2 * b - 1));
            lemma_enc_pairs_append(ps.subrange(0, b), ps.subrange(b, 2 * b - 1));
        },
        NodeTypeView::Internal(cs, ks) => {
            assert(cs =~= cs.subrange(0, b) + cs.subrange(b, 2 * b));
            lemma_enc_offsets_append(cs.subrange(0, b), cs.subrange(b, 2 * b));
            assert(ks =~= ks.subrange(0, b - 1) + (seq![ks[b - 1]] + ks.subrange(b, 2 * b - 1)));
            lemma_enc_keys_append(ks.subrange(0, b - 1), seq![ks[b - 1]] + ks.subrange(
                b,
                2 * b - 1,
            ));
            lemma_enc_keys_append(seq![ks[b - 1]], ks.subrange(b, 2 * b - 1));
        },
        NodeTypeView::Unexpected => {},
    }
}

/// A fresh root of two children and the promoted median always fits one
/// page, because the median came out of a stored full node.
proof fn lemma_new_root_fits(cv: NodeView, nrv: NodeView, oro: usize, so: usize, b: int)
    requires
        is_full(cv.node_type, b),
        b >= 2,
        !(cv.node_type is Unexpected),
        (cv.node_type matches NodeTypeView::Internal(cs, ks) ==> cs.len() == ks.len() + 1),
        enc_node(cv).len() <= PAGE_SIZE,
        nrv.node_type == NodeTypeView::Internal(
            seq![oro, so],
            seq![median_key(cv.node_type, b)],
        ),
    ensures
        enc_node(nrv).len() <= PAGE_SIZE,
{
    let m = median_key(cv.node_type, b);
    lemma_enc_offsets_len(seq![oro, so]);
    assert(seq![m].drop_first() =~= Seq::<Seq<u8>>::empty());
    assert(enc_keys(seq![m]) == enc_key(m) + enc_keys(seq![m].drop_first()));
    assert(enc_node(nrv).len() == 38 + m.len());
    match cv.node_type {
        NodeTypeView::Leaf(ps) => {
            lemma_enc_pairs_count_key(ps, b - 1);
            assert(enc_node(cv).len() >= 18 + 8 * ps.len() + m.len());
        },
        NodeTypeView::Internal(cs, ks) => {
            lemma_enc_offsets_len(cs);
            lemma_enc_keys_count_key(ks, b - 1);
            assert(enc_node(cv).len() >= 18 + 8 * cs.len() + 4 * ks.len() + m.len());
        },
        NodeTypeView::Unexpected => {},
    }
}

/// Redirecting one child pointer leaves a node's encoded length unchanged.
proof fn lemma_parent_same_len(nv0: NodeView, nodev: NodeView, cs: Seq<usize>, j: int, x: usize)
    requires
        0 <= j < cs.len(),
        nv0.node_type matches NodeTypeView::Internal(cs0, ks0) && cs0 == cs
            && nodev.node_type == NodeTypeView::Internal(cs.update(j, x), ks0),
    ensures
        enc_node(nodev).len() == enc_node(nv0).len(),
{
    lemma_enc_offsets_len(cs);
    lemma_enc_offsets_len(cs.update(j, x));
}

/// Adding one child pointer and one separator grows a node's encoded
/// length by the pointer width plus the separator's encoding.
proof fn lemma_parent_insert_len(
    nv0: NodeView,
    nodev: NodeView,
    cs: Seq<usize>,
    ks: Seq<Seq<u8>>,
    idx: int,
    nco: usize,
    so: usize,
    m: Seq<u8>,
)
    requires
        0 <= idx < cs.len(),
        idx <= ks.len(),
        nv0.node_type == NodeTypeView::Internal(cs, ks),
        nodev.node_type == NodeTypeView::Internal(
            cs.update(idx, nco).insert(idx + 1, so),
            ks.insert(idx, m),
        ),
    ensures
        enc_node(nodev).len() == enc_node(nv0).len() + 12 + m.len(),
{
    lemma_enc_offsets_len(cs);
    lemma_enc_offsets_len(cs.update(idx, nco).insert(idx + 1, so));
    lemma_enc_keys_insert_len(ks, idx, m);
}


/// Two records of a well-formed row that share a key are the same record.
proof fn lemma_children_kvs_unique(
    pages: Seq<Seq<u8>>,
    b: int,
    cs: Seq<usize>,
    ks: Seq<Seq<u8>>,
    h: nat,
    lo: Option<Seq<u8>>,
    hi: Option<Seq<u8>>,
)
    requires
        children_wf(pages, b, cs, ks, h, lo, hi),
        keys_strictly_sorted(ks),
        forall|i: int| 0 <= i < ks.len() ==> in_range(lo, #[trigger] ks[i], hi),
    ensures
        forall|p1: PairView, p2: PairView|
            children_kvs(pages, cs, h).contains(p1) && children_kvs(pages, cs, h).contains(p2)
                && p1.key == p2.key ==> p1 == p2,
    decreases h, 2int, cs.len(),
{
    if cs.len() == 1 && ks.len() == 0 {
        assert(child_wf(pages, b, cs[0], h, lo, hi));
        let nv = node_at(pages, cs[0])->Some_0;
        assert(node_wf(pages, b, nv, h, lo, hi, false));
        lemma_node_kvs_unique(pages, b, nv, h, lo, hi);
        assert forall|p1: PairView, p2: PairView|
            children_kvs(pages, cs, h).contains(p1) && children_kvs(pages, cs, h).contains(p2)
                && p1.key == p2.key implies p1 == p2 by {
            assert(children_kvs(pages, cs.drop_first(), h) == Multiset::<PairView>::empty());
            assert(children_kvs(pages, cs, h) == child_kvs(pages, cs[0], h).add(
                children_kvs(pages, cs.drop_first(), h),
            ));
            assert(node_kvs(pages, nv, h).contains(p1) && node_kvs(pages, nv, h).contains(p2));
        }
    } else {
        assert(child_wf(pages, b, cs[0], h, lo, Some(ks[0])));
        let nv = node_at(pages, cs[0])->Some_0;
        assert(node_wf(pages, b, nv, h, lo, Some(ks[0]), false));
        lemma_node_kvs_unique(pages, b, nv, h, lo, Some(ks[0]));
        lemma_node_kvs_in_range(pages, b, nv, h, lo, Some(ks[0]), false);
        assert forall|i: int|
            0 <= i < ks.drop_first().len() implies in_range(
            Some(ks[0]),
            #[trigger] ks.drop_first()[i],
            hi,
        ) by {
            assert(ks.drop_first()[i] == ks[i + 1]);
            assert(lex_lt(ks[0], ks[i + 1]));
            assert(in_range(lo, ks[i + 1], hi));
        }
        lemma_children_kvs_unique(pages, b, cs.drop_first(), ks.drop_first(), h, Some(ks[0]), hi);
        lemma_children_kvs_in_range(
            pages,
            b,
            cs.drop_first(),
            ks.drop_first(),
            h,
            Some(ks[0]),
            hi,
        );
        assert forall|p1: PairView, p2: PairView|
            children_kvs(pages, cs, h).contains(p1) && children_kvs(pages, cs, h).contains(p2)
                && p1.key == p2.key implies p1 == p2 by {
            let head = child_kvs(pages, cs[0], h);
            let rest = children_kvs(pages, cs.drop_first(), h);
            if head.contains(p1) && head.contains(p2) {
                assert(node_kvs(pages, nv, h).contains(p1) && node_kvs(pages, nv, h).contains(
                    p2,
                ));
            } else if rest.contains(p1) && rest.contains(p2) {
            } else {
                let inl = if head.contains(p1) {
                    p1
                } else {
                    p2
                };
                let inr = if head.contains(p1) {
                    p2
                } else {
                    p1
                };
                assert(head.contains(inl) && rest.contains(inr));
                assert(node_kvs(pages, nv, h).contains(inl));
                assert(lex_le(inl.key, ks[0]));
                assert(lex_lt(ks[0], inr.key));
                lemma_lex_lt_le_trans(ks[0], inr.key, inr.key);
                lemma_lex_asym(ks[0], inr.key);
                lemma_lex_asym(inl.key, ks[0]);
            }
        }
    }
}

/// Two records of a well-formed subtree that share a key are the same
/// record.
proof fn lemma_node_kvs_unique(
    pages: Seq<Seq<u8>>,
    b: int,
    nv: NodeView,
    h: nat,
    lo: Option<Seq<u8>>,
    hi: Option<Seq<u8>>,
)
    requires
        node_wf(pages, b, nv, h, lo, hi, false) || node_wf(pages, b, nv, h, lo, hi, true),
    ensures
        forall|p1: PairView, p2: PairView|
            node_kvs(pages, nv, h).contains(p1) && node_kvs(pages, nv, h).contains(p2) && p1.key
                == p2.key ==> p1 == p2,
    decreases h, 0int, 0int,
{
    broadcast use vstd::seq_lib::group_to_multiset_ensures;

    match nv.node_type {
        NodeTypeView::Leaf(ps) => {
            assert forall|p1: PairView, p2: PairView|
                node_kvs(pages, nv, h).contains(p1) && node_kvs(pages, nv, h).contains(p2)
                    && p1.key == p2.key implies p1 == p2 by {
                assert(ps.contains(p1) && ps.contains(p2));
                let i = choose|i: int| 0 <= i < ps.len() && ps[i] == p1;
                let j = choose|j: int| 0 <= j < ps.len() && ps[j] == p2;
                if i < j {
                    assert(lex_lt(ps[i].key, ps[j].key));
                    lemma_lex_asym(ps[i].key, ps[j].key);
                } else if j < i {
                    assert(lex_lt(ps[j].key, ps[i].key));
                    lemma_lex_asym(ps[j].key, ps[i].key);
                }
            }
        },
        NodeTypeView::Internal(cs, ks) => {
            lemma_children_kvs_unique(pages, b, cs, ks, (h - 1) as nat, lo, hi);
            assert forall|p1: PairView, p2: PairView|
                node_kvs(pages, nv, h).contains(p1) && node_kvs(pages, nv, h).contains(p2)
                    && p1.key == p2.key implies p1 == p2 by {
                assert(children_kvs(pages, cs, (h - 1) as nat).contains(p1));
                assert(children_kvs(pages, cs, (h - 1) as nat).contains(p2));
            }
        },
        NodeTypeView::Unexpected => {},
    }
}

impl BTree {
    /// At most one stored record carries any given key: two records of the
    /// tree with equal keys are the same record. Together with `search`'s
    /// contract this pins repeated searches to the very same pair, not just
    /// the same key and outcome.
    pub proof fn lemma_keys_unique(&self, p1: PairView, p2: PairView)
        requires
            self.inv(),
            self.kvs().contains(p1),
            self.kvs().contains(p2),
            p1.key == p2.key,
        ensures
            p1 == p2,
    {
        let pages = self.pager@;
        let root = self.wal@.last();
        let nv = node_at(pages, root)->Some_0;
        lemma_node_kvs_unique(pages, self.b_param(), nv, self.ht@, None, None);
        assert(node_kvs(pages, nv, self.ht@).contains(p1));
        assert(node_kvs(pages, nv, self.ht@).contains(p2));
    }
}

} // verus!
