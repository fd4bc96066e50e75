//! The collect phase of a collection, on the model.
//!
//! The collect phase empties the buffer, gathers the white boxes, destroys
//! their payloads and releases their storage where no weak handle is left.
use crate::graph::{
    all_nodes, edge_closed, has_edge, indegree, inflow, lemma_inflow_at_least, lemma_inflow_insert,
    lemma_inflow_same, lemma_inflow_split, lemma_inflow_subset, lemma_inflow_zero, lemma_occ_add,
    lemma_occ_at, lemma_occ_positive, lemma_reach_source, lemma_reach_step, lemma_reach_within, occ,
    reachable,
};
use crate::mark::lemma_edge_target_held;
use crate::scan::{lemma_marked_closed, scanned_post};
use crate::state::{
    distinct, lemma_root_set_at, lemma_root_set_empty, lemma_root_set_push, root_set, BoxState, HeapState,
};
use crate::trace::Trace;
use crate::Color;
use vstd::prelude::*;

verus! {

/// A marked box has a strong handle, so its payload lives.
pub proof fn lemma_marked_live<T: Trace>(s0: HeapState<T>, i: int)
    requires
        s0.sound(),
        s0.marked().contains(i),
    ensures
        s0.has(i),
        s0.boxes[i].strong > 0,
        s0.boxes[i].value.is_some(),
        !s0.deferred(i),
{
    let adj = s0.strong_adj();
    let held = Set::new(|j: int| s0.has(j) && s0.boxes[j].strong > 0);
    assert(edge_closed(adj, held)) by {
        assert forall|a: int, b: int| held.contains(a) && has_edge(adj, a, b) implies held.contains(b) by {
            lemma_edge_target_held(s0, a, b);
        }
    }
    lemma_reach_within(adj, s0.candidates(), held, i);
}

/// No handle leads into the garbage from outside of it.
pub proof fn lemma_garbage_sealed<T: Trace>(s0: HeapState<T>, a: int, c: int)
    requires
        s0.sound(),
        has_edge(s0.strong_adj(), a, c),
        s0.garbage().contains(c),
    ensures
        s0.garbage().contains(a),
{
    let adj = s0.strong_adj();
    let m = s0.marked();
    lemma_marked_closed(s0);
    if s0.rescued().contains(a) {
        lemma_reach_step(adj, s0.anchors(), a, c);
    } else if !m.contains(a) {
        let rest = Set::new(|j: int| 0 <= j < adj.len() && !m.contains(j));
        lemma_inflow_split(adj, m, rest, c);
        assert forall|j: int| 0 <= j < adj.len() implies m.union(rest).contains(j) == all_nodes(adj).contains(j) by {}
        lemma_inflow_same(adj, m.union(rest), adj, all_nodes(adj), c);
        lemma_inflow_at_least(adj, rest, a, c);
        assert(s0.owned_strong(c) == indegree(adj, c));
        assert(s0.boxes[c].strong >= s0.owned_strong(c));
        assert(s0.trial_strong(c) > 0);
        assert(s0.anchors().contains(c));
        lemma_reach_source(adj, s0.anchors(), c);
    }
}

/// The garbage lies in the heap, its boxes are live and none of them waits
/// for the release of its storage.
pub proof fn lemma_garbage_live<T: Trace>(s0: HeapState<T>, i: int)
    requires
        s0.sound(),
        s0.garbage().contains(i),
    ensures
        s0.has(i),
        s0.boxes[i].strong > 0,
        s0.boxes[i].value.is_some(),
        !s0.deferred(i),
{
    lemma_marked_live(s0, i);
}

/// A white box that is gathered: black, with its storage pinned by one more
/// weak handle.
pub open spec fn pinned_box<T>(b: BoxState<T>) -> BoxState<T> {
    BoxState { color: Color::Black, weak: b.weak + 1, ..b }
}

/// What holds while the white boxes are gathered.
///
/// `s0` is the heap before the collection, `s` the heap now, `roots` the
/// buffer as the scan phase left it and `k` the number of its boxes that have
/// left it; `pend` holds the boxes that are still to be looked at and `white`
/// the boxes gathered so far.
pub open spec fn gather_inv<T: Trace>(
    s0: HeapState<T>,
    s: HeapState<T>,
    roots: Seq<usize>,
    k: int,
    pend: Seq<usize>,
    white: Seq<usize>,
) -> bool {
    let adj = s0.strong_adj();
    let got = root_set(white);
    &&& s.boxes.len() == s0.boxes.len()
    &&& s.roots.len() == 0
    &&& 0 <= k <= roots.len()
    &&& distinct(white)
    &&& forall|j: int| 0 <= j < white.len() ==> s0.garbage().contains((#[trigger] white[j]) as int)
    &&& forall|i: int|
        s0.has(i) ==> {
            &&& (#[trigger] s.boxes[i]).value == s0.boxes[i].value
            &&& s.boxes[i].strong == s0.boxes[i].strong - inflow(adj, s0.garbage(), i)
            &&& s.boxes[i].color == if s0.garbage().contains(i) && !got.contains(i) {
                Color::White
            } else {
                Color::Black
            }
            &&& s.boxes[i].weak == s0.boxes[i].weak - if s0.deferred(i) {
                1int
            } else {
                0int
            } + if got.contains(i) {
                1int
            } else {
                0int
            }
            &&& (s.boxes[i].buffered <==> root_set(roots.skip(k)).contains(i))
        }
    &&& forall|x: int, j: int|
        s0.has(x) && got.contains(x) && 0 <= j < adj[x].len() ==> {
            let c = (#[trigger] adj[x][j]) as int;
            !s0.garbage().contains(c) || got.contains(c) || s.boxes[c].buffered || occ(pend, c) > 0
        }
    &&& forall|j: int| 0 <= j < pend.len() ==> (#[trigger] pend[j]) < s0.boxes.len()
    &&& forall|k2: int|
        0 <= k2 < k ==> {
            let r = (#[trigger] roots[k2]) as int;
            !s0.garbage().contains(r) || got.contains(r) || occ(pend, r) > 0
        }
}

/// After the scan phase, with the buffer taken, nothing is gathered.
pub proof fn lemma_gather_init<T: Trace>(s0: HeapState<T>, s2: HeapState<T>)
    requires
        s0.sound(),
        scanned_post(s0, s2),
    ensures
        gather_inv(s0, s2.with_roots(Seq::empty()), s2.roots, 0, Seq::empty(), Seq::empty()),
{
    lemma_root_set_empty();
    assert(s2.roots.skip(0) =~= s2.roots);
}

/// The next box of the buffer leaves it and is put aside to be looked at.
pub proof fn lemma_gather_next<T: Trace>(
    s0: HeapState<T>,
    s: HeapState<T>,
    roots: Seq<usize>,
    k: int,
    white: Seq<usize>,
)
    requires
        s0.sound(),
        gather_inv(s0, s, roots, k, Seq::empty(), white),
        distinct(roots),
        k < roots.len(),
        s0.has(roots[k] as int),
    ensures
        gather_inv(
            s0,
            s.with_box(roots[k] as int, BoxState { buffered: false, ..s.boxes[roots[k] as int] }),
            roots,
            k + 1,
            seq![roots[k]],
            white,
        ),
{
    let adj = s0.strong_adj();
    let r = roots[k] as int;
    let t = s.with_box(r, BoxState { buffered: false, ..s.boxes[r] });
    let pend = seq![roots[k]];
    let got = root_set(white);
    assert(pend[0] == roots[k]);
    lemma_occ_at(pend, 0);
    let before = root_set(roots.skip(k));
    let after = root_set(roots.skip(k + 1));
    let sk = roots.skip(k);
    let sk1 = roots.skip(k + 1);
    assert forall|i: int| after.contains(i) <==> before.contains(i) && i != r by {
        if after.contains(i) {
            let j = choose|j: int| 0 <= j < sk1.len() && sk1[j] as int == i;
            assert(sk[j + 1] as int == i);
            assert(roots[k] != roots[k + 1 + j]);
        }
        if before.contains(i) && i != r {
            let j = choose|j: int| 0 <= j < sk.len() && sk[j] as int == i;
            assert(sk1[j - 1] as int == i);
        }
    }
    assert forall|i: int| s0.has(i) implies ((#[trigger] t.boxes[i]).buffered <==> after.contains(i)) by {
        assert(s.boxes[i].buffered <==> before.contains(i));
    }
    assert forall|x: int, j: int| s0.has(x) && got.contains(x) && 0 <= j < adj[x].len() implies {
        let c = (#[trigger] adj[x][j]) as int;
        !s0.garbage().contains(c) || got.contains(c) || t.boxes[c].buffered || occ(pend, c) > 0
    } by {
        let c = adj[x][j] as int;
        assert(adj[x][j] < adj.len());
        assert(occ(Seq::<usize>::empty(), c) == 0);
    }
    assert forall|k2: int| 0 <= k2 < k + 1 implies {
        let q = (#[trigger] roots[k2]) as int;
        !s0.garbage().contains(q) || got.contains(q) || occ(pend, q) > 0
    } by {
        let q = roots[k2] as int;
        assert(occ(Seq::<usize>::empty(), q) == 0);
    }
}

/// The box that was put aside last, `c`, is looked at: if it is white and
/// not in the buffer, it is gathered and the boxes of its handles are put
/// aside; otherwise nothing changes.
pub proof fn lemma_gather_visit<T: Trace>(
    s0: HeapState<T>,
    s: HeapState<T>,
    roots: Seq<usize>,
    k: int,
    pend: Seq<usize>,
    white: Seq<usize>,
)
    requires
        s0.sound(),
        gather_inv(s0, s, roots, k, pend, white),
        distinct(roots),
        forall|k2: int| 0 <= k2 < roots.len() ==> (#[trigger] roots[k2]) < s0.boxes.len(),
        pend.len() > 0,
    ensures
        ({
            let c = pend.last() as int;
            let rest = pend.drop_last();
            if s.boxes[c].color == Color::White && !s.boxes[c].buffered {
                &&& s.boxes[c].weak < usize::MAX
                &&& gather_inv(
                    s0,
                    s.with_box(c, pinned_box(s.boxes[c])),
                    roots,
                    k,
                    rest + s0.strong_refs(c),
                    white.push(pend.last()),
                )
            } else {
                gather_inv(s0, s, roots, k, rest, white)
            }
        }),
{
    let adj = s0.strong_adj();
    let c = pend.last() as int;
    let rest = pend.drop_last();
    let got = root_set(white);
    assert(pend[pend.len() - 1] < s0.boxes.len());
    assert(adj[c] == s0.strong_refs(c));
    assert forall|k2: int| 0 <= k2 < k implies !s.boxes[(#[trigger] roots[k2]) as int].buffered by {
        let q = roots[k2] as int;
        let sk = roots.skip(k);
        if root_set(sk).contains(q) {
            let j = choose|j: int| 0 <= j < sk.len() && sk[j] as int == q;
            assert(roots[k2] != roots[k + j]);
        }
    }
    if s.boxes[c].color == Color::White && !s.boxes[c].buffered {
        let t = s.with_box(c, pinned_box(s.boxes[c]));
        let pend2 = rest + adj[c];
        let white2 = white.push(pend.last());
        let got2 = root_set(white2);
        lemma_root_set_push(white, pend.last());
        crate::state::lemma_distinct_push(white, pend.last());
        assert(s0.garbage().contains(c) && !got.contains(c));
        assert forall|j: int| 0 <= j < white2.len() implies s0.garbage().contains((#[trigger] white2[j]) as int) by {
            if j < white.len() {
                assert(white2[j] == white[j]);
            }
        }
        assert forall|x: int, j: int| s0.has(x) && got2.contains(x) && 0 <= j < adj[x].len() implies {
            let y = (#[trigger] adj[x][j]) as int;
            !s0.garbage().contains(y) || got2.contains(y) || t.boxes[y].buffered || occ(pend2, y) > 0
        } by {
            let y = adj[x][j] as int;
            assert(adj[x][j] < adj.len());
            lemma_occ_add(rest, adj[c], y);
            if x == c {
                lemma_occ_at(adj[c], j);
            } else {
                if y != c {
                    assert(occ(rest, y) == occ(pend, y));
                }
            }
        }
        assert forall|j: int| 0 <= j < pend2.len() implies (#[trigger] pend2[j]) < s0.boxes.len() by {
            if j < rest.len() {
                assert(pend2[j] == pend[j]);
            } else {
                let l = j - rest.len();
                assert(pend2[j] == adj[c][l]);
                assert(adj[c][l] < adj.len());
            }
        }
        assert forall|k2: int| 0 <= k2 < k implies {
            let q = (#[trigger] roots[k2]) as int;
            !s0.garbage().contains(q) || got2.contains(q) || occ(pend2, q) > 0
        } by {
            let q = roots[k2] as int;
            lemma_occ_add(rest, adj[c], q);
            if q != c {
                assert(occ(rest, q) == occ(pend, q));
            }
        }
    } else {
        assert forall|x: int, j: int| s0.has(x) && got.contains(x) && 0 <= j < adj[x].len() implies {
            let y = (#[trigger] adj[x][j]) as int;
            !s0.garbage().contains(y) || got.contains(y) || s.boxes[y].buffered || occ(rest, y) > 0
        } by {
            let y = adj[x][j] as int;
            assert(adj[x][j] < adj.len());
            if y != c {
                assert(occ(rest, y) == occ(pend, y));
            }
        }
        assert forall|j: int| 0 <= j < rest.len() implies (#[trigger] rest[j]) < s0.boxes.len() by {
            assert(rest[j] == pend[j]);
        }
        assert forall|k2: int| 0 <= k2 < k implies {
            let q = (#[trigger] roots[k2]) as int;
            !s0.garbage().contains(q) || got.contains(q) || occ(rest, q) > 0
        } by {
            let q = roots[k2] as int;
            if q != c {
                assert(occ(rest, q) == occ(pend, q));
            } else {
                assert(!s.boxes[q].buffered);
            }
        }
    }
}

/// When the buffer is empty and nothing is put aside, the gathered boxes are
/// the garbage.
pub proof fn lemma_gather_done<T: Trace>(s0: HeapState<T>, s2: HeapState<T>, s: HeapState<T>, white: Seq<usize>)
    requires
        s0.sound(),
        scanned_post(s0, s2),
        gather_inv(s0, s, s2.roots, s2.roots.len() as int, Seq::empty(), white),
    ensures
        forall|i: int| s0.has(i) ==> (s0.garbage().contains(i) <==> #[trigger] root_set(white).contains(i)),
        forall|i: int| s0.has(i) ==> !(#[trigger] s.boxes[i]).buffered,
{
    let adj = s0.strong_adj();
    let roots = s2.roots;
    let got = root_set(white);
    assert(roots.skip(roots.len() as int) =~= Seq::empty());
    lemma_root_set_empty();
    let seen = Set::new(|i: int| !s0.garbage().contains(i) || got.contains(i));
    assert(edge_closed(adj, seen)) by {
        assert forall|a: int, b: int| seen.contains(a) && has_edge(adj, a, b) implies seen.contains(b) by {
            if s0.garbage().contains(b) {
                lemma_garbage_sealed(s0, a, b);
                lemma_occ_positive(adj[a], b);
                let j = choose|j: int| 0 <= j < adj[a].len() && adj[a][j] as int == b;
                assert(adj[a][j] < adj.len());
                assert(occ(Seq::<usize>::empty(), b) == 0);
                assert(!s.boxes[b].buffered);
            }
        }
    }
    assert forall|a: int| root_set(roots).contains(a) implies seen.contains(a) by {
        let k2 = choose|k2: int| 0 <= k2 < roots.len() && roots[k2] as int == a;
        assert(occ(Seq::<usize>::empty(), roots[k2] as int) == 0);
    }
    assert forall|i: int| s0.has(i) implies (s0.garbage().contains(i) <==> #[trigger] got.contains(i)) by {
        if s0.garbage().contains(i) {
            assert(reachable(adj, s0.candidates(), i));
            assert(reachable(adj, root_set(roots), i));
            lemma_reach_within(adj, root_set(roots), seen, i);
        }
        if got.contains(i) {
            let j = choose|j: int| 0 <= j < white.len() && white[j] as int == i;
            assert(s0.garbage().contains(white[j] as int));
        }
    }
}

/// The weak count of box `i` while the payloads of the gathered boxes are
/// destroyed: what the scan phase left, the pin of a gathered box, less the
/// weak handles that destroyed payloads owned and less the shared weak handle
/// of a destroyed box.
pub open spec fn destroy_weak<T: Trace>(
    s0: HeapState<T>,
    gone: Set<int>,
    i: int,
) -> int {
    s0.boxes[i].weak - if s0.deferred(i) {
        1int
    } else {
        0int
    } + if s0.garbage().contains(i) {
        1int
    } else {
        0int
    } - inflow(s0.weak_adj(), gone, i) - if gone.contains(i) {
        1int
    } else {
        0int
    }
}

/// What holds while the payloads of the gathered boxes are destroyed.
///
/// The first `j` boxes of `white` are done: their payloads are gone, and the
/// weak handles that those owned and their shared weak handles are given up.
/// If `open` is set, box `white[j]` has lost its payload, and `pend` holds
/// the weak handles of that payload that are still to be given up.
pub open spec fn destroy_inv<T: Trace>(
    s0: HeapState<T>,
    s: HeapState<T>,
    white: Seq<usize>,
    j: int,
    open: bool,
    pend: Seq<usize>,
) -> bool {
    let adj = s0.strong_adj();
    let gone = root_set(white.take(j));
    &&& s.boxes.len() == s0.boxes.len()
    &&& s.roots.len() == 0
    &&& 0 <= j <= white.len()
    &&& (open ==> j < white.len())
    &&& distinct(white)
    &&& forall|l: int| 0 <= l < white.len() ==> (#[trigger] white[l]) < s0.boxes.len()
    &&& forall|i: int| s0.has(i) ==> (s0.garbage().contains(i) <==> #[trigger] root_set(white).contains(i))
    &&& forall|i: int|
        s0.has(i) ==> {
            &&& (#[trigger] s.boxes[i]).value == if gone.contains(i) || (open && i == white[j] as int) {
                None
            } else {
                s0.boxes[i].value
            }
            &&& s.boxes[i].strong == s0.boxes[i].strong - inflow(adj, s0.garbage(), i)
            &&& s.boxes[i].color == Color::Black
            &&& !s.boxes[i].buffered
            &&& s.boxes[i].weak == destroy_weak(s0, gone, i) - if open {
                occ(s0.weak_refs(white[j] as int), i) - occ(pend, i)
            } else {
                0int
            }
        }
    &&& forall|l: int| 0 <= l < pend.len() ==> (#[trigger] pend[l]) < s0.boxes.len()
}

/// When the garbage is gathered, the destruction can begin.
pub proof fn lemma_destroy_init<T: Trace>(s0: HeapState<T>, s2: HeapState<T>, s: HeapState<T>, white: Seq<usize>)
    requires
        s0.sound(),
        scanned_post(s0, s2),
        gather_inv(s0, s, s2.roots, s2.roots.len() as int, Seq::empty(), white),
    ensures
        destroy_inv(s0, s, white, 0, false, Seq::empty()),
{
    lemma_gather_done(s0, s2, s, white);
    lemma_root_set_empty();
    assert forall|l: int| 0 <= l < white.len() implies (#[trigger] white[l]) < s0.boxes.len() by {
        lemma_garbage_live(s0, white[l] as int);
    }
    assert(white.take(0) =~= Seq::empty());
    let gone = root_set(white.take(0));
    assert forall|i: int| s0.has(i) implies (#[trigger] s.boxes[i]).weak == destroy_weak(s0, gone, i)
        && s.boxes[i].color == Color::Black by {
        lemma_inflow_zero(s0.weak_adj(), gone, i);
    }
}

/// The payload of the next gathered box is taken out.
pub proof fn lemma_destroy_open<T: Trace>(s0: HeapState<T>, s: HeapState<T>, white: Seq<usize>, j: int)
    requires
        s0.sound(),
        destroy_inv(s0, s, white, j, false, Seq::empty()),
        j < white.len(),
    ensures
        s0.has(white[j] as int),
        s.boxes[white[j] as int].value == s0.boxes[white[j] as int].value,
        s0.boxes[white[j] as int].value.is_some(),
        destroy_inv(
            s0,
            s.with_box(white[j] as int, BoxState { value: None, ..s.boxes[white[j] as int] }),
            white,
            j,
            true,
            s0.weak_refs(white[j] as int),
        ),
{
    let x = white[j] as int;
    let gone = root_set(white.take(j));
    lemma_root_set_at(white, j);
    assert(s0.garbage().contains(x)) by {
        lemma_marked_closed(s0);
    }
    lemma_garbage_live(s0, x);
    assert(!gone.contains(x)) by {
        if gone.contains(x) {
            let l = choose|l: int| 0 <= l < white.take(j).len() && white.take(j)[l] as int == x;
            assert(white[l] != white[j]);
        }
    }
    let wadj = s0.weak_adj();
    assert(wadj[x] == s0.weak_refs(x));
    assert forall|l: int| 0 <= l < s0.weak_refs(x).len() implies (#[trigger] s0.weak_refs(x)[l]) < s0.boxes.len() by {
        assert(wadj[x][l] < wadj.len());
    }
}

/// A weak count covers the weak handles that are still to be given up.
proof fn lemma_destroy_count<T: Trace>(
    s0: HeapState<T>,
    s: HeapState<T>,
    white: Seq<usize>,
    j: int,
    pend: Seq<usize>,
    w: int,
)
    requires
        s0.sound(),
        destroy_inv(s0, s, white, j, true, pend),
        s0.has(w),
    ensures
        s.boxes[w].weak >= occ(pend, w),
{
    let wadj = s0.weak_adj();
    let x = white[j] as int;
    let gone = root_set(white.take(j));
    lemma_root_set_at(white, j);
    lemma_marked_closed(s0);
    assert(s0.has(x));
    assert(!gone.contains(x)) by {
        if gone.contains(x) {
            let l = choose|l: int| 0 <= l < white.take(j).len() && white.take(j)[l] as int == x;
            assert(white[l] != white[j]);
        }
    }
    lemma_inflow_insert(wadj, gone, x, w);
    lemma_inflow_subset(wadj, gone.insert(x), all_nodes(wadj), w);
    assert(wadj[x] == s0.weak_refs(x));
    assert(s0.owned_weak(w) == indegree(wadj, w));
    assert(s0.owned_weak(w) + s0.shared_weak(w) <= s0.boxes[w].weak);
    if gone.contains(w) {
        let l = choose|l: int| 0 <= l < white.take(j).len() && white.take(j)[l] as int == w;
        assert(white.take(j)[l] == white[l]);
        lemma_root_set_at(white, l);
        assert(s0.garbage().contains(w));
    }
    if s0.garbage().contains(w) {
        lemma_garbage_live(s0, w);
    }
}

/// The weak handle that was put aside last, to box `w`, is given up.
pub proof fn lemma_destroy_weak_drop<T: Trace>(
    s0: HeapState<T>,
    s: HeapState<T>,
    white: Seq<usize>,
    j: int,
    pend: Seq<usize>,
)
    requires
        s0.sound(),
        destroy_inv(s0, s, white, j, true, pend),
        pend.len() > 0,
    ensures
        s.boxes[pend.last() as int].weak >= 1,
        destroy_inv(
            s0,
            s.with_box(
                pend.last() as int,
                BoxState { weak: (s.boxes[pend.last() as int].weak - 1) as nat, ..s.boxes[pend.last() as int] },
            ),
            white,
            j,
            true,
            pend.drop_last(),
        ),
{
    let w = pend.last() as int;
    assert(pend[pend.len() - 1] < s0.boxes.len());
    lemma_destroy_count(s0, s, white, j, pend, w);
    let rest = pend.drop_last();
    assert forall|l: int| 0 <= l < rest.len() implies (#[trigger] rest[l]) < s0.boxes.len() by {
        assert(rest[l] == pend[l]);
    }
}

/// All weak handles of the payload are given up; the box gives up the weak
/// handle that its strong handles shared, and is done.
pub proof fn lemma_destroy_close<T: Trace>(s0: HeapState<T>, s: HeapState<T>, white: Seq<usize>, j: int)
    requires
        s0.sound(),
        destroy_inv(s0, s, white, j, true, Seq::empty()),
    ensures
        s0.has(white[j] as int),
        s.boxes[white[j] as int].weak >= 1,
        s.boxes[white[j] as int].strong == 0,
        destroy_inv(
            s0,
            s.with_box(
                white[j] as int,
                BoxState { weak: (s.boxes[white[j] as int].weak - 1) as nat, ..s.boxes[white[j] as int] },
            ),
            white,
            j + 1,
            false,
            Seq::empty(),
        ),
{
    let adj = s0.strong_adj();
    let wadj = s0.weak_adj();
    let x = white[j] as int;
    let gone = root_set(white.take(j));
    let gone2 = root_set(white.take(j + 1));
    lemma_root_set_at(white, j);
    lemma_marked_closed(s0);
    assert(s0.has(x));
    assert(s0.garbage().contains(x));
    lemma_garbage_live(s0, x);
    assert(!gone.contains(x)) by {
        if gone.contains(x) {
            let l = choose|l: int| 0 <= l < white.take(j).len() && white.take(j)[l] as int == x;
            assert(white[l] != white[j]);
        }
    }
    assert(white.take(j + 1) =~= white.take(j).push(white[j]));
    lemma_root_set_push(white.take(j), white[j]);
    assert(wadj[x] == s0.weak_refs(x));
    // The count of the box itself covers its shared weak handle and its pin.
    lemma_inflow_insert(wadj, gone, x, x);
    lemma_inflow_subset(wadj, gone.insert(x), all_nodes(wadj), x);
    assert(s0.owned_weak(x) == indegree(wadj, x));
    assert(s0.owned_weak(x) + s0.shared_weak(x) <= s0.boxes[x].weak);
    assert(occ(Seq::<usize>::empty(), x) == 0);
    // A white box has no strong handle left.
    assert(s.boxes[x].strong == 0) by {
        lemma_garbage_count(s0, x);
    }
    let t = s.with_box(x, BoxState { weak: (s.boxes[x].weak - 1) as nat, ..s.boxes[x] });
    assert forall|i: int| s0.has(i) implies {
        &&& (#[trigger] t.boxes[i]).value == if gone2.contains(i) {
            None
        } else {
            s0.boxes[i].value
        }
        &&& t.boxes[i].weak == destroy_weak(s0, gone2, i)
    } by {
        lemma_inflow_insert(wadj, gone, x, i);
        assert(occ(Seq::<usize>::empty(), i) == 0);
    }
}

/// Every strong handle to a box of the garbage is owned by the payload of a
/// box of the garbage.
pub proof fn lemma_garbage_count<T: Trace>(s0: HeapState<T>, x: int)
    requires
        s0.sound(),
        s0.garbage().contains(x),
    ensures
        s0.boxes[x].strong == inflow(s0.strong_adj(), s0.garbage(), x),
{
    let adj = s0.strong_adj();
    let m = s0.marked();
    let g = s0.garbage();
    lemma_marked_closed(s0);
    // Not an anchor: the marked boxes own all its handles.
    assert(!s0.anchors().contains(x)) by {
        if s0.anchors().contains(x) {
            lemma_reach_source(adj, s0.anchors(), x);
        }
    }
    lemma_inflow_subset(adj, m, all_nodes(adj), x);
    assert(s0.owned_strong(x) == indegree(adj, x));
    assert(s0.boxes[x].strong == inflow(adj, m, x));
    // And none of the owners is outside the garbage.
    let kept = Set::new(|j: int| m.contains(j) && !g.contains(j));
    lemma_inflow_split(adj, g, kept, x);
    assert forall|j: int| 0 <= j < adj.len() implies g.union(kept).contains(j) == m.contains(j) by {}
    lemma_inflow_same(adj, g.union(kept), adj, m, x);
    assert forall|j: int| 0 <= j < adj.len() && kept.contains(j) implies occ(adj[j], x) == 0 by {
        if occ(adj[j], x) > 0 {
            lemma_garbage_sealed(s0, j, x);
        }
    }
    lemma_inflow_zero(adj, kept, x);
}

/// What holds while the pins are taken off: the first `m` boxes of `white`
/// have lost theirs.
pub open spec fn unpin_inv<T: Trace>(s0: HeapState<T>, s: HeapState<T>, white: Seq<usize>, m: int) -> bool {
    let adj = s0.strong_adj();
    let gone = root_set(white);
    let free = root_set(white.take(m));
    &&& s.boxes.len() == s0.boxes.len()
    &&& s.roots.len() == 0
    &&& 0 <= m <= white.len()
    &&& distinct(white)
    &&& forall|l: int| 0 <= l < white.len() ==> (#[trigger] white[l]) < s0.boxes.len()
    &&& forall|i: int| s0.has(i) ==> (s0.garbage().contains(i) <==> #[trigger] gone.contains(i))
    &&& forall|i: int|
        s0.has(i) ==> {
            &&& (#[trigger] s.boxes[i]).value == if gone.contains(i) {
                None
            } else {
                s0.boxes[i].value
            }
            &&& s.boxes[i].strong == s0.boxes[i].strong - inflow(adj, s0.garbage(), i)
            &&& s.boxes[i].color == Color::Black
            &&& !s.boxes[i].buffered
            &&& s.boxes[i].weak == destroy_weak(s0, gone, i) - if free.contains(i) {
                1int
            } else {
                0int
            }
        }
}

/// When every payload is destroyed, the pins can be taken off.
pub proof fn lemma_unpin_init<T: Trace>(s0: HeapState<T>, s: HeapState<T>, white: Seq<usize>)
    requires
        s0.sound(),
        destroy_inv(s0, s, white, white.len() as int, false, Seq::empty()),
    ensures
        unpin_inv(s0, s, white, 0),
{
    assert(white.take(white.len() as int) =~= white);
    assert(white.take(0) =~= Seq::empty());
    lemma_root_set_empty();
}

/// The pin of the next box is taken off.
pub proof fn lemma_unpin_next<T: Trace>(s0: HeapState<T>, s: HeapState<T>, white: Seq<usize>, m: int)
    requires
        s0.sound(),
        unpin_inv(s0, s, white, m),
        m < white.len(),
    ensures
        s0.has(white[m] as int),
        s.boxes[white[m] as int].weak >= 1,
        s.boxes[white[m] as int].strong == 0,
        s.boxes[white[m] as int].value.is_none(),
        unpin_inv(
            s0,
            s.with_box(
                white[m] as int,
                BoxState { weak: (s.boxes[white[m] as int].weak - 1) as nat, ..s.boxes[white[m] as int] },
            ),
            white,
            m + 1,
        ),
{
    let wadj = s0.weak_adj();
    let x = white[m] as int;
    let gone = root_set(white);
    let free = root_set(white.take(m));
    lemma_root_set_at(white, m);
    lemma_marked_closed(s0);
    assert(s0.has(x));
    assert(s0.garbage().contains(x));
    lemma_garbage_live(s0, x);
    lemma_garbage_count(s0, x);
    assert(!free.contains(x)) by {
        if free.contains(x) {
            let l = choose|l: int| 0 <= l < white.take(m).len() && white.take(m)[l] as int == x;
            assert(white[l] != white[m]);
        }
    }
    assert(white.take(m + 1) =~= white.take(m).push(white[m]));
    lemma_root_set_push(white.take(m), white[m]);
    lemma_inflow_subset(wadj, gone, all_nodes(wadj), x);
    assert(s0.owned_weak(x) == indegree(wadj, x));
    assert(s0.owned_weak(x) + s0.shared_weak(x) <= s0.boxes[x].weak);
}

/// When every pin is off, the heap is the collected one.
pub proof fn lemma_unpin_done<T: Trace>(s0: HeapState<T>, s: HeapState<T>, white: Seq<usize>)
    requires
        s0.sound(),
        unpin_inv(s0, s, white, white.len() as int),
    ensures
        s == s0.collected(),
{
    let wadj = s0.weak_adj();
    let gone = root_set(white);
    assert(white.take(white.len() as int) =~= white);
    assert forall|i: int| 0 <= i < s.boxes.len() implies s.boxes[i] == s0.collected().boxes[i] by {
        assert(s0.garbage().contains(i) <==> gone.contains(i));
        assert forall|j: int| 0 <= j < wadj.len() implies gone.contains(j) == s0.garbage().contains(j) by {}
        lemma_inflow_same(wadj, gone, wadj, s0.garbage(), i);
        if s0.garbage().contains(i) {
            lemma_garbage_live(s0, i);
            lemma_garbage_count(s0, i);
        }
    }
    assert(s.boxes =~= s0.collected().boxes);
    assert(s.roots =~= s0.collected().roots);
}

} // verus!
