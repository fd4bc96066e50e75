//! The scan phase of a collection, on the model.
//!
//! The scan phase looks at every gray box. A gray box that still has a strong
//! handle is alive: it turns black, and so does all that it reaches, with the
//! counts that the mark phase took given back. A gray box without a strong
//! handle turns white.
use crate::graph::{
    edge_closed, has_edge, inflow, lemma_inflow_positive, lemma_inflow_remove, lemma_inflow_same,
    lemma_inflow_split, lemma_occ_add, lemma_occ_at, lemma_occ_positive, lemma_reach_set_closed,
    lemma_reach_source, lemma_reach_step, lemma_reach_within, occ, reachable,
};
use crate::mark::{gray_set, marked_post, roots_post};
use crate::state::{root_set, BoxState, HeapState};
use crate::trace::Trace;
use crate::Color;
use vstd::prelude::*;

verus! {

/// The boxes whose payloads own handles that the counts leave out: the gray
/// and the white ones.
pub open spec fn uncounted<T>(s: HeapState<T>) -> Set<int> {
    Set::new(
        |i: int| 0 <= i < s.boxes.len() && (s.boxes[i].color == Color::Gray || s.boxes[i].color == Color::White),
    )
}

/// A box that a handle of a live box leads to: black, with the handle counted.
pub open spec fn restored_box<T>(b: BoxState<T>) -> BoxState<T> {
    BoxState { strong: b.strong + 1, color: Color::Black, ..b }
}

/// What holds while the scan phase runs.
///
/// `s0` is the heap before the collection, `s1` the heap after the mark
/// phase, `s` the heap now; `scan` holds the boxes that are still to be
/// looked at and `restore` the handles that are still to be counted again.
pub open spec fn scan_inv<T: Trace>(
    s0: HeapState<T>,
    s1: HeapState<T>,
    s: HeapState<T>,
    scan: Seq<usize>,
    restore: Seq<usize>,
) -> bool {
    let adj = s0.strong_adj();
    &&& s.boxes.len() == s0.boxes.len()
    &&& forall|i: int|
        s0.has(i) ==> {
            &&& (#[trigger] s.boxes[i]).value == s0.boxes[i].value
            &&& s.boxes[i].strong + inflow(adj, uncounted(s), i) + occ(restore, i) == s0.boxes[i].strong
            &&& s.boxes[i].strong >= s1.boxes[i].strong
            &&& s.boxes[i].color != Color::Purple
            &&& (s1.boxes[i].color != Color::Gray ==> s.boxes[i].color == Color::Black)
            &&& (s.boxes[i].color == Color::White ==> s.boxes[i].strong == 0)
            &&& (s1.boxes[i].color == Color::Gray && s.boxes[i].color == Color::Black ==> s.boxes[i].strong > 0
                && reachable(adj, s0.anchors(), i))
        }
    &&& forall|w: int, k: int|
        s0.has(w) && s1.boxes[w].color == Color::Gray && s.boxes[w].color != Color::Gray && 0 <= k
            < adj[w].len() ==> {
            let x = (#[trigger] adj[w][k]) as int;
            if s.boxes[w].color == Color::White {
                s.boxes[x].color != Color::Gray || occ(scan, x) > 0 || occ(restore, x) > 0
            } else {
                s.boxes[x].color == Color::Black || occ(restore, x) > 0
            }
        }
    &&& forall|k: int| 0 <= k < scan.len() ==> (#[trigger] scan[k]) < s0.boxes.len()
    &&& forall|k: int|
        0 <= k < restore.len() ==> (#[trigger] restore[k]) < s0.boxes.len() && reachable(
            adj,
            s0.anchors(),
            restore[k] as int,
        )
}

/// The marked boxes, as the colors after the mark phase tell them.
proof fn lemma_gray_is_marked<T: Trace>(s0: HeapState<T>, s1: HeapState<T>, c: int)
    requires
        s0.sound(),
        marked_post(s0, s1),
    ensures
        inflow(s0.strong_adj(), gray_set(s1), c) == inflow(s0.strong_adj(), s0.marked(), c),
{
    let adj = s0.strong_adj();
    assert forall|j: int| 0 <= j < adj.len() implies gray_set(s1).contains(j) == s0.marked().contains(j) by {
        assert(s1.boxes[j].color == if s0.marked().contains(j) {
            Color::Gray
        } else {
            Color::Black
        });
    }
    lemma_inflow_same(adj, gray_set(s1), adj, s0.marked(), c);
}

/// After the mark phase nothing has been scanned.
pub proof fn lemma_scan_init<T: Trace>(s0: HeapState<T>, s1: HeapState<T>)
    requires
        s0.sound(),
        marked_post(s0, s1),
    ensures
        scan_inv(s0, s1, s1, Seq::empty(), Seq::empty()),
{
    let adj = s0.strong_adj();
    assert(uncounted(s1) =~= gray_set(s1)) by {
        assert forall|i: int| uncounted(s1).contains(i) implies gray_set(s1).contains(i) by {
            assert(s1.boxes[i].color == if s0.marked().contains(i) {
                Color::Gray
            } else {
                Color::Black
            });
        }
    }
    assert forall|i: int| s0.has(i) implies {
        &&& (#[trigger] s1.boxes[i]).strong + inflow(adj, uncounted(s1), i) + occ(Seq::<usize>::empty(), i)
            == s0.boxes[i].strong
        &&& s1.boxes[i].color != Color::Purple
        &&& (s1.boxes[i].color != Color::Gray ==> s1.boxes[i].color == Color::Black)
        &&& (s1.boxes[i].color == Color::White ==> s1.boxes[i].strong == 0)
    } by {
        lemma_gray_is_marked(s0, s1, i);
        assert(s1.boxes[i].strong == s0.trial_strong(i));
        assert(s1.boxes[i].color == if s0.marked().contains(i) {
            Color::Gray
        } else {
            Color::Black
        });
    }
}

/// A box of the buffer is put aside to be looked at.
pub proof fn lemma_scan_queue<T: Trace>(s0: HeapState<T>, s1: HeapState<T>, s: HeapState<T>, r: usize)
    requires
        s0.sound(),
        scan_inv(s0, s1, s, Seq::empty(), Seq::empty()),
        s0.has(r as int),
    ensures
        scan_inv(s0, s1, s, seq![r], Seq::empty()),
{
    let adj = s0.strong_adj();
    let scan = seq![r];
    assert forall|w: int, k: int|
        s0.has(w) && s1.boxes[w].color == Color::Gray && s.boxes[w].color != Color::Gray && 0 <= k
            < adj[w].len() implies {
        let x = (#[trigger] adj[w][k]) as int;
        if s.boxes[w].color == Color::White {
            s.boxes[x].color != Color::Gray || occ(scan, x) > 0 || occ(Seq::<usize>::empty(), x) > 0
        } else {
            s.boxes[x].color == Color::Black || occ(Seq::<usize>::empty(), x) > 0
        }
    } by {
        let x = adj[w][k] as int;
        assert(occ(Seq::<usize>::empty(), x) == 0);
    }
}

/// The phase counts the handle that was put aside last, to box `c`, again:
/// the count of `c` goes up by one, and if `c` was not black it turns black
/// and its handles are put aside to be counted again.
pub proof fn lemma_scan_restore<T: Trace>(
    s0: HeapState<T>,
    s1: HeapState<T>,
    s: HeapState<T>,
    scan: Seq<usize>,
    restore: Seq<usize>,
)
    requires
        s0.sound(),
        marked_post(s0, s1),
        scan_inv(s0, s1, s, scan, restore),
        restore.len() > 0,
    ensures
        s.boxes[restore.last() as int].strong + 1 <= s0.boxes[restore.last() as int].strong,
        scan_inv(
            s0,
            s1,
            s.with_box(restore.last() as int, restored_box(s.boxes[restore.last() as int])),
            scan,
            if s.boxes[restore.last() as int].color == Color::Black {
                restore.drop_last()
            } else {
                restore.drop_last() + s0.strong_refs(restore.last() as int)
            },
        ),
{
    let adj = s0.strong_adj();
    let c = restore.last() as int;
    let rest = restore.drop_last();
    assert(restore[restore.len() - 1] < s0.boxes.len());
    assert(reachable(adj, s0.anchors(), c));
    let was_black = s.boxes[c].color == Color::Black;
    let t = s.with_box(c, restored_box(s.boxes[c]));
    let restore2 = if was_black {
        rest
    } else {
        rest + s0.strong_refs(c)
    };
    assert(adj[c] == s0.strong_refs(c));
    assert(s.boxes[c].strong + inflow(adj, uncounted(s), c) + occ(restore, c) == s0.boxes[c].strong);
    if was_black {
        assert(uncounted(t) =~= uncounted(s));
    } else {
        assert(uncounted(t) =~= uncounted(s).remove(c));
    }
    assert forall|i: int| s0.has(i) implies {
        &&& (#[trigger] t.boxes[i]).value == s0.boxes[i].value
        &&& t.boxes[i].strong + inflow(adj, uncounted(t), i) + occ(restore2, i) == s0.boxes[i].strong
        &&& t.boxes[i].strong >= s1.boxes[i].strong
        &&& t.boxes[i].color != Color::Purple
        &&& (s1.boxes[i].color != Color::Gray ==> t.boxes[i].color == Color::Black)
        &&& (t.boxes[i].color == Color::White ==> t.boxes[i].strong == 0)
        &&& (s1.boxes[i].color == Color::Gray && t.boxes[i].color == Color::Black ==> t.boxes[i].strong > 0
            && reachable(adj, s0.anchors(), i))
    } by {
        assert(s.boxes[i].value == s0.boxes[i].value);
        assert(s.boxes[i].strong + inflow(adj, uncounted(s), i) + occ(restore, i) == s0.boxes[i].strong);
        if !was_black {
            lemma_inflow_remove(adj, uncounted(s), c, i);
            lemma_occ_add(rest, adj[c], i);
        }
    }
    assert forall|w: int, k: int|
        s0.has(w) && s1.boxes[w].color == Color::Gray && t.boxes[w].color != Color::Gray && 0 <= k
            < adj[w].len() implies {
        let x = (#[trigger] adj[w][k]) as int;
        if t.boxes[w].color == Color::White {
            t.boxes[x].color != Color::Gray || occ(scan, x) > 0 || occ(restore2, x) > 0
        } else {
            t.boxes[x].color == Color::Black || occ(restore2, x) > 0
        }
    } by {
        let x = adj[w][k] as int;
        assert(adj[w][k] < adj.len());
        if w == c && !was_black {
            lemma_occ_at(adj[c], k);
            lemma_occ_add(rest, adj[c], x);
        } else {
            assert(s.boxes[w].color != Color::Gray);
            if x != c {
                assert(occ(rest, x) == occ(restore, x));
                if !was_black {
                    lemma_occ_add(rest, adj[c], x);
                }
            }
        }
    }
    assert forall|k: int| 0 <= k < restore2.len() implies (#[trigger] restore2[k]) < s0.boxes.len() && reachable(
        adj,
        s0.anchors(),
        restore2[k] as int,
    ) by {
        if k < rest.len() {
            assert(restore2[k] == restore[k]);
        } else {
            let j = k - rest.len();
            assert(restore2[k] == adj[c][j]);
            assert(adj[c][j] < adj.len());
            lemma_occ_at(adj[c], j);
            assert(has_edge(adj, c, restore2[k] as int));
            lemma_reach_step(adj, s0.anchors(), c, restore2[k] as int);
        }
    }
}

/// A gray box with a strong handle is kept alive by an anchor.
proof fn lemma_scan_alive<T: Trace>(
    s0: HeapState<T>,
    s1: HeapState<T>,
    s: HeapState<T>,
    scan: Seq<usize>,
    restore: Seq<usize>,
    x: int,
)
    requires
        s0.sound(),
        marked_post(s0, s1),
        scan_inv(s0, s1, s, scan, restore),
        s0.has(x),
        s.boxes[x].color == Color::Gray,
        s.boxes[x].strong > 0,
    ensures
        reachable(s0.strong_adj(), s0.anchors(), x),
{
    let adj = s0.strong_adj();
    assert(s1.boxes[x].color == Color::Gray);
    assert(s1.boxes[x].color == if s0.marked().contains(x) {
        Color::Gray
    } else {
        Color::Black
    });
    assert(s0.marked().contains(x));
    assert(s1.boxes[x].strong == s0.trial_strong(x));
    if s0.trial_strong(x) > 0 {
        assert(s0.anchors().contains(x));
        lemma_reach_source(adj, s0.anchors(), x);
    } else {
        let u = uncounted(s);
        let b = Set::new(|i: int| gray_set(s1).contains(i) && !u.contains(i));
        lemma_gray_is_marked(s0, s1, x);
        lemma_inflow_split(adj, u, b, x);
        assert forall|j: int| 0 <= j < adj.len() implies u.union(b).contains(j) == gray_set(s1).contains(j) by {
            assert(s.boxes[j].color != Color::Purple);
            if s1.boxes[j].color != Color::Gray {
                assert(s.boxes[j].color == Color::Black);
            }
        }
        lemma_inflow_same(adj, u.union(b), adj, gray_set(s1), x);
        assert(s.boxes[x].strong + inflow(adj, u, x) + occ(restore, x) == s0.boxes[x].strong);
        assert(inflow(adj, b, x) > 0);
        let j = lemma_inflow_positive(adj, b, x);
        assert(s.boxes[j].color == Color::Black);
        assert(reachable(adj, s0.anchors(), j));
        lemma_reach_step(adj, s0.anchors(), j, x);
    }
}

/// The phase looks at the box that was put aside last, `x`. If `x` is gray
/// and has a strong handle, it turns black and its handles are put aside to
/// be counted again. If `x` is gray without a strong handle, it turns white
/// and the boxes of its handles are put aside to be looked at. Otherwise
/// nothing changes.
pub proof fn lemma_scan_visit<T: Trace>(
    s0: HeapState<T>,
    s1: HeapState<T>,
    s: HeapState<T>,
    scan: Seq<usize>,
    restore: Seq<usize>,
)
    requires
        s0.sound(),
        marked_post(s0, s1),
        scan_inv(s0, s1, s, scan, restore),
        scan.len() > 0,
    ensures
        ({
            let x = scan.last() as int;
            let rest = scan.drop_last();
            if s.boxes[x].color != Color::Gray {
                scan_inv(s0, s1, s, rest, restore)
            } else if s.boxes[x].strong > 0 {
                scan_inv(
                    s0,
                    s1,
                    s.with_box(x, BoxState { color: Color::Black, ..s.boxes[x] }),
                    rest,
                    restore + s0.strong_refs(x),
                )
            } else {
                scan_inv(
                    s0,
                    s1,
                    s.with_box(x, BoxState { color: Color::White, ..s.boxes[x] }),
                    rest + s0.strong_refs(x),
                    restore,
                )
            }
        }),
{
    let adj = s0.strong_adj();
    let x = scan.last() as int;
    let rest = scan.drop_last();
    assert(scan[scan.len() - 1] < s0.boxes.len());
    assert(adj[x] == s0.strong_refs(x));
    if s.boxes[x].color != Color::Gray {
        assert forall|w: int, k: int|
            s0.has(w) && s1.boxes[w].color == Color::Gray && s.boxes[w].color != Color::Gray && 0 <= k
                < adj[w].len() implies {
            let y = (#[trigger] adj[w][k]) as int;
            if s.boxes[w].color == Color::White {
                s.boxes[y].color != Color::Gray || occ(rest, y) > 0 || occ(restore, y) > 0
            } else {
                s.boxes[y].color == Color::Black || occ(restore, y) > 0
            }
        } by {
            let y = adj[w][k] as int;
            if y != x {
                assert(occ(rest, y) == occ(scan, y));
            }
        }
        assert forall|k: int| 0 <= k < rest.len() implies (#[trigger] rest[k]) < s0.boxes.len() by {
            assert(rest[k] == scan[k]);
        }
    } else if s.boxes[x].strong > 0 {
        lemma_scan_alive(s0, s1, s, scan, restore, x);
        let t = s.with_box(x, BoxState { color: Color::Black, ..s.boxes[x] });
        let restore2 = restore + adj[x];
        assert(uncounted(t) =~= uncounted(s).remove(x));
        assert forall|i: int| s0.has(i) implies {
            &&& (#[trigger] t.boxes[i]).value == s0.boxes[i].value
            &&& t.boxes[i].strong + inflow(adj, uncounted(t), i) + occ(restore2, i) == s0.boxes[i].strong
            &&& t.boxes[i].strong >= s1.boxes[i].strong
            &&& t.boxes[i].color != Color::Purple
            &&& (s1.boxes[i].color != Color::Gray ==> t.boxes[i].color == Color::Black)
            &&& (t.boxes[i].color == Color::White ==> t.boxes[i].strong == 0)
            &&& (s1.boxes[i].color == Color::Gray && t.boxes[i].color == Color::Black ==> t.boxes[i].strong > 0
                && reachable(adj, s0.anchors(), i))
        } by {
            assert(s.boxes[i].value == s0.boxes[i].value);
            assert(s.boxes[i].strong + inflow(adj, uncounted(s), i) + occ(restore, i) == s0.boxes[i].strong);
            lemma_inflow_remove(adj, uncounted(s), x, i);
            lemma_occ_add(restore, adj[x], i);
        }
        assert forall|w: int, k: int|
            s0.has(w) && s1.boxes[w].color == Color::Gray && t.boxes[w].color != Color::Gray && 0 <= k
                < adj[w].len() implies {
            let y = (#[trigger] adj[w][k]) as int;
            if t.boxes[w].color == Color::White {
                t.boxes[y].color != Color::Gray || occ(rest, y) > 0 || occ(restore2, y) > 0
            } else {
                t.boxes[y].color == Color::Black || occ(restore2, y) > 0
            }
        } by {
            let y = adj[w][k] as int;
            assert(adj[w][k] < adj.len());
            lemma_occ_add(restore, adj[x], y);
            if w == x {
                lemma_occ_at(adj[x], k);
            } else {
                assert(s.boxes[w].color != Color::Gray);
                if y != x {
                    assert(occ(rest, y) == occ(scan, y));
                }
            }
        }
        assert forall|k: int| 0 <= k < rest.len() implies (#[trigger] rest[k]) < s0.boxes.len() by {
            assert(rest[k] == scan[k]);
        }
        assert forall|k: int| 0 <= k < restore2.len() implies (#[trigger] restore2[k]) < s0.boxes.len()
            && reachable(adj, s0.anchors(), restore2[k] as int) by {
            if k < restore.len() {
                assert(restore2[k] == restore[k]);
            } else {
                let j = k - restore.len();
                assert(restore2[k] == adj[x][j]);
                assert(adj[x][j] < adj.len());
                lemma_occ_at(adj[x], j);
                assert(has_edge(adj, x, restore2[k] as int));
                lemma_reach_step(adj, s0.anchors(), x, restore2[k] as int);
            }
        }
    } else {
        let t = s.with_box(x, BoxState { color: Color::White, ..s.boxes[x] });
        let scan2 = rest + adj[x];
        assert(uncounted(t) =~= uncounted(s));
        assert forall|i: int| s0.has(i) implies {
            &&& (#[trigger] t.boxes[i]).value == s0.boxes[i].value
            &&& t.boxes[i].strong + inflow(adj, uncounted(t), i) + occ(restore, i) == s0.boxes[i].strong
            &&& t.boxes[i].strong >= s1.boxes[i].strong
            &&& t.boxes[i].color != Color::Purple
            &&& (s1.boxes[i].color != Color::Gray ==> t.boxes[i].color == Color::Black)
            &&& (t.boxes[i].color == Color::White ==> t.boxes[i].strong == 0)
            &&& (s1.boxes[i].color == Color::Gray && t.boxes[i].color == Color::Black ==> t.boxes[i].strong > 0
                && reachable(adj, s0.anchors(), i))
        } by {
            assert(s.boxes[i].value == s0.boxes[i].value);
            assert(s.boxes[i].strong + inflow(adj, uncounted(s), i) + occ(restore, i) == s0.boxes[i].strong);
        }
        assert forall|w: int, k: int|
            s0.has(w) && s1.boxes[w].color == Color::Gray && t.boxes[w].color != Color::Gray && 0 <= k
                < adj[w].len() implies {
            let y = (#[trigger] adj[w][k]) as int;
            if t.boxes[w].color == Color::White {
                t.boxes[y].color != Color::Gray || occ(scan2, y) > 0 || occ(restore, y) > 0
            } else {
                t.boxes[y].color == Color::Black || occ(restore, y) > 0
            }
        } by {
            let y = adj[w][k] as int;
            assert(adj[w][k] < adj.len());
            lemma_occ_add(rest, adj[x], y);
            if w == x {
                lemma_occ_at(adj[x], k);
            } else {
                assert(s.boxes[w].color != Color::Gray);
                if y != x {
                    assert(occ(rest, y) == occ(scan, y));
                }
            }
        }
        assert forall|k: int| 0 <= k < scan2.len() implies (#[trigger] scan2[k]) < s0.boxes.len() by {
            if k < rest.len() {
                assert(scan2[k] == scan[k]);
            } else {
                let j = k - rest.len();
                assert(scan2[k] == adj[x][j]);
                assert(adj[x][j] < adj.len());
            }
        }
    }
}

/// What the scan phase leaves behind: the garbage is white and everything
/// else black, and each strong count has lost the handles that the payloads
/// of the garbage own.
pub open spec fn scanned_post<T: Trace>(s0: HeapState<T>, s2: HeapState<T>) -> bool {
    &&& roots_post(s0, s2)
    &&& forall|i: int|
        s0.has(i) ==> {
            &&& (#[trigger] s2.boxes[i]).color == if s0.garbage().contains(i) {
                Color::White
            } else {
                Color::Black
            }
            &&& s2.boxes[i].strong == s0.boxes[i].strong - inflow(s0.strong_adj(), s0.garbage(), i)
        }
}

/// The marked boxes lie in the heap, and no handle leads out of them.
pub proof fn lemma_marked_closed<T: Trace>(s0: HeapState<T>)
    requires
        s0.sound(),
    ensures
        edge_closed(s0.strong_adj(), s0.marked()),
        forall|i: int| #[trigger] s0.marked().contains(i) ==> s0.has(i),
        forall|i: int| #[trigger] s0.rescued().contains(i) ==> s0.marked().contains(i),
{
    let adj = s0.strong_adj();
    lemma_reach_set_closed(adj, s0.candidates());
    assert forall|i: int| #[trigger] s0.marked().contains(i) implies s0.has(i) by {
        crate::graph::lemma_reach_in_graph(adj, s0.candidates(), i);
    }
    assert forall|i: int| #[trigger] s0.rescued().contains(i) implies s0.marked().contains(i) by {
        lemma_reach_within(adj, s0.anchors(), s0.marked(), i);
    }
}

/// When every box of the buffer has been scanned and nothing is put aside,
/// the white boxes are the garbage.
pub proof fn lemma_scan_done<T: Trace>(s0: HeapState<T>, s1: HeapState<T>, s: HeapState<T>)
    requires
        s0.sound(),
        marked_post(s0, s1),
        scan_inv(s0, s1, s, Seq::empty(), Seq::empty()),
        forall|k: int| 0 <= k < s1.roots.len() ==> s.boxes[(#[trigger] s1.roots[k]) as int].color != Color::Gray,
    ensures
        forall|i: int|
            s0.has(i) ==> {
                &&& (#[trigger] s.boxes[i]).color == if s0.garbage().contains(i) {
                    Color::White
                } else {
                    Color::Black
                }
                &&& s.boxes[i].strong == s0.boxes[i].strong - inflow(s0.strong_adj(), s0.garbage(), i)
            },
{
    let adj = s0.strong_adj();
    let m = s0.marked();
    lemma_marked_closed(s0);
    assert forall|i: int| s0.has(i) implies (m.contains(i) <==> (#[trigger] s1.boxes[i]).color == Color::Gray) by {
        assert(s1.boxes[i].color == if s0.marked().contains(i) {
            Color::Gray
        } else {
            Color::Black
        });
    }
    // Every marked box has been scanned.
    let done = Set::new(|i: int| m.contains(i) && s.boxes[i].color != Color::Gray);
    assert(edge_closed(adj, done)) by {
        assert forall|a: int, b: int| done.contains(a) && has_edge(adj, a, b) implies done.contains(b) by {
            assert(m.contains(b));
            lemma_occ_positive(adj[a], b);
            let k = choose|k: int| 0 <= k < adj[a].len() && adj[a][k] as int == b;
            assert(adj[a][k] < adj.len());
            assert(s1.boxes[a].color == Color::Gray);
            assert(occ(Seq::<usize>::empty(), b) == 0);
        }
    }
    assert forall|i: int| m.contains(i) implies done.contains(i) by {
        assert(reachable(adj, s0.candidates(), i));
        assert(reachable(adj, root_set(s1.roots), i));
        assert forall|a: int| root_set(s1.roots).contains(a) implies done.contains(a) by {
            let k = choose|k: int| 0 <= k < s1.roots.len() && s1.roots[k] as int == a;
            assert(s0.candidates().contains(s1.roots[k] as int));
            lemma_reach_source(adj, s0.candidates(), a);
        }
        lemma_reach_within(adj, root_set(s1.roots), done, i);
    }
    // The black ones among them are those that an anchor keeps alive.
    let alive = Set::new(|i: int| m.contains(i) && s.boxes[i].color == Color::Black);
    assert(edge_closed(adj, alive)) by {
        assert forall|a: int, b: int| alive.contains(a) && has_edge(adj, a, b) implies alive.contains(b) by {
            assert(m.contains(b));
            lemma_occ_positive(adj[a], b);
            let k = choose|k: int| 0 <= k < adj[a].len() && adj[a][k] as int == b;
            assert(adj[a][k] < adj.len());
            assert(s1.boxes[a].color == Color::Gray);
            assert(occ(Seq::<usize>::empty(), b) == 0);
        }
    }
    assert forall|a: int| s0.anchors().contains(a) implies alive.contains(a) by {
        assert(done.contains(a));
        assert(s1.boxes[a].strong == s0.trial_strong(a));
        assert(s.boxes[a].strong >= s1.boxes[a].strong);
        assert(s.boxes[a].color != Color::Purple);
    }
    assert forall|i: int| s0.has(i) implies {
        &&& (#[trigger] s.boxes[i]).color == if s0.garbage().contains(i) {
            Color::White
        } else {
            Color::Black
        }
        &&& s.boxes[i].strong == s0.boxes[i].strong - inflow(adj, s0.garbage(), i)
    } by {
        if s0.rescued().contains(i) {
            lemma_reach_within(adj, s0.anchors(), alive, i);
        }
        if m.contains(i) {
            assert(done.contains(i));
            assert(s.boxes[i].color != Color::Purple);
            if s.boxes[i].color == Color::Black {
                assert(reachable(adj, s0.anchors(), i));
            }
        } else {
            assert(s1.boxes[i].color != Color::Gray);
        }
        assert forall|j: int| 0 <= j < adj.len() implies uncounted(s).contains(j) == s0.garbage().contains(j) by {
            if s0.rescued().contains(j) {
                lemma_reach_within(adj, s0.anchors(), alive, j);
            }
            if m.contains(j) {
                assert(done.contains(j));
                assert(s.boxes[j].color != Color::Purple);
                if s.boxes[j].color == Color::Black {
                    assert(reachable(adj, s0.anchors(), j));
                }
            } else {
                assert(s1.boxes[j].color != Color::Gray);
                assert(s.boxes[j].color == Color::Black);
            }
        }
        lemma_inflow_same(adj, uncounted(s), adj, s0.garbage(), i);
        assert(occ(Seq::<usize>::empty(), i) == 0);
    }
}

} // verus!
