use crate::error::Error;
use crate::node::{copy_words, contains_word, lemma_distinct_len, lemma_push_contains, lemma_push_to_set, Node, NodeView};
use crate::random::{random_below, shuffle_ids};
use crate::storage::{batch_view, id_range, with_batch, DataStore, GraphStorage};
use vstd::prelude::*;

verus! {

/// `d` is a distance that `f` gave for two vectors with these words.
pub open spec fn dist_is<F: Fn(&Vec<u32>, &Vec<u32>) -> i64>(
    f: F,
    x: Seq<u32>,
    y: Seq<u32>,
    d: i64,
) -> bool {
    exists|a: &Vec<u32>, b: &Vec<u32>| #[trigger] call_ensures(f, (a, b), d) && a@ == x && b@ == y
}

/// The order of search entries: by distance, then by id.
pub open spec fn entry_before(a: (i64, u32), b: (i64, u32)) -> bool {
    a.0 < b.0 || (a.0 == b.0 && a.1 < b.1)
}

/// Entries in strictly ascending order.
pub open spec fn ascending(s: Seq<(i64, u32)>) -> bool {
    forall|i: int, j: int| 0 <= i < j < s.len() ==> entry_before(#[trigger] s[i], #[trigger] s[j])
}

/// The ids of a sequence of entries.
pub open spec fn entry_ids(s: Seq<(i64, u32)>) -> Seq<u32> {
    s.map_values(|e: (i64, u32)| e.1)
}

/// Each entry carries a stored node and a distance that `f` gave between
/// the query and that node's vector.
pub open spec fn entries_measured<F: Fn(&Vec<u32>, &Vec<u32>) -> i64>(
    f: F,
    q: Seq<u32>,
    nodes: Map<u32, NodeView>,
    s: Seq<(i64, u32)>,
) -> bool {
    forall|i: int|
        0 <= i < s.len() ==> nodes.contains_key(#[trigger] s[i].1) && dist_is(
            f,
            q,
            nodes[s[i].1].vector,
            s[i].0,
        )
}

/// `ids` are stored nodes in ascending order of a distance that `f` gave
/// to the query, ties broken by id.
pub open spec fn ranked<F: Fn(&Vec<u32>, &Vec<u32>) -> i64>(
    f: F,
    q: Seq<u32>,
    nodes: Map<u32, NodeView>,
    ids: Seq<u32>,
) -> bool {
    exists|s: Seq<(i64, u32)>|
        #[trigger] entry_ids(s) == ids && ascending(s) && entries_measured(f, q, nodes, s)
}

/// The graph invariants: every neighbour set is within the cap, holds no
/// self-loop, and names stored nodes only.
pub open spec fn graph_ok(nodes: Map<u32, NodeView>, r_max: nat) -> bool {
    forall|k: u32|
        #[trigger] nodes.contains_key(k) ==> {
            &&& nodes[k].connected.len() <= r_max
            &&& !nodes[k].connected.contains(k)
            &&& forall|x: u32| nodes[k].connected.contains(x) ==> nodes.contains_key(x)
        }
}

/// The occlusion factor α of pruning, as the ratio `num / den`: a
/// candidate `y` is dropped once a kept `x` has `α · d(x, y) <= d(p, y)`.
/// `1/1` prunes hardest; larger ratios keep more edges.
#[derive(Clone, Copy, Debug)]
pub struct Alpha {
    pub num: u32,
    pub den: u32,
}

/// Whether `x`, at distance `d_xy` from `y`, occludes `y`, at distance
/// `d_py` from the pruned node. The products are exact.
pub open spec fn occludes(alpha: Alpha, d_xy: i64, d_py: i64) -> bool {
    d_xy * alpha.num <= d_py * alpha.den
}

/// The nodes of `b` are those of `a`, with the same ids and vectors; only
/// neighbour sets may differ.
pub open spec fn same_vectors(a: Map<u32, NodeView>, b: Map<u32, NodeView>) -> bool {
    &&& a.dom() == b.dom()
    &&& forall|k: u32| #[trigger] a.contains_key(k) ==> b[k].id == a[k].id && b[k].vector == a[k].vector
}

/// Replacing one node's neighbour set keeps ids and vectors.
pub proof fn lemma_rewire_same_vectors(m: Map<u32, NodeView>, k: u32, c: Set<u32>)
    requires
        m.contains_key(k),
    ensures
        same_vectors(m, m.insert(k, m[k].with_connected(c))),
{
    assert(m.insert(k, m[k].with_connected(c)).dom() =~= m.dom());
}

/// Keeping ids and vectors is transitive.
pub proof fn lemma_same_vectors_trans(a: Map<u32, NodeView>, b: Map<u32, NodeView>, c: Map<u32, NodeView>)
    requires
        same_vectors(a, b),
        same_vectors(b, c),
    ensures
        same_vectors(a, c),
{
}

/// The vectors of a stream of `(vector, payload)` batches, in order.
pub open spec fn input_vectors(input: Seq<Vec<(Vec<u32>, String)>>) -> Seq<Seq<u32>>
    decreases input.len(),
{
    if input.len() == 0 {
        Seq::empty()
    } else {
        input_vectors(input.drop_last()) + input.last()@.map_values(|e: (Vec<u32>, String)| e.0@)
    }
}

/// The payloads of a stream of `(vector, payload)` batches, in order.
pub open spec fn input_payloads(input: Seq<Vec<(Vec<u32>, String)>>) -> Seq<Seq<char>>
    decreases input.len(),
{
    if input.len() == 0 {
        Seq::empty()
    } else {
        input_payloads(input.drop_last()) + input.last()@.map_values(|e: (Vec<u32>, String)| e.1@)
    }
}

/// The payload map after recording `ps` for the ids from `first` on.
pub open spec fn with_payloads(m: Map<u32, Seq<char>>, first: nat, ps: Seq<Seq<char>>) -> Map<
    u32,
    Seq<char>,
> {
    Map::new(
        |k: u32| m.contains_key(k) || (first <= k < first + ps.len()),
        |k: u32|
            if first <= k < first + ps.len() {
                ps[k - first]
            } else {
                m[k]
            },
    )
}

/// The vector of each stored node, by id.
pub open spec fn vectors_of(m: Map<u32, NodeView>) -> Map<u32, Seq<u32>> {
    m.map_values(|n: NodeView| n.vector)
}

/// `d(p, y) = dpy`, and some distance that `f` gave from `x` to `y` does not
/// occlude `y`: `x` lets `y` stay.
pub open spec fn spared<F: Fn(&Vec<u32>, &Vec<u32>) -> i64>(
    f: F,
    alpha: Alpha,
    xv: Seq<u32>,
    yv: Seq<u32>,
    dpy: i64,
) -> bool {
    exists|d: i64| dist_is(f, xv, yv, d) && !occludes(alpha, d, dpy)
}

/// A chosen node that comes before `y` in (distance from `p`, id) order
/// occludes `y` under `alpha`; `ds` are the chosen nodes' distances from `p`.
pub open spec fn occluded_before<F: Fn(&Vec<u32>, &Vec<u32>) -> i64>(
    f: F,
    alpha: Alpha,
    pv: Seq<u32>,
    vecs: Map<u32, Seq<u32>>,
    chosen: Seq<u32>,
    ds: Seq<i64>,
    y: u32,
) -> bool {
    exists|i: int, d: i64, dp: i64|
        #![trigger dist_is(f, pv, vecs[y], dp), dist_is(f, vecs[chosen[i]], vecs[y], d)]
        0 <= i < chosen.len() && dist_is(f, pv, vecs[y], dp) && entry_before(
            (ds[i], chosen[i]),
            (dp, y),
        ) && dist_is(f, vecs[chosen[i]], vecs[y], d) && occludes(alpha, d, dp)
}

/// The cap is reached and `y` comes after the last chosen node in (distance
/// from `p`, id) order.
pub open spec fn beyond_cap<F: Fn(&Vec<u32>, &Vec<u32>) -> i64>(
    f: F,
    pv: Seq<u32>,
    vecs: Map<u32, Seq<u32>>,
    chosen: Seq<u32>,
    ds: Seq<i64>,
    bound: nat,
    y: u32,
) -> bool {
    &&& chosen.len() == bound
    &&& chosen.len() == 0 || exists|dp: i64|
        #[trigger] dist_is(f, pv, vecs[y], dp) && entry_before(
            (ds[chosen.len() - 1], chosen[chosen.len() - 1]),
            (dp, y),
        )
}

/// The chosen neighbours, with their distances `ds` from `p`, come in
/// ascending order (ties by id), and none is occluded by an earlier one.
pub open spec fn chosen_in_order<F: Fn(&Vec<u32>, &Vec<u32>) -> i64>(
    f: F,
    alpha: Alpha,
    pv: Seq<u32>,
    vecs: Map<u32, Seq<u32>>,
    chosen: Seq<u32>,
    ds: Seq<i64>,
) -> bool {
    &&& ds.len() == chosen.len()
    &&& forall|i: int| 0 <= i < chosen.len() ==> #[trigger] dist_is(f, pv, vecs[chosen[i]], ds[i])
    &&& forall|i: int, j: int|
        0 <= i < j < chosen.len() ==> entry_before((ds[i], chosen[i]), (ds[j], chosen[j]))
    &&& forall|i: int, j: int|
        0 <= i < j < chosen.len() ==> #[trigger] spared(
            f,
            alpha,
            vecs[chosen[i]],
            vecs[chosen[j]],
            ds[j],
        )
}

/// The outcome of RobustPrune on the candidate set `pool`, the scan of the
/// candidates nearest first: the chosen ids come in that order and spare
/// one another, and every candidate left out was occluded by a chosen one
/// before it, or comes after the last chosen one once the cap is reached.
/// So the nearest candidate is always kept, if the cap allows any.
pub open spec fn pruned_well<F: Fn(&Vec<u32>, &Vec<u32>) -> i64>(
    f: F,
    alpha: Alpha,
    pv: Seq<u32>,
    vecs: Map<u32, Seq<u32>>,
    pool: Set<u32>,
    chosen: Seq<u32>,
    bound: nat,
) -> bool {
    exists|ds: Seq<i64>|
        #[trigger] chosen_in_order(f, alpha, pv, vecs, chosen, ds) && forall|y: u32|
            pool.contains(y) && !chosen.contains(y) ==> occluded_before(
                f,
                alpha,
                pv,
                vecs,
                chosen,
                ds,
                y,
            ) || beyond_cap(f, pv, vecs, chosen, ds, bound, y)
}

/// A candidate still in the heap: measured from `p`, after every chosen
/// one, and, while the cap is not reached, spared by each of them.
pub open spec fn heap_entry_ok<F: Fn(&Vec<u32>, &Vec<u32>) -> i64>(
    f: F,
    alpha: Alpha,
    pv: Seq<u32>,
    vecs: Map<u32, Seq<u32>>,
    chosen: Seq<u32>,
    ds: Seq<i64>,
    bound: nat,
    e: (i64, u32),
) -> bool {
    &&& vecs.contains_key(e.1)
    &&& dist_is(f, pv, vecs[e.1], e.0)
    &&& forall|i: int| 0 <= i < chosen.len() ==> entry_before((ds[i], chosen[i]), e)
    &&& chosen.len() < bound ==> forall|i: int|
        0 <= i < chosen.len() ==> spared(f, alpha, vecs[chosen[i]], vecs[e.1], e.0)
}

/// Choosing the head of the heap keeps the choice in order.
proof fn lemma_chosen_push<F: Fn(&Vec<u32>, &Vec<u32>) -> i64>(
    f: F,
    alpha: Alpha,
    pv: Seq<u32>,
    vecs: Map<u32, Seq<u32>>,
    chosen: Seq<u32>,
    ds: Seq<i64>,
    bound: nat,
    e: (i64, u32),
)
    requires
        chosen_in_order(f, alpha, pv, vecs, chosen, ds),
        heap_entry_ok(f, alpha, pv, vecs, chosen, ds, bound, e),
        chosen.len() < bound,
    ensures
        chosen_in_order(f, alpha, pv, vecs, chosen.push(e.1), ds.push(e.0)),
{
    let c = chosen.push(e.1);
    let d = ds.push(e.0);
    assert forall|i: int| 0 <= i < c.len() implies #[trigger] dist_is(f, pv, vecs[c[i]], d[i]) by {
        if i < chosen.len() {
            assert(c[i] == chosen[i] && d[i] == ds[i]);
        }
    }
    assert forall|i: int, j: int| 0 <= i < j < c.len() implies entry_before((d[i], c[i]), (d[j], c[j])) by {
        assert(c[i] == chosen[i] && d[i] == ds[i]);
        if j < chosen.len() {
            assert(c[j] == chosen[j] && d[j] == ds[j]);
        }
    }
    assert forall|i: int, j: int| 0 <= i < j < c.len() implies #[trigger] spared(
        f,
        alpha,
        vecs[c[i]],
        vecs[c[j]],
        d[j],
    ) by {
        assert(c[i] == chosen[i] && d[i] == ds[i]);
        if j < chosen.len() {
            assert(c[j] == chosen[j] && d[j] == ds[j]);
        }
    }
}

/// An occlusion by a chosen node stays one as more are chosen.
proof fn lemma_occluded_grow<F: Fn(&Vec<u32>, &Vec<u32>) -> i64>(
    f: F,
    alpha: Alpha,
    pv: Seq<u32>,
    vecs: Map<u32, Seq<u32>>,
    chosen: Seq<u32>,
    ds: Seq<i64>,
    x: u32,
    dx: i64,
)
    requires
        ds.len() == chosen.len(),
    ensures
        forall|y: u32|
            occluded_before(f, alpha, pv, vecs, chosen, ds, y) ==> occluded_before(
                f,
                alpha,
                pv,
                vecs,
                chosen.push(x),
                ds.push(dx),
                y,
            ),
{
    assert forall|y: u32| occluded_before(f, alpha, pv, vecs, chosen, ds, y) implies occluded_before(
        f,
        alpha,
        pv,
        vecs,
        chosen.push(x),
        ds.push(dx),
        y,
    ) by {
        let (i, d, dp) = choose|i: int, d: i64, dp: i64|
            #![trigger dist_is(f, pv, vecs[y], dp), dist_is(f, vecs[chosen[i]], vecs[y], d)]
            0 <= i < chosen.len() && dist_is(f, pv, vecs[y], dp) && entry_before(
                (ds[i], chosen[i]),
                (dp, y),
            ) && dist_is(f, vecs[chosen[i]], vecs[y], d) && occludes(alpha, d, dp);
        assert(chosen.push(x)[i] == chosen[i]);
        assert(ds.push(dx)[i] == ds[i]);
        assert(dist_is(f, vecs[chosen.push(x)[i]], vecs[y], d));
    }
}

/// A heap entry after the newly chosen one, and spared by it, stays a
/// proper heap entry.
proof fn lemma_entry_extend<F: Fn(&Vec<u32>, &Vec<u32>) -> i64>(
    f: F,
    alpha: Alpha,
    pv: Seq<u32>,
    vecs: Map<u32, Seq<u32>>,
    chosen: Seq<u32>,
    ds: Seq<i64>,
    bound: nat,
    ex: (i64, u32),
    e: (i64, u32),
)
    requires
        ds.len() == chosen.len(),
        heap_entry_ok(f, alpha, pv, vecs, chosen, ds, bound, e),
        chosen.len() + 1 < bound,
        entry_before(ex, e),
        spared(f, alpha, vecs[ex.1], vecs[e.1], e.0),
    ensures
        heap_entry_ok(f, alpha, pv, vecs, chosen.push(ex.1), ds.push(ex.0), bound, e),
{
    let c = chosen.push(ex.1);
    let d = ds.push(ex.0);
    assert forall|i: int| 0 <= i < c.len() implies entry_before((d[i], c[i]), e) by {
        if i < chosen.len() {
            assert(c[i] == chosen[i] && d[i] == ds[i]);
        }
    }
    assert forall|i: int| 0 <= i < c.len() implies spared(f, alpha, vecs[c[i]], vecs[e.1], e.0) by {
        if i < chosen.len() {
            assert(c[i] == chosen[i] && d[i] == ds[i]);
        }
    }
}

/// The same once the cap is reached, where sparing is no longer tracked.
proof fn lemma_entry_extend_full<F: Fn(&Vec<u32>, &Vec<u32>) -> i64>(
    f: F,
    alpha: Alpha,
    pv: Seq<u32>,
    vecs: Map<u32, Seq<u32>>,
    chosen: Seq<u32>,
    ds: Seq<i64>,
    bound: nat,
    ex: (i64, u32),
    e: (i64, u32),
)
    requires
        ds.len() == chosen.len(),
        heap_entry_ok(f, alpha, pv, vecs, chosen, ds, bound, e),
        chosen.len() + 1 >= bound,
        entry_before(ex, e),
    ensures
        heap_entry_ok(f, alpha, pv, vecs, chosen.push(ex.1), ds.push(ex.0), bound, e),
{
    let c = chosen.push(ex.1);
    let d = ds.push(ex.0);
    assert forall|i: int| 0 <= i < c.len() implies entry_before((d[i], c[i]), e) by {
        if i < chosen.len() {
            assert(c[i] == chosen[i] && d[i] == ds[i]);
        }
    }
}

/// What one back-edge from `p` does to a neighbour `q` (`old` before,
/// `new` after): nothing if `q` already links to `p`; else `p` joins `q`'s
/// set if the cap allows; else `q` is pruned again against its set and `p`.
pub open spec fn back_edge_ok<F: Fn(&Vec<u32>, &Vec<u32>) -> i64>(
    f: F,
    alpha: Alpha,
    bound: nat,
    p: u32,
    vecs: Map<u32, Seq<u32>>,
    old: NodeView,
    new: NodeView,
) -> bool {
    &&& new.id == old.id
    &&& new.vector == old.vector
    &&& if old.connected.contains(p) {
        new.connected == old.connected
    } else if old.connected.len() + 1 <= bound {
        new.connected == old.connected.insert(p)
    } else {
        exists|c: Seq<u32>|
            #[trigger] pruned_well(
                f,
                alpha,
                old.vector,
                vecs,
                old.connected.insert(p).remove(old.id),
                c,
                bound,
            ) && c.no_duplicates() && c.to_set() == new.connected
    }
}

/// `after` is `before` with a back-edge from `p` added to each of `cs`, and
/// every other node as it was.
pub open spec fn back_edges_ok<F: Fn(&Vec<u32>, &Vec<u32>) -> i64>(
    f: F,
    alpha: Alpha,
    bound: nat,
    p: u32,
    cs: Seq<u32>,
    before: Map<u32, NodeView>,
    after: Map<u32, NodeView>,
) -> bool {
    &&& after.dom() == before.dom()
    &&& forall|k: u32| #[trigger]
        before.contains_key(k) && !cs.contains(k) ==> after[k] == before[k]
    &&& forall|i: int|
        0 <= i < cs.len() ==> back_edge_ok(
            f,
            alpha,
            bound,
            p,
            vectors_of(before),
            before[#[trigger] cs[i]],
            after[cs[i]],
        )
}

/// Keeping ids and vectors keeps the vector map.
pub proof fn lemma_same_vectors_map(a: Map<u32, NodeView>, b: Map<u32, NodeView>)
    requires
        same_vectors(a, b),
    ensures
        vectors_of(a) == vectors_of(b),
{
    assert(vectors_of(a) =~= vectors_of(b));
}

/// `y` is in the frontier, or at least `l` frontier entries come before
/// it for a distance that `f` gave for it: it lost its place to nearer nodes.
pub open spec fn covered<F: Fn(&Vec<u32>, &Vec<u32>) -> i64>(
    f: F,
    q: Seq<u32>,
    nodes: Map<u32, NodeView>,
    l: nat,
    fr: Seq<(i64, u32)>,
    y: u32,
) -> bool {
    entry_ids(fr).contains(y) || (fr.len() >= l && (l == 0 || exists|d: i64|
        #[trigger] dist_is(f, q, nodes[y].vector, d) && entry_before(fr[l - 1], (d, y))))
}

/// Every expanded node, and every neighbour of one, is covered by the
/// frontier.
pub open spec fn walk_covered<F: Fn(&Vec<u32>, &Vec<u32>) -> i64>(
    f: F,
    q: Seq<u32>,
    nodes: Map<u32, NodeView>,
    l: nat,
    fr: Seq<(i64, u32)>,
    visited: Seq<u32>,
) -> bool {
    forall|i: int|
        0 <= i < visited.len() ==> covered(f, q, nodes, l, fr, #[trigger] visited[i]) && forall|y: u32|
            nodes[visited[i]].connected.contains(y) ==> covered(f, q, nodes, l, fr, y)
}

/// Inserting an entry keeps every node covered.
proof fn lemma_covered_insert<F: Fn(&Vec<u32>, &Vec<u32>) -> i64>(
    f: F,
    q: Seq<u32>,
    nodes: Map<u32, NodeView>,
    l: nat,
    fr: Seq<(i64, u32)>,
    fr2: Seq<(i64, u32)>,
    p: int,
    e: (i64, u32),
)
    requires
        ascending(fr),
        ascending(fr2),
        0 <= p <= fr.len(),
        fr2 == fr.insert(p, e),
    ensures
        forall|y: u32| covered(f, q, nodes, l, fr, y) ==> covered(f, q, nodes, l, fr2, y),
{
    assert forall|y: u32| covered(f, q, nodes, l, fr, y) implies covered(f, q, nodes, l, fr2, y) by {
        if entry_ids(fr).contains(y) {
            let a = choose|a: int| 0 <= a < entry_ids(fr).len() && entry_ids(fr)[a] == y;
            let a2 = if a < p { a } else { a + 1 };
            assert(fr2[a2] == fr[a]);
            assert(entry_ids(fr2)[a2] == y);
        } else if l >= 1 {
            let d = choose|d: i64| #[trigger] dist_is(f, q, nodes[y].vector, d) && entry_before(fr[l - 1], (d, y));
            if p > l - 1 {
                assert(fr2[l - 1] == fr[l - 1]);
            } else if p == l - 1 {
                assert(fr2[l - 1] == e);
                assert(fr2[l as int] == fr[l - 1]);
                assert(entry_before(fr2[l - 1], fr2[l as int]));
            } else {
                assert(fr2[l - 1] == fr[l - 2]);
                assert(entry_before(fr[l - 2], fr[l - 1]));
            }
            assert(entry_before(fr2[l - 1], (d, y)));
        }
    }
}

/// Cutting the frontier to `l` entries keeps every node covered.
proof fn lemma_covered_truncate<F: Fn(&Vec<u32>, &Vec<u32>) -> i64>(
    f: F,
    q: Seq<u32>,
    nodes: Map<u32, NodeView>,
    l: nat,
    fr: Seq<(i64, u32)>,
    fr2: Seq<(i64, u32)>,
)
    requires
        ascending(fr),
        entries_measured(f, q, nodes, fr),
        fr2 == if l <= fr.len() {
            fr.subrange(0, l as int)
        } else {
            fr
        },
    ensures
        forall|y: u32| covered(f, q, nodes, l, fr, y) ==> covered(f, q, nodes, l, fr2, y),
{
    assert forall|y: u32| covered(f, q, nodes, l, fr, y) implies covered(f, q, nodes, l, fr2, y) by {
        if l <= fr.len() {
            if entry_ids(fr).contains(y) {
                let a = choose|a: int| 0 <= a < entry_ids(fr).len() && entry_ids(fr)[a] == y;
                if a < l {
                    assert(entry_ids(fr2)[a] == y);
                } else if l >= 1 {
                    assert(fr[a].1 == y);
                    assert(dist_is(f, q, nodes[fr[a].1].vector, fr[a].0));
                    assert(entry_before(fr[l - 1], fr[a]));
                    assert(fr2[l - 1] == fr[l - 1]);
                    assert(dist_is(f, q, nodes[y].vector, fr[a].0) && entry_before(fr2[l - 1], (fr[a].0, y)));
                }
            } else if l >= 1 {
                assert(fr2[l - 1] == fr[l - 1]);
            }
        }
    }
}

/// The end state of a best-first walk: the frontier is ascending, holds
/// each id once with a measured distance, holds at most `l` entries (at
/// least one when `l >= 1`), and has no unvisited entry left.
pub open spec fn frontier_done<F: Fn(&Vec<u32>, &Vec<u32>) -> i64>(
    f: F,
    q: Seq<u32>,
    nodes: Map<u32, NodeView>,
    l: nat,
    fr: Seq<(i64, u32)>,
    visited: Seq<u32>,
) -> bool {
    &&& ascending(fr)
    &&& entry_ids(fr).no_duplicates()
    &&& entries_measured(f, q, nodes, fr)
    &&& fr.len() <= l
    &&& l >= 1 ==> fr.len() >= 1
    &&& forall|j: int| 0 <= j < fr.len() ==> visited.contains(#[trigger] fr[j].1)
    &&& walk_covered(f, q, nodes, l, fr, visited)
}

/// `top` is the first `min(k, len)` ids of a finished frontier.
pub open spec fn search_outcome<F: Fn(&Vec<u32>, &Vec<u32>) -> i64>(
    f: F,
    q: Seq<u32>,
    nodes: Map<u32, NodeView>,
    k: nat,
    l: nat,
    top: Seq<u32>,
    visited: Seq<u32>,
) -> bool {
    exists|fr: Seq<(i64, u32)>|
        #[trigger] frontier_done(f, q, nodes, l, fr, visited) && top == entry_ids(fr).take(
            if k < fr.len() {
                k as int
            } else {
                fr.len() as int
            },
        )
}

/// One step of an index pass on node `p`, from `before` to `after`: a walk
/// from `start` towards `p`'s vector (`k = 3`, `L = 10`) expanded `visited`;
/// `p`'s neighbours became `chosen`, RobustPrune of the visited nodes and
/// its old neighbours; then each chosen node got its back-edge to `p`.
pub open spec fn index_step<F: Fn(&Vec<u32>, &Vec<u32>) -> i64>(
    f: F,
    alpha: Alpha,
    bound: nat,
    start: u32,
    p: u32,
    before: Map<u32, NodeView>,
    after: Map<u32, NodeView>,
    visited: Seq<u32>,
    chosen: Seq<u32>,
) -> bool {
    &&& before.contains_key(p)
    &&& visited.contains(start)
    &&& forall|i: int| 0 <= i < visited.len() ==> before.contains_key(#[trigger] visited[i])
    &&& exists|top: Seq<u32>| #[trigger] search_outcome(f, before[p].vector, before, 3, 10, top, visited)
    &&& chosen.no_duplicates()
    &&& pruned_well(
        f,
        alpha,
        before[p].vector,
        vectors_of(before),
        visited.to_set().union(before[p].connected).remove(p),
        chosen,
        bound,
    )
    &&& back_edges_ok(
        f,
        alpha,
        bound,
        p,
        chosen,
        before.insert(p, before[p].with_connected(chosen.to_set())),
        after,
    )
}

/// A whole pass: `states[i + 1]` is `states[i]` after the step on
/// `order[i]`, with that step's visited and chosen ids in `trace[i]`.
pub open spec fn pass_ok<F: Fn(&Vec<u32>, &Vec<u32>) -> i64>(
    f: F,
    alpha: Alpha,
    bound: nat,
    start: u32,
    order: Seq<u32>,
    states: Seq<Map<u32, NodeView>>,
    trace: Seq<(Seq<u32>, Seq<u32>)>,
) -> bool {
    &&& states.len() == order.len() + 1
    &&& trace.len() == order.len()
    &&& forall|i: int|
        0 <= i < order.len() ==> #[trigger] index_step(
            f,
            alpha,
            bound,
            start,
            order[i],
            states[i],
            states[i + 1],
            trace[i].0,
            trace[i].1,
        )
}

/// The new node a draw `j0 < n - 1` picks for node `i`: any node but `i`.
pub open spec fn drawn_other(i: int, j0: int) -> int {
    if j0 >= i {
        j0 + 1
    } else {
        j0
    }
}

/// One random link attempt for new node `i` with draw `j0`: when both `i`
/// and the drawn node are under the cap and not yet linked, a pair of
/// half-edges joins them; else nothing changes.
pub open spec fn link_step(adj: Seq<Seq<u32>>, ids: Seq<u32>, cap: nat, i: int, j0: int) -> Seq<Seq<u32>> {
    let j = drawn_other(i, j0);
    if adj.len() >= 2 && adj[i].len() < cap && adj[j].len() < cap && !adj[i].contains(ids[j])
        && !adj[j].contains(ids[i]) {
        adj.update(i, adj[i].push(ids[j])).update(j, adj[j].push(ids[i]))
    } else {
        adj
    }
}

/// The link attempts in order: `r` for each of the `n` new nodes.
pub open spec fn attempts(n: nat, r: nat) -> Seq<int>
    decreases n,
{
    if n == 0 {
        Seq::empty()
    } else {
        attempts((n - 1) as nat, r) + Seq::new(r, |t: int| (n - 1) as int)
    }
}

/// The links after the attempts of `owners`, with draws `draws`.
pub open spec fn wire(adj: Seq<Seq<u32>>, ids: Seq<u32>, cap: nat, owners: Seq<int>, draws: Seq<int>) -> Seq<
    Seq<u32>,
>
    decreases owners.len(),
{
    if owners.len() == 0 || draws.len() != owners.len() {
        adj
    } else {
        link_step(
            wire(adj, ids, cap, owners.drop_last(), draws.drop_last()),
            ids,
            cap,
            owners.last(),
            draws.last(),
        )
    }
}

/// `n` empty link lists.
pub open spec fn no_links(n: nat) -> Seq<Seq<u32>> {
    Seq::new(n, |x: int| Seq::<u32>::empty())
}

/// The lists of a vector of lists.
pub open spec fn lists_of(adj: Seq<Vec<u32>>) -> Seq<Seq<u32>> {
    adj.map_values(|v: Vec<u32>| v@)
}

/// A Vamana proximity graph over a node store, with a payload store and the
/// distance kernel on vectors.
pub struct Graph<S, D, F> {
    pub index_store: S,
    pub data_store: D,
    pub max_neighbour_count: usize,
    pub distance: F,
}

/// Whether an entry with this id is among `s`.
fn has_entry(s: &Vec<(i64, u32)>, id: u32) -> (r: bool)
    ensures
        r == entry_ids(s@).contains(id),
{
    let mut i: usize = 0;
    while i < s.len()
        invariant
            i <= s@.len(),
            forall|j: int| 0 <= j < i ==> s@[j].1 != id,
        decreases s.len() - i,
    {
        if s[i].1 == id {
            assert(entry_ids(s@)[i as int] == id);
            return true;
        }
        i += 1;
    }
    assert forall|j: int| 0 <= j < entry_ids(s@).len() implies entry_ids(s@)[j] != id by {}
    false
}

/// Inserts an entry in its place in ascending order.
fn insert_entry(s: &mut Vec<(i64, u32)>, e: (i64, u32))
    requires
        ascending(old(s)@),
        !entry_ids(old(s)@).contains(e.1),
    ensures
        ascending(final(s)@),
        exists|p: int| 0 <= p <= old(s)@.len() && final(s)@ == old(s)@.insert(p, e),
{
    let mut p: usize = 0;
    while p < s.len() && entry_lt(s[p], e)
        invariant
            p <= s@.len(),
            forall|j: int| 0 <= j < p ==> entry_before(s@[j], e),
        decreases s.len() - p,
    {
        p += 1;
    }
    proof {
        if p < s@.len() {
            assert(s@[p as int].1 != e.1) by {
                assert(entry_ids(s@)[p as int] == s@[p as int].1);
            }
        }
    }
    let ghost before = s@;
    s.insert(p, e);
    assert forall|i: int, j: int| 0 <= i < j < s@.len() implies entry_before(#[trigger] s@[i], #[trigger] s@[j]) by {
        if j < p {
        } else if i < p && j == p {
        } else if i < p {
            assert(s@[j] == before[j - 1]);
            assert(entry_before(before[i], before[j - 1]) || i == j - 1);
        } else if i == p {
            assert(s@[j] == before[j - 1]);
            assert(!entry_before(before[p as int], e));
            assert(entry_before(before[p as int], before[j - 1]) || p == j - 1);
        } else {
            assert(s@[i] == before[i - 1]);
            assert(s@[j] == before[j - 1]);
        }
    }
}

/// Whether entry `a` comes before entry `b`.
fn entry_lt(a: (i64, u32), b: (i64, u32)) -> (r: bool)
    ensures
        r == entry_before(a, b),
{
    a.0 < b.0 || (a.0 == b.0 && a.1 < b.1)
}

impl<S: GraphStorage, D: DataStore, F: Fn(&Vec<u32>, &Vec<u32>) -> i64> Graph<S, D, F> {
    /// The graph's invariant: a sound store, a cap it can hold, the graph
    /// invariants, and a distance kernel defined on every pair of vectors.
    pub open spec fn wf(&self) -> bool {
        &&& self.index_store.inv()
        &&& self.max_neighbour_count <= self.index_store.max_degree()
        &&& graph_ok(self.index_store.nodes(), self.max_neighbour_count as nat)
        &&& forall|a: &Vec<u32>, b: &Vec<u32>| #[trigger] call_requires(self.distance, (a, b))
    }

    /// Builds a graph: appends every `(vector, payload)` of `input` to the
    /// stores, then links each new node to up to `r` random other new nodes
    /// in both directions, within `max_neighbour_count`.
    pub fn new(
        input: Vec<Vec<(Vec<u32>, String)>>,
        r: usize,
        max_neighbour_count: u8,
        index_store: S,
        data_store: D,
        distance: F,
    ) -> (res: Result<Self, Error>)
        requires
            index_store.inv(),
            graph_ok(index_store.nodes(), max_neighbour_count as nat),
            max_neighbour_count <= index_store.max_degree(),
            forall|a: &Vec<u32>, b: &Vec<u32>| #[trigger] call_requires(distance, (a, b)),
        ensures
            res is Ok <==> index_store.accepts(input_vectors(input@)),
            res matches Err(e) ==> e is InvalidInput,
            res matches Ok(g) ==> {
                &&& g.wf()
                &&& g.max_neighbour_count == max_neighbour_count
                &&& g.index_store.next_id() == index_store.next_id() + input_vectors(input@).len()
                &&& same_vectors(
                    with_batch(index_store.nodes(), index_store.next_id(), input_vectors(input@)),
                    g.index_store.nodes(),
                )
                &&& g.data_store.entries() == with_payloads(
                    data_store.entries(),
                    index_store.next_id(),
                    input_payloads(input@),
                )
                &&& links_paired(
                    g.index_store.nodes(),
                    index_store.next_id(),
                    input_vectors(input@).len(),
                )
                &&& forall|k: u32| #[trigger]
                    index_store.nodes().contains_key(k) ==> g.index_store.nodes()[k]
                        == index_store.nodes()[k]
                &&& exists|draws: Seq<int>|
                    #![trigger wire(
                        no_links(input_vectors(input@).len()),
                        id_range(index_store.next_id(), input_vectors(input@).len()),
                        max_neighbour_count as nat,
                        attempts(input_vectors(input@).len(), r as nat),
                        draws,
                    )]
                    draws.len() == attempts(input_vectors(input@).len(), r as nat).len()
                    && (forall|a: int| 0 <= a < draws.len() ==> 0 <= #[trigger] draws[a] < input_vectors(input@).len() - 1
                        || input_vectors(input@).len() < 2)
                    && forall|x: int| 0 <= x < input_vectors(input@).len() ==>
                        #[trigger] g.index_store.nodes()[id_range(index_store.next_id(), input_vectors(input@).len())[x]].connected
                        == wire(
                            no_links(input_vectors(input@).len()),
                            id_range(index_store.next_id(), input_vectors(input@).len()),
                            max_neighbour_count as nat,
                            attempts(input_vectors(input@).len(), r as nat),
                            draws,
                        )[x].to_set()
            },
    {
        let mut index_store = index_store;
        let mut data_store = data_store;
        let ghost nodes0 = index_store.nodes();
        let ghost first = index_store.next_id();
        let ghost entries0 = data_store.entries();
        proof {
            index_store.lemma_inv();
        }
        // The stream, flattened.
        let mut vectors: Vec<Vec<u32>> = Vec::new();
        let mut payloads: Vec<String> = Vec::new();
        let mut b: usize = 0;
        while b < input.len()
            invariant
                b <= input@.len(),
                vectors@.len() == payloads@.len(),
                batch_view(vectors@) == input_vectors(input@.subrange(0, b as int)),
                payloads@.map_values(|p: String| p@) == input_payloads(input@.subrange(0, b as int)),
            decreases input.len() - b,
        {
            let batch = &input[b];
            let ghost vs0 = batch_view(vectors@);
            let ghost ps0 = payloads@.map_values(|p: String| p@);
            let mut e: usize = 0;
            while e < batch.len()
                invariant
                    e <= batch@.len(),
                    vectors@.len() == payloads@.len(),
                    batch_view(vectors@) == vs0 + batch@.subrange(0, e as int).map_values(|x: (Vec<u32>, String)| x.0@),
                    payloads@.map_values(|p: String| p@) == ps0 + batch@.subrange(0, e as int).map_values(|x: (Vec<u32>, String)| x.1@),
                decreases batch.len() - e,
            {
                let ghost v_before = vectors@;
                let ghost p_before = payloads@;
                vectors.push(copy_words(&batch[e].0));
                payloads.push(batch[e].1.clone());
                proof {
                    assert(batch_view(vectors@) =~= batch_view(v_before).push(batch@[e as int].0@));
                    assert(batch@.subrange(0, e + 1).map_values(|x: (Vec<u32>, String)| x.0@) =~= batch@.subrange(0, e as int).map_values(|x: (Vec<u32>, String)| x.0@).push(batch@[e as int].0@));
                    assert(payloads@.map_values(|p: String| p@) =~= p_before.map_values(|p: String| p@).push(batch@[e as int].1@));
                    assert(batch@.subrange(0, e + 1).map_values(|x: (Vec<u32>, String)| x.1@) =~= batch@.subrange(0, e as int).map_values(|x: (Vec<u32>, String)| x.1@).push(batch@[e as int].1@));
                }
                e += 1;
            }
            proof {
                let sub = input@.subrange(0, b + 1);
                assert(sub.drop_last() =~= input@.subrange(0, b as int));
                assert(batch@.subrange(0, batch@.len() as int) =~= batch@);
            }
            b += 1;
        }
        assert(input@.subrange(0, input@.len() as int) =~= input@);
        let ids = index_store.add_nodes(&vectors)?;
        let ghost added = index_store.nodes();
        proof {
            index_store.lemma_inv();
        }
        // Payloads, by the ids the vectors received.
        let n = ids.len();
        let mut i: usize = 0;
        while i < n
            invariant
                i <= n,
                n == ids@.len(),
                n == payloads@.len(),
                first >= 1,
                first + n <= u32::MAX + 1,
                ids@ == crate::storage::id_range(first, n as nat),
                data_store.entries() == with_payloads(entries0, first, payloads@.map_values(|p: String| p@).subrange(0, i as int)),
            decreases n - i,
        {
            let _ = data_store.add_data(ids[i], payloads[i].clone());
            proof {
                let ps = payloads@.map_values(|p: String| p@);
                assert(ids@[i as int] == (first + i) as u32);
                assert(ids@[i as int] == first + i);
                let sub = ps.subrange(0, i + 1);
                assert forall|k: u32| #[trigger] data_store.entries().contains_key(k) <==> with_payloads(entries0, first, sub).contains_key(k) by {}
                assert forall|k: u32| #[trigger] data_store.entries().contains_key(k) implies data_store.entries()[k] == with_payloads(entries0, first, sub)[k] by {
                    if k != first + i && first <= k < first + i {
                        assert(sub[k - first] == ps.subrange(0, i as int)[k - first]);
                    }
                }
                assert(data_store.entries() =~= with_payloads(entries0, first, sub));
            }
            i += 1;
        }
        assert(payloads@.map_values(|p: String| p@).subrange(0, n as int) =~= payloads@.map_values(|p: String| p@));
        // Random links among the new nodes.
        let cap = max_neighbour_count as usize;
        let mut adj: Vec<Vec<u32>> = Vec::new();
        let mut a: usize = 0;
        while a < n
            invariant
                a <= n,
                adj@.len() == a,
                forall|x: int| 0 <= x < a ==> (#[trigger] adj@[x])@.len() == 0,
            decreases n - a,
        {
            adj.push(Vec::new());
            a += 1;
        }
        assert(adj_sym(adj@, ids@)) by {
            assert forall|x: int, y: int| 0 <= x < adj@.len() && 0 <= y < adj@.len() implies !(#[trigger] adj@[x]@.contains(ids@[y])) by {
                assert(adj@[x]@.len() == 0);
            }
        }
        let ghost empty_lists = no_links(n as nat);
        assert forall|x: int| 0 <= x < n implies lists_of(adj@)[x] == empty_lists[x] by {
            assert(adj@[x]@.len() == 0);
            assert(adj@[x]@ =~= Seq::<u32>::empty());
        }
        assert(lists_of(adj@) =~= empty_lists);
        let ghost mut owners: Seq<int> = Seq::empty();
        let ghost mut draws: Seq<int> = Seq::empty();
        let mut i: usize = 0;
        while i < n
            invariant
                i <= n,
                n == ids@.len(),
                ids@ == crate::storage::id_range(first, n as nat),
                first >= 1,
                first + n <= u32::MAX + 1,
                adj@.len() == n,
                cap == max_neighbour_count,
                forall|x: int| 0 <= x < n ==> adj_ok(#[trigger] adj@[x]@, x, first, n as nat, cap as nat),
                adj_sym(adj@, ids@),
                owners == attempts(i as nat, r as nat),
                draws.len() == owners.len(),
                forall|a: int| 0 <= a < draws.len() ==> 0 <= #[trigger] draws[a] < n - 1 || n < 2,
                lists_of(adj@) == wire(empty_lists, ids@, cap as nat, owners, draws),
            decreases n - i,
        {
            let mut t: usize = 0;
            while t < r
                invariant
                    i < n,
                    n == ids@.len(),
                    ids@ == crate::storage::id_range(first, n as nat),
                    first >= 1,
                    first + n <= u32::MAX + 1,
                    adj@.len() == n,
                    cap == max_neighbour_count,
                    forall|x: int| 0 <= x < n ==> adj_ok(#[trigger] adj@[x]@, x, first, n as nat, cap as nat),
                    adj_sym(adj@, ids@),
                    t <= r,
                    owners == attempts(i as nat, r as nat) + Seq::new(t as nat, |u: int| i as int),
                    draws.len() == owners.len(),
                    forall|a: int| 0 <= a < draws.len() ==> 0 <= #[trigger] draws[a] < n - 1 || n < 2,
                    lists_of(adj@) == wire(empty_lists, ids@, cap as nat, owners, draws),
                decreases r - t,
            {
                let ghost lists0 = lists_of(adj@);
                let ghost mut drawn: int = 0;
                if adj[i].len() < cap && n >= 2 {
                    let j0 = random_below((n - 1) as u32) as usize;
                    proof {
                        drawn = j0 as int;
                    }
                    let j = if j0 >= i { j0 + 1 } else { j0 };
                    let id_i = ids[i];
                    let id_j = ids[j];
                    if adj[j].len() < cap && !contains_word(&adj[i], id_j) && !contains_word(&adj[j], id_i) {
                        let mut li = copy_words(&adj[i]);
                        li.push(id_j);
                        let mut lj = copy_words(&adj[j]);
                        lj.push(id_i);
                        proof {
                            lemma_push_contains(adj@[i as int]@, id_j);
                            lemma_push_contains(adj@[j as int]@, id_i);
                        }
                        let ghost adj0 = adj@;
                        adj.set(i, li);
                        adj.set(j, lj);
                        proof {
                            assert(ids@.no_duplicates());
                            lemma_link_pair(adj0, adj@, ids@, i as int, j as int);
                            assert(lists_of(adj@) =~= lists0.update(i as int, lists0[i as int].push(id_j)).update(j as int, lists0[j as int].push(id_i)));
                        }
                    }
                }
                proof {
                    let o2 = owners.push(i as int);
                    let d2 = draws.push(drawn);
                    assert(o2.drop_last() == owners);
                    assert(d2.drop_last() == draws);
                    assert(lists_of(adj@) == link_step(lists0, ids@, cap as nat, i as int, drawn));
                    assert(attempts(i as nat, r as nat) + Seq::new((t + 1) as nat, |u: int| i as int)
                        =~= (attempts(i as nat, r as nat) + Seq::new(t as nat, |u: int| i as int)).push(i as int));
                    owners = o2;
                    draws = d2;
                }
                t += 1;
            }
            proof {
                assert(attempts((i + 1) as nat, r as nat) == attempts(i as nat, r as nat) + Seq::new(r as nat, |u: int| i as int));
                assert(owners =~= attempts((i + 1) as nat, r as nat));
            }
            i += 1;
        }
        // Commit the links.
        proof {
            assert forall|x: int| 0 <= x < n implies (#[trigger] index_store.nodes()[ids@[x]]).connected == Set::<u32>::empty() by {
                assert(ids@[x] == first + x);
            }
        }
        let mut a: usize = 0;
        while a < n
            invariant
                a <= n,
                n == ids@.len(),
                ids@ == crate::storage::id_range(first, n as nat),
                first >= 1,
                first + n <= u32::MAX + 1,
                adj@.len() == n,
                cap == max_neighbour_count,
                forall|x: int| 0 <= x < n ==> adj_ok(#[trigger] adj@[x]@, x, first, n as nat, cap as nat),
                index_store.inv(),
                max_neighbour_count <= index_store.max_degree(),
                index_store.next_id() == first + n,
                added == with_batch(nodes0, first, batch_view(vectors@)),
                batch_view(vectors@).len() == n,
                same_vectors(added, index_store.nodes()),
                graph_ok(index_store.nodes(), cap as nat),
                adj_sym(adj@, ids@),
                forall|x: int| 0 <= x < n ==> (#[trigger] index_store.nodes()[ids@[x]]).connected == if x < a {
                    adj@[x]@.to_set()
                } else {
                    Set::<u32>::empty()
                },
                forall|k: u32| #[trigger] nodes0.contains_key(k) ==> index_store.nodes()[k] == nodes0[k] && k < first,
                draws.len() == attempts(n as nat, r as nat).len(),
                forall|b: int| 0 <= b < draws.len() ==> 0 <= #[trigger] draws[b] < n - 1 || n < 2,
                lists_of(adj@) == wire(empty_lists, ids@, cap as nat, attempts(n as nat, r as nat), draws),
                empty_lists == no_links(n as nat),
            decreases n - a,
        {
            let ghost before = index_store.nodes();
            let id = ids[a];
            proof {
                lemma_distinct_len(adj@[a as int]@);
                assert(before.contains_key(id));
                assert forall|y: u32| adj@[a as int]@.contains(y) implies before.contains_key(y) by {
                    assert(added.contains_key(y));
                }
                assert(!adj@[a as int]@.contains(0));
            }
            match index_store.set_connections(id, &adj[a]) {
                Ok(()) => {},
                Err(_) => {
                    assert(false);
                },
            }
            proof {
                lemma_rewire_same_vectors(before, id, adj@[a as int]@.to_set());
                lemma_same_vectors_trans(added, before, index_store.nodes());
                let after = index_store.nodes();
                assert forall|x: int| 0 <= x < n implies (#[trigger] after[ids@[x]]).connected == if x < a + 1 {
                    adj@[x]@.to_set()
                } else {
                    Set::<u32>::empty()
                } by {
                    if x != a {
                        assert(ids@[x] != id);
                    }
                }
                assert forall|k: u32| #[trigger] after.contains_key(k) implies {
                    &&& after[k].connected.len() <= cap as nat
                    &&& !after[k].connected.contains(k)
                    &&& forall|x: u32| after[k].connected.contains(x) ==> after.contains_key(x)
                } by {
                    if k == id {
                        assert forall|x: u32| after[k].connected.contains(x) implies after.contains_key(x) by {
                            assert(adj@[a as int]@.contains(x));
                            assert(added.contains_key(x));
                        }
                    }
                }
            }
            a += 1;
        }
        proof {
            assert(added == with_batch(nodes0, first, input_vectors(input@)));
            let m = index_store.nodes();
            let w = wire(empty_lists, ids@, cap as nat, attempts(n as nat, r as nat), draws);
            assert forall|x: int| 0 <= x < n implies #[trigger] m[id_range(first, n as nat)[x]].connected == w[x].to_set() by {
                assert(id_range(first, n as nat)[x] == ids@[x]);
                assert(lists_of(adj@)[x] == adj@[x]@);
            }
            assert forall|a: u32, b: u32| first <= a < first + n && first <= b < first + n implies (#[trigger] m[a].connected.contains(b)
                <==> m[b].connected.contains(a)) by {
                let x = a - first;
                let y = b - first;
                assert(ids@[x] == a && ids@[y] == b);
                assert(adj@[x]@.contains(ids@[y]) <==> adj@[y]@.contains(ids@[x]));
                assert(m[a].connected == adj@[x]@.to_set());
                assert(m[b].connected == adj@[y]@.to_set());
            }
            assert forall|a: u32, b: u32| first <= a < first + n && #[trigger] m[a].connected.contains(b) implies first <= b < first + n by {
                let x = a - first;
                assert(ids@[x] == a);
                assert(m[a].connected == adj@[x]@.to_set());
                assert(adj@[x]@.contains(b));
                assert(adj_ok(adj@[x]@, x, first, n as nat, cap as nat));
            }
        }
        Ok(Graph { index_store, data_store, max_neighbour_count: max_neighbour_count as usize, distance })
    }

    /// `greedy_search` from a randomly chosen stored node; both results are
    /// empty when the store is.
    pub fn greedy_search_random_start(
        &self,
        query_node: &Vec<u32>,
        k: usize,
        search_list_size: usize,
    ) -> (r: (Vec<u32>, Vec<u32>))
        requires
            self.wf(),
        ensures
            self.index_store.nodes().dom().is_empty() ==> r.0@.len() == 0 && r.1@.len() == 0,
            !self.index_store.nodes().dom().is_empty() ==> r.1@.len() >= 1 && (k >= 1
                && search_list_size >= 1 ==> r.0@.len() >= 1),
            r.0@.len() <= k,
            r.0@.no_duplicates(),
            ranked(self.distance, query_node@, self.index_store.nodes(), r.0@),
            r.1@.no_duplicates(),
            forall|i: int| 0 <= i < r.1@.len() ==> self.index_store.nodes().contains_key(#[trigger] r.1@[i]),
            forall|i: int| 0 <= i < r.0@.len() ==> r.1@.contains(#[trigger] r.0@[i]),
    {
        let ids = match self.index_store.get_all_node_indexes() {
            Ok(ids) => ids,
            Err(_) => {
                assert(false);
                Vec::new()
            },
        };
        if ids.len() == 0 {
            proof {
                assert(ids@.to_set() =~= Set::<u32>::empty());
                let e = Seq::<(i64, u32)>::empty();
                assert(entry_ids(e) =~= Seq::<u32>::empty());
                assert(ascending(e));
                assert(entries_measured(self.distance, query_node@, self.index_store.nodes(), e));
            }
            return (Vec::new(), Vec::new());
        }
        proof {
            self.index_store.lemma_inv();
            assert(ids@.to_set().contains(ids@[0]));
        }
        let pick = random_below(if ids.len() > u32::MAX as usize { u32::MAX } else { ids.len() as u32 }) as usize;
        let start = ids[pick];
        assert(ids@.to_set().contains(start));
        let r = self.greedy_search(start, query_node, k, search_list_size);
        proof {
            assert(r.1@.contains(start));
        }
        r
    }

    /// The stored node with this id.
    fn fetch(&self, id: u32) -> (n: Node)
        requires
            self.index_store.inv(),
            self.index_store.nodes().contains_key(id),
        ensures
            n@ == self.index_store.nodes()[id],
            n.connected@.no_duplicates(),
    {
        proof {
            self.index_store.lemma_inv();
        }
        match self.index_store.get_node(id) {
            Ok(n) => n,
            Err(_) => {
                assert(false);
                Node { id, vector: Vec::new(), connected: Vec::new() }
            },
        }
    }

    /// The distance between a query and a vector.
    fn measure(&self, q: &Vec<u32>, v: &Vec<u32>) -> (d: i64)
        requires
            forall|a: &Vec<u32>, b: &Vec<u32>| #[trigger] call_requires(self.distance, (a, b)),
        ensures
            dist_is(self.distance, q@, v@, d),
    {
        let d = (self.distance)(q, v);
        assert(call_ensures(self.distance, (q, v), d));
        d
    }

    /// Best-first walk from `start_node_index` towards `query_node`.
    ///
    /// Returns the ids of at most `k` stored nodes, nearest first (ties by
    /// id), out of a frontier capped at `search_list_size`, and every id
    /// whose neighbours were expanded.
    pub fn greedy_search(
        &self,
        start_node_index: u32,
        query_node: &Vec<u32>,
        k: usize,
        search_list_size: usize,
    ) -> (r: (Vec<u32>, Vec<u32>))
        requires
            self.wf(),
            self.index_store.nodes().contains_key(start_node_index),
        ensures
            r.0@.len() <= k,
            k >= 1 && search_list_size >= 1 ==> r.0@.len() >= 1,
            r.0@.no_duplicates(),
            ranked(self.distance, query_node@, self.index_store.nodes(), r.0@),
            r.1@.no_duplicates(),
            r.1@.contains(start_node_index),
            forall|i: int| 0 <= i < r.1@.len() ==> self.index_store.nodes().contains_key(#[trigger] r.1@[i]),
            forall|i: int| 0 <= i < r.0@.len() ==> r.1@.contains(#[trigger] r.0@[i]),
            search_outcome(
                self.distance,
                query_node@,
                self.index_store.nodes(),
                k as nat,
                search_list_size as nat,
                r.0@,
                r.1@,
            ),
    {
        let ghost nodes = self.index_store.nodes();
        proof {
            self.index_store.lemma_inv();
        }
        let start = self.fetch(start_node_index);
        let d0 = self.measure(query_node, &start.vector);
        let mut frontier: Vec<(i64, u32)> = Vec::new();
        frontier.push((d0, start_node_index));
        let mut visited: Vec<u32> = Vec::new();
        proof {
            assert(entries_measured(self.distance, query_node@, nodes, frontier@));
        }
        loop
            invariant
                self.wf(),
                nodes == self.index_store.nodes(),
                nodes.dom().finite(),
                nodes.contains_key(start_node_index),
                ascending(frontier@),
                entry_ids(frontier@).no_duplicates(),
                entries_measured(self.distance, query_node@, nodes, frontier@),
                search_list_size >= 1 ==> frontier@.len() >= 1,
                visited@.len() > 0 ==> frontier@.len() <= search_list_size,
                visited@.no_duplicates(),
                forall|i: int| 0 <= i < visited@.len() ==> nodes.contains_key(#[trigger] visited@[i]),
                visited@.contains(start_node_index) || (visited@.len() == 0 && frontier@.len() == 1
                    && frontier@[0].1 == start_node_index),
                walk_covered(self.distance, query_node@, nodes, search_list_size as nat, frontier@, visited@),
            ensures
                walk_covered(self.distance, query_node@, nodes, search_list_size as nat, frontier@, visited@),
                visited@.contains(start_node_index),
                forall|j: int| 0 <= j < frontier@.len() ==> visited@.contains(#[trigger] frontier@[j].1),
                ascending(frontier@),
                entry_ids(frontier@).no_duplicates(),
                entries_measured(self.distance, query_node@, nodes, frontier@),
                search_list_size >= 1 ==> frontier@.len() >= 1,
                frontier@.len() <= search_list_size,
                visited@.no_duplicates(),
                forall|i: int| 0 <= i < visited@.len() ==> nodes.contains_key(#[trigger] visited@[i]),
            decreases nodes.dom().len() - visited@.len(),
        {
            proof {
                assert(visited@.to_set().subset_of(nodes.dom()));
                lemma_distinct_len(visited@);
                vstd::set_lib::lemma_len_subset(visited@.to_set(), nodes.dom());
            }
            let mut idx: usize = 0;
            while idx < frontier.len() && contains_word(&visited, frontier[idx].1)
                invariant
                    idx <= frontier@.len(),
                    forall|j: int| 0 <= j < idx ==> visited@.contains(#[trigger] frontier@[j].1),
                decreases frontier.len() - idx,
            {
                idx += 1;
            }
            if idx == frontier.len() {
                proof {
                    if visited@.len() == 0 {
                        assert(visited@.contains(frontier@[0].1));
                    }
                }
                break;
            }
            let c = frontier[idx].1;
            assert(nodes.contains_key(frontier@[idx as int].1));
            let ghost old_visited = visited@;
            visited.push(c);
            proof {
                assert(visited@.to_set().subset_of(nodes.dom()));
                lemma_distinct_len(visited@);
                vstd::set_lib::lemma_len_subset(visited@.to_set(), nodes.dom());
                assert(visited@.contains(start_node_index)) by {
                    if old_visited.contains(start_node_index) {
                        let i = choose|i: int| 0 <= i < old_visited.len() && old_visited[i] == start_node_index;
                        assert(visited@[i] == start_node_index);
                    } else {
                        assert(visited@[0] == start_node_index);
                    }
                }
            }
            proof {
                assert(visited@.drop_last() =~= old_visited);
                assert(entry_ids(frontier@)[idx as int] == c);
            }
            let node = self.fetch(c);
            let mut j: usize = 0;
            while j < node.connected.len()
                invariant
                    self.wf(),
                    nodes == self.index_store.nodes(),
                    nodes.contains_key(c),
                    node@ == nodes[c],
                    j <= node.connected@.len(),
                    ascending(frontier@),
                    entry_ids(frontier@).no_duplicates(),
                    entries_measured(self.distance, query_node@, nodes, frontier@),
                    frontier@.len() >= 1,
                    visited@.len() >= 1,
                    visited@[visited@.len() - 1] == c,
                    walk_covered(self.distance, query_node@, nodes, search_list_size as nat, frontier@, visited@.drop_last()),
                    covered(self.distance, query_node@, nodes, search_list_size as nat, frontier@, c),
                    forall|jj: int| 0 <= jj < j ==> covered(self.distance, query_node@, nodes, search_list_size as nat, frontier@, #[trigger] node.connected@[jj]),
                decreases node.connected.len() - j,
            {
                let nb = node.connected[j];
                let ghost fr_before = frontier@;
                let seen = contains_word(&visited, nb);
                let present = has_entry(&frontier, nb);
                proof {
                    if seen {
                        let a = choose|a: int| 0 <= a < visited@.len() && visited@[a] == nb;
                        if a < visited@.len() - 1 {
                            assert(visited@.drop_last()[a] == nb);
                        }
                    }
                }
                if !seen && !present {
                    assert(node@.connected.contains(nb));
                    let nbn = self.fetch(nb);
                    let d = self.measure(query_node, &nbn.vector);
                    let ghost before = frontier@;
                    insert_entry(&mut frontier, (d, nb));
                    proof {
                        let p = choose|p: int| 0 <= p <= before.len() && frontier@ == before.insert(p, (d, nb));
                        assert(entry_ids(frontier@) =~= entry_ids(before).insert(p, nb));
                        assert forall|a: int, b: int| 0 <= a < entry_ids(frontier@).len() && 0 <= b < entry_ids(frontier@).len() && a != b implies entry_ids(frontier@)[a] != entry_ids(frontier@)[b] by {
                            let a0 = if a < p { a } else { a - 1 };
                            let b0 = if b < p { b } else { b - 1 };
                            if a != p && b != p {
                                assert(entry_ids(before)[a0] != entry_ids(before)[b0]);
                            } else if a == p {
                                assert(entry_ids(before)[b0] != nb);
                            } else {
                                assert(entry_ids(before)[a0] != nb);
                            }
                        }
                        assert forall|i: int| 0 <= i < frontier@.len() implies nodes.contains_key(#[trigger] frontier@[i].1) && dist_is(
                            self.distance,
                            query_node@,
                            nodes[frontier@[i].1].vector,
                            frontier@[i].0,
                        ) by {
                            if i < p {
                                assert(frontier@[i] == before[i]);
                            } else if i > p {
                                assert(frontier@[i] == before[i - 1]);
                            }
                        }
                        lemma_covered_insert(self.distance, query_node@, nodes, search_list_size as nat, before, frontier@, p, (d, nb));
                        assert(entry_ids(frontier@)[p] == nb);
                    }
                }
                proof {
                    let l = search_list_size as nat;
                    assert forall|jj: int| 0 <= jj < j + 1 implies covered(self.distance, query_node@, nodes, l, frontier@, #[trigger] node.connected@[jj]) by {
                        if jj < j {
                            assert(covered(self.distance, query_node@, nodes, l, fr_before, node.connected@[jj]));
                        }
                    }
                    assert forall|i: int| 0 <= i < visited@.drop_last().len() implies covered(self.distance, query_node@, nodes, l, frontier@, #[trigger] visited@.drop_last()[i])
                        && forall|y: u32| nodes[visited@.drop_last()[i]].connected.contains(y) ==> covered(self.distance, query_node@, nodes, l, frontier@, y) by {
                        assert(covered(self.distance, query_node@, nodes, l, fr_before, visited@.drop_last()[i]));
                    }
                }
                j += 1;
            }
            let ghost before = frontier@;
            proof {
                let l = search_list_size as nat;
                assert forall|i: int| 0 <= i < visited@.len() implies covered(self.distance, query_node@, nodes, l, before, #[trigger] visited@[i])
                    && forall|y: u32| nodes[visited@[i]].connected.contains(y) ==> covered(self.distance, query_node@, nodes, l, before, y) by {
                    if i < visited@.len() - 1 {
                        assert(visited@.drop_last()[i] == visited@[i]);
                    } else {
                        assert forall|y: u32| nodes[visited@[i]].connected.contains(y) implies covered(self.distance, query_node@, nodes, l, before, y) by {
                            assert(node@.connected.contains(y));
                            let jj = choose|jj: int| 0 <= jj < node.connected@.len() && node.connected@[jj] == y;
                            assert(covered(self.distance, query_node@, nodes, l, before, node.connected@[jj]));
                        }
                    }
                }
            }
            frontier.truncate(search_list_size);
            proof {
                lemma_covered_truncate(self.distance, query_node@, nodes, search_list_size as nat, before, frontier@);
                assert(frontier@.len() <= before.len());
                assert forall|a: int| 0 <= a < frontier@.len() implies frontier@[a] == before[a] by {}
                assert forall|a: int, b: int| 0 <= a < entry_ids(frontier@).len() && 0 <= b < entry_ids(frontier@).len() && a != b implies entry_ids(frontier@)[a] != entry_ids(frontier@)[b] by {
                    assert(entry_ids(frontier@)[a] == entry_ids(before)[a]);
                    assert(entry_ids(frontier@)[b] == entry_ids(before)[b]);
                }
                assert forall|i: int| 0 <= i < frontier@.len() implies nodes.contains_key(#[trigger] frontier@[i].1) && dist_is(
                    self.distance,
                    query_node@,
                    nodes[frontier@[i].1].vector,
                    frontier@[i].0,
                ) by {
                    assert(frontier@[i] == before[i]);
                }
            }
        }
        let n: usize = if k < frontier.len() { k } else { frontier.len() };
        let mut ids: Vec<u32> = Vec::new();
        let mut i: usize = 0;
        while i < n
            invariant
                i <= n,
                n <= frontier@.len(),
                ids@ == entry_ids(frontier@.subrange(0, i as int)),
            decreases n - i,
        {
            ids.push(frontier[i].1);
            assert(entry_ids(frontier@.subrange(0, i + 1)) =~= entry_ids(frontier@.subrange(0, i as int)).push(frontier@[i as int].1));
            i += 1;
        }
        proof {
            let top = frontier@.subrange(0, n as int);
            assert(ascending(top));
            assert(entries_measured(self.distance, query_node@, nodes, top)) by {
                assert forall|i: int| 0 <= i < top.len() implies nodes.contains_key(#[trigger] top[i].1) && dist_is(
                    self.distance,
                    query_node@,
                    nodes[top[i].1].vector,
                    top[i].0,
                ) by {
                    assert(top[i] == frontier@[i]);
                }
            }
            assert(ranked(self.distance, query_node@, nodes, ids@));
            assert(frontier_done(self.distance, query_node@, nodes, search_list_size as nat, frontier@, visited@));
            assert(ids@ =~= entry_ids(frontier@).take(n as int));
            assert forall|i: int| 0 <= i < ids@.len() implies visited@.contains(#[trigger] ids@[i]) by {
                assert(ids@[i] == entry_ids(frontier@.subrange(0, n as int))[i]);
                assert(ids@[i] == frontier@[i].1);
            }
            assert(ids@.no_duplicates()) by {
                assert forall|a: int, b: int| 0 <= a < b < ids@.len() implies ids@[a] != ids@[b] by {
                    assert(ids@[a] == entry_ids(frontier@)[a]);
                    assert(ids@[b] == entry_ids(frontier@)[b]);
                }
            }
        }
        (ids, visited)
    }

    /// Whether `alpha · d_xy <= d_py`, computed without overflow.
    fn occluded(alpha: Alpha, d_xy: i64, d_py: i64) -> (r: bool)
        ensures
            r == occludes(alpha, d_xy, d_py),
    {
        assert(-0x8000_0000_0000_0000 * 0x1_0000_0000 <= d_xy * alpha.num <= 0x7fff_ffff_ffff_ffff * 0x1_0000_0000) by (nonlinear_arith)
            requires
                -0x8000_0000_0000_0000 <= d_xy <= 0x7fff_ffff_ffff_ffff,
                0 <= alpha.num <= 0xffff_ffff,
        ;
        assert(-0x8000_0000_0000_0000 * 0x1_0000_0000 <= d_py * alpha.den <= 0x7fff_ffff_ffff_ffff * 0x1_0000_0000) by (nonlinear_arith)
            requires
                -0x8000_0000_0000_0000 <= d_py <= 0x7fff_ffff_ffff_ffff,
                0 <= alpha.den <= 0xffff_ffff,
        ;
        (d_xy as i128) * (alpha.num as i128) <= (d_py as i128) * (alpha.den as i128)
    }

    /// RobustPrune: replaces the neighbours of `p_index` by at most
    /// `degree_bound` ids out of `visited` and its current neighbours (never
    /// itself), nearest first, dropping every candidate that a kept one
    /// occludes under `alpha`.
    pub fn robust_prune(
        &mut self,
        p_index: u32,
        visited: &Vec<u32>,
        alpha: Alpha,
        degree_bound: usize,
    ) -> (r: Node)
        requires
            old(self).wf(),
            old(self).index_store.nodes().contains_key(p_index),
            forall|i: int|
                0 <= i < visited@.len() ==> old(self).index_store.nodes().contains_key(
                    #[trigger] visited@[i],
                ),
            degree_bound <= old(self).max_neighbour_count,
        ensures
            final(self).wf(),
            final(self).max_neighbour_count == old(self).max_neighbour_count,
            final(self).data_store == old(self).data_store,
            final(self).index_store.next_id() == old(self).index_store.next_id(),
            final(self).index_store.max_degree() == old(self).index_store.max_degree(),
            final(self).index_store.nodes() == old(self).index_store.nodes().insert(
                p_index,
                old(self).index_store.nodes()[p_index].with_connected(r@.connected),
            ),
            r@ == final(self).index_store.nodes()[p_index],
            r.connected@.no_duplicates(),
            r.connected@.len() <= degree_bound,
            r@.connected.subset_of(
                visited@.to_set().union(old(self).index_store.nodes()[p_index].connected).remove(
                    p_index,
                ),
            ),
            degree_bound >= 1 && !visited@.to_set().union(
                old(self).index_store.nodes()[p_index].connected,
            ).remove(p_index).is_empty() ==> r.connected@.len() >= 1,
            final(self).distance == old(self).distance,
            pruned_well(
                old(self).distance,
                alpha,
                old(self).index_store.nodes()[p_index].vector,
                vectors_of(old(self).index_store.nodes()),
                visited@.to_set().union(old(self).index_store.nodes()[p_index].connected).remove(
                    p_index,
                ),
                r.connected@,
                degree_bound as nat,
            ),
    {
        let ghost nodes = self.index_store.nodes();
        proof {
            self.index_store.lemma_inv();
        }
        let p_node = self.fetch(p_index);
        let ghost pool = visited@.to_set().union(nodes[p_index].connected).remove(p_index);
        // The working set: visited and current neighbours, without p.
        let mut cands: Vec<u32> = Vec::new();
        let mut i: usize = 0;
        while i < visited.len()
            invariant
                i <= visited@.len(),
                cands@.no_duplicates(),
                forall|x: u32| #[trigger] cands@.contains(x) <==> x != p_index && visited@.subrange(0, i as int).contains(x),
            decreases visited.len() - i,
        {
            let v = visited[i];
            let ghost cands_before = cands@;
            if v != p_index && !contains_word(&cands, v) {
                cands.push(v);
            }
            proof {
                assert(visited@.subrange(0, i + 1) =~= visited@.subrange(0, i as int).push(v));
                lemma_push_contains(visited@.subrange(0, i as int), v);
                lemma_push_contains(cands_before, v);
            }
            i += 1;
        }
        assert(visited@.subrange(0, visited@.len() as int) =~= visited@);
        assert(p_node.connected@.subrange(0, 0) =~= Seq::<u32>::empty());
        let mut i: usize = 0;
        while i < p_node.connected.len()
            invariant
                i <= p_node.connected@.len(),
                cands@.no_duplicates(),
                forall|x: u32| #[trigger] cands@.contains(x) <==> x != p_index && (visited@.contains(x)
                    || p_node.connected@.subrange(0, i as int).contains(x)),
            decreases p_node.connected.len() - i,
        {
            let v = p_node.connected[i];
            let ghost cands_before = cands@;
            if v != p_index && !contains_word(&cands, v) {
                cands.push(v);
            }
            proof {
                let pc = p_node.connected@;
                assert(pc.subrange(0, i + 1) =~= pc.subrange(0, i as int).push(v));
                lemma_push_contains(pc.subrange(0, i as int), v);
                lemma_push_contains(cands_before, v);
            }
            i += 1;
        }
        proof {
            assert(visited@.subrange(0, visited@.len() as int) =~= visited@);
            assert(p_node.connected@.subrange(0, p_node.connected@.len() as int) =~= p_node.connected@);
            assert(cands@.to_set() =~= pool);
        }
        // Candidates with their distance to p.
        let mut heap: Vec<(i64, u32)> = Vec::new();
        let mut i: usize = 0;
        while i < cands.len()
            invariant
                self.wf(),
                nodes == self.index_store.nodes(),
                i <= cands@.len(),
                cands@.no_duplicates(),
                cands@.to_set() == pool,
                pool.subset_of(nodes.dom()),
                entry_ids(heap@) == cands@.subrange(0, i as int),
                forall|a: int| 0 <= a < heap@.len() ==> nodes.contains_key((#[trigger] heap@[a]).1)
                    && dist_is(self.distance, p_node.vector@, nodes[heap@[a].1].vector, heap@[a].0),
            decreases cands.len() - i,
        {
            let x = cands[i];
            assert(pool.contains(x));
            let xn = self.fetch(x);
            let d = self.measure(&p_node.vector, &xn.vector);
            let ghost heap_before = heap@;
            heap.push((d, x));
            assert(heap@[heap@.len() - 1] == (d, x));
            assert(forall|a: int| 0 <= a < heap_before.len() ==> heap@[a] == heap_before[a]);
            assert(entry_ids(heap@) =~= entry_ids(heap_before).push(x));
            assert(entry_ids(heap@) =~= cands@.subrange(0, i + 1));
            i += 1;
        }
        assert(cands@.subrange(0, cands@.len() as int) =~= cands@);
        let ghost f = self.distance;
        let ghost pv = p_node.vector@;
        let ghost vecs = vectors_of(nodes);
        let mut chosen: Vec<u32> = Vec::new();
        let ghost mut ds: Seq<i64> = Seq::empty();
        proof {
            assert forall|a: int| 0 <= a < heap@.len() implies #[trigger] heap_entry_ok(
                f, alpha, pv, vecs, chosen@, ds, degree_bound as nat, heap@[a],
            ) by {
                assert(entry_ids(heap@)[a] == heap@[a].1);
            }
            assert forall|y: u32| pool.contains(y) implies chosen@.contains(y) || entry_ids(heap@).contains(y)
                || occluded_before(f, alpha, pv, vecs, chosen@, ds, y) by {
                assert(cands@.to_set().contains(y));
                let a = choose|a: int| 0 <= a < cands@.len() && cands@[a] == y;
                assert(entry_ids(heap@)[a] == y);
            }
        }
        while heap.len() > 0 && chosen.len() < degree_bound
            invariant
                self.wf(),
                nodes == self.index_store.nodes(),
                f == self.distance,
                vecs == vectors_of(nodes),
                nodes.contains_key(p_index),
                pv == nodes[p_index].vector,
                pv == p_node.vector@,
                pool.subset_of(nodes.dom()),
                chosen@.no_duplicates(),
                chosen@.len() <= degree_bound,
                entry_ids(heap@).no_duplicates(),
                chosen@.to_set().subset_of(pool),
                entry_ids(heap@).to_set().subset_of(pool),
                forall|x: u32| chosen@.contains(x) ==> !entry_ids(heap@).contains(x),
                !pool.is_empty() && degree_bound >= 1 ==> chosen@.len() >= 1 || heap@.len() >= 1,
                chosen_in_order(f, alpha, pv, vecs, chosen@, ds),
                forall|a: int| 0 <= a < heap@.len() ==> #[trigger] heap_entry_ok(
                    f, alpha, pv, vecs, chosen@, ds, degree_bound as nat, heap@[a],
                ),
                forall|y: u32| pool.contains(y) ==> chosen@.contains(y) || entry_ids(heap@).contains(y)
                    || occluded_before(f, alpha, pv, vecs, chosen@, ds, y),
            decreases heap@.len(),
        {
            // The nearest remaining candidate.
            let mut best: usize = 0;
            let mut j: usize = 1;
            while j < heap.len()
                invariant
                    0 <= best < heap@.len(),
                    1 <= j <= heap@.len(),
                    entry_ids(heap@).no_duplicates(),
                    forall|b: int| 0 <= b < j && b != best ==> entry_before(heap@[best as int], #[trigger] heap@[b]),
                decreases heap.len() - j,
            {
                proof {
                    assert(entry_ids(heap@)[j as int] == heap@[j as int].1);
                    assert(entry_ids(heap@)[best as int] == heap@[best as int].1);
                }
                if entry_lt(heap[j], heap[best]) {
                    best = j;
                }
                j += 1;
            }
            let ghost before = heap@;
            let ghost chosen_before = chosen@;
            let ghost ds_before = ds;
            let (dx, x) = heap.remove(best);
            proof {
                assert(entry_ids(before)[best as int] == x);
                assert(entry_ids(heap@) =~= entry_ids(before).remove(best as int));
                assert(entry_ids(before).to_set().contains(x));
                assert(heap_entry_ok(f, alpha, pv, vecs, chosen_before, ds_before, degree_bound as nat, before[best as int]));
            }
            assert(entry_ids(before).contains(x)) by {
                assert(entry_ids(before)[best as int] == x);
            }
            assert(!chosen_before.contains(x));
            chosen.push(x);
            proof {
                ds = ds_before.push(dx);
                lemma_push_to_set(chosen_before, x);
                lemma_push_contains(chosen_before, x);
                assert forall|a: int, b: int| 0 <= a < entry_ids(heap@).len() && 0 <= b < entry_ids(heap@).len() && a != b implies entry_ids(heap@)[a] != entry_ids(heap@)[b] by {
                    let a0 = if a < best { a } else { a + 1 };
                    let b0 = if b < best { b } else { b + 1 };
                    assert(entry_ids(before)[a0] != entry_ids(before)[b0]);
                }
                assert forall|y: u32| entry_ids(heap@).contains(y) implies entry_ids(before).contains(y) && y != x by {
                    let a = choose|a: int| 0 <= a < entry_ids(heap@).len() && entry_ids(heap@)[a] == y;
                    let a0 = if a < best { a } else { a + 1 };
                    assert(entry_ids(before)[a0] == y);
                }
                assert(entry_ids(heap@).to_set().subset_of(pool));
                assert forall|y: u32| chosen@.contains(y) implies !entry_ids(heap@).contains(y) by {
                    if entry_ids(heap@).contains(y) {
                        assert(entry_ids(before).contains(y) && y != x);
                    }
                }
                lemma_chosen_push(f, alpha, pv, vecs, chosen_before, ds_before, degree_bound as nat, (dx, x));
                // What stays in the heap comes after x, and keeps what it had.
                assert forall|a: int| 0 <= a < heap@.len() implies entry_before((dx, x), #[trigger] heap@[a])
                    && heap_entry_ok(f, alpha, pv, vecs, chosen_before, ds_before, degree_bound as nat, heap@[a]) by {
                    let a0 = if a < best { a } else { a + 1 };
                    assert(heap@[a] == before[a0]);
                    assert(a0 != best);
                }
                assert forall|y: u32| pool.contains(y) implies chosen@.contains(y) || entry_ids(heap@).contains(y)
                    || occluded_before(f, alpha, pv, vecs, chosen_before, ds_before, y) by {
                    if entry_ids(before).contains(y) && y != x {
                        let a = choose|a: int| 0 <= a < entry_ids(before).len() && entry_ids(before)[a] == y;
                        assert(a != best);
                        let a1 = if a < best { a } else { a - 1 };
                        assert(entry_ids(heap@)[a1] == y);
                    }
                }
                lemma_occluded_grow(f, alpha, pv, vecs, chosen_before, ds_before, x, dx);
            }
            proof {
                assert(chosen@.drop_last() =~= chosen_before);
                assert(ds.drop_last() =~= ds_before);
            }
            if chosen.len() < degree_bound {
                let xn = self.fetch(x);
                let mut kept: Vec<(i64, u32)> = Vec::new();
                let mut j: usize = 0;
                while j < heap.len()
                    invariant
                        self.wf(),
                        nodes == self.index_store.nodes(),
                        f == self.distance,
                        pool.subset_of(nodes.dom()),
                        nodes.contains_key(x),
                        xn@ == nodes[x],
                        chosen@.len() >= 1,
                        chosen@[chosen@.len() - 1] == x,
                        j <= heap@.len(),
                        entry_ids(heap@).no_duplicates(),
                        entry_ids(heap@).to_set().subset_of(pool),
                        entry_ids(kept@).no_duplicates(),
                        forall|y: u32| #[trigger] entry_ids(kept@).contains(y) ==> entry_ids(heap@.subrange(0, j as int)).contains(y),
                        forall|a: int| 0 <= a < kept@.len() ==> exists|b: int| 0 <= b < j && #[trigger] kept@[a] == heap@[b],
                        forall|a: int| 0 <= a < kept@.len() ==> spared(f, alpha, vecs[x], vecs[(#[trigger] kept@[a]).1], kept@[a].0),
                        forall|b: int| 0 <= b < j ==> entry_ids(kept@).contains((#[trigger] heap@[b]).1)
                            || occluded_before(f, alpha, pv, vecs, chosen@, ds, heap@[b].1),
                        forall|a: int| 0 <= a < heap@.len() ==> #[trigger] heap_entry_ok(
                            f, alpha, pv, vecs, chosen@.drop_last(), ds.drop_last(), degree_bound as nat, heap@[a],
                        ),
                        forall|a: int| 0 <= a < heap@.len() ==> entry_before((dx, x), #[trigger] heap@[a]),
                        chosen@.len() < degree_bound,
                        ds.len() == chosen@.len(),
                        ds[ds.len() - 1] == dx,
                        vecs == vectors_of(nodes),
                        nodes.contains_key(p_index),
                        pv == nodes[p_index].vector,
                    decreases heap.len() - j,
                {
                    let (dp, y) = heap[j];
                    assert(entry_ids(heap@)[j as int] == y);
                    assert(pool.contains(y));
                    let yn = self.fetch(y);
                    let dxy = self.measure(&xn.vector, &yn.vector);
                    let ghost kept_before = kept@;
                    proof {
                        assert(heap_entry_ok(f, alpha, pv, vecs, chosen@.drop_last(), ds.drop_last(), degree_bound as nat, heap@[j as int]));
                    }
                    if !Self::occluded(alpha, dxy, dp) {
                        kept.push((dp, y));
                        proof {
                            assert(entry_ids(kept@) =~= entry_ids(kept_before).push(y));
                            assert(!entry_ids(kept_before).contains(y)) by {
                                if entry_ids(kept_before).contains(y) {
                                    assert(entry_ids(heap@.subrange(0, j as int)).contains(y));
                                    let a = choose|a: int| 0 <= a < j && entry_ids(heap@.subrange(0, j as int))[a] == y;
                                    assert(entry_ids(heap@)[a] == y);
                                }
                            }
                            assert forall|a: int| 0 <= a < kept@.len() implies exists|b: int| 0 <= b < j + 1 && #[trigger] kept@[a] == heap@[b] by {
                                if a < kept_before.len() {
                                    assert(kept@[a] == kept_before[a]);
                                } else {
                                    assert(kept@[a] == heap@[j as int]);
                                }
                            }
                            assert forall|a: int| 0 <= a < kept@.len() implies spared(f, alpha, vecs[x], vecs[(#[trigger] kept@[a]).1], kept@[a].0) by {
                                if a < kept_before.len() {
                                    assert(kept@[a] == kept_before[a]);
                                }
                            }
                        }
                    } else {
                        proof {
                            let i = chosen@.len() - 1;
                            assert(dist_is(f, pv, vecs[y], dp));
                            assert(vecs[chosen@[i]] == xn.vector@);
                            assert(dist_is(f, vecs[chosen@[i]], vecs[y], dxy));
                            assert(entry_before((ds[i], chosen@[i]), (dp, y)));
                            assert(occluded_before(f, alpha, pv, vecs, chosen@, ds, y));
                        }
                    }
                    proof {
                        assert forall|z: u32| #[trigger] entry_ids(kept@).contains(z) implies entry_ids(heap@.subrange(0, j + 1)).contains(z) by {
                            if z == y {
                                assert(entry_ids(heap@.subrange(0, j + 1))[j as int] == z);
                            } else {
                                assert(entry_ids(kept_before).contains(z)) by {
                                    let a = choose|a: int| 0 <= a < entry_ids(kept@).len() && entry_ids(kept@)[a] == z;
                                    assert(entry_ids(kept_before)[a] == z);
                                }
                                let a = choose|a: int| 0 <= a < j && entry_ids(heap@.subrange(0, j as int))[a] == z;
                                assert(entry_ids(heap@.subrange(0, j + 1))[a] == z);
                            }
                        }
                        assert forall|b: int| 0 <= b < j + 1 implies entry_ids(kept@).contains((#[trigger] heap@[b]).1)
                            || occluded_before(f, alpha, pv, vecs, chosen@, ds, heap@[b].1) by {
                            if b < j && entry_ids(kept_before).contains(heap@[b].1) {
                                let a = choose|a: int| 0 <= a < entry_ids(kept_before).len() && entry_ids(kept_before)[a] == heap@[b].1;
                                assert(entry_ids(kept@)[a] == heap@[b].1);
                            }
                            if b == j && entry_ids(kept@).len() > kept_before.len() {
                                assert(entry_ids(kept@)[kept_before.len() as int] == y);
                            }
                        }
                    }
                    j += 1;
                }
                proof {
                    assert(heap@.subrange(0, heap@.len() as int) =~= heap@);
                    assert forall|y: u32| #[trigger] entry_ids(kept@).contains(y) implies entry_ids(heap@).contains(y) by {}
                    assert(kept@.len() <= heap@.len()) by {
                        lemma_distinct_len(entry_ids(kept@));
                        lemma_distinct_len(entry_ids(heap@));
                        assert(entry_ids(kept@).to_set().subset_of(entry_ids(heap@).to_set()));
                        vstd::set_lib::lemma_len_subset(entry_ids(kept@).to_set(), entry_ids(heap@).to_set());
                    }
                }
                let ghost heap_before = heap@;
                heap = kept;
                proof {
                    assert forall|y: u32| chosen@.contains(y) implies !entry_ids(heap@).contains(y) by {
                        if entry_ids(heap@).contains(y) {
                            assert(entry_ids(heap_before).contains(y));
                        }
                    }
                    assert(entry_ids(heap@).to_set().subset_of(pool)) by {
                        assert forall|y: u32| entry_ids(heap@).to_set().contains(y) implies pool.contains(y) by {
                            assert(entry_ids(heap@).contains(y));
                            assert(entry_ids(heap_before).contains(y));
                            assert(entry_ids(heap_before).to_set().contains(y));
                        }
                    }
                    assert forall|a: int| 0 <= a < heap@.len() implies #[trigger] heap_entry_ok(
                        f, alpha, pv, vecs, chosen@, ds, degree_bound as nat, heap@[a],
                    ) by {
                        let b = choose|b: int| 0 <= b < heap_before.len() && #[trigger] heap@[a] == heap_before[b];
                        assert(heap_entry_ok(f, alpha, pv, vecs, chosen@.drop_last(), ds.drop_last(), degree_bound as nat, heap_before[b]));
                        assert(entry_before((dx, x), heap_before[b]));
                        lemma_entry_extend(f, alpha, pv, vecs, chosen@.drop_last(), ds.drop_last(), degree_bound as nat, (dx, x), heap@[a]);
                        assert(chosen@.drop_last().push(x) =~= chosen@);
                        assert(ds.drop_last().push(dx) =~= ds);
                    }
                    assert forall|y: u32| pool.contains(y) implies chosen@.contains(y) || entry_ids(heap@).contains(y)
                        || occluded_before(f, alpha, pv, vecs, chosen@, ds, y) by {
                        if entry_ids(heap_before).contains(y) {
                            let b = choose|b: int| 0 <= b < entry_ids(heap_before).len() && entry_ids(heap_before)[b] == y;
                            assert(heap_before[b].1 == y);
                        }
                    }
                }
            } else {
                proof {
                    assert forall|a: int| 0 <= a < heap@.len() implies #[trigger] heap_entry_ok(
                        f, alpha, pv, vecs, chosen@, ds, degree_bound as nat, heap@[a],
                    ) by {
                        lemma_entry_extend_full(f, alpha, pv, vecs, chosen_before, ds_before, degree_bound as nat, (dx, x), heap@[a]);
                        assert(chosen_before.push(x) =~= chosen@);
                    }
                }
            }
        }
        proof {
            assert forall|y: u32| pool.contains(y) && !chosen@.contains(y) implies occluded_before(
                f, alpha, pv, vecs, chosen@, ds, y,
            ) || beyond_cap(f, pv, vecs, chosen@, ds, degree_bound as nat, y) by {
                if entry_ids(heap@).contains(y) {
                    let a = choose|a: int| 0 <= a < entry_ids(heap@).len() && entry_ids(heap@)[a] == y;
                    assert(heap@[a].1 == y);
                    assert(heap_entry_ok(f, alpha, pv, vecs, chosen@, ds, degree_bound as nat, heap@[a]));
                    assert(chosen@.len() == degree_bound);
                    if chosen@.len() > 0 {
                        assert(dist_is(f, pv, vecs[y], heap@[a].0));
                        assert(entry_before((ds[chosen@.len() - 1], chosen@[chosen@.len() - 1]), (heap@[a].0, y)));
                    }
                }
            }
            assert(pruned_well(f, alpha, pv, vecs, pool, chosen@, degree_bound as nat));
        }
        proof {
            lemma_distinct_len(chosen@);
            self.index_store.lemma_inv();
            assert forall|x: u32| chosen@.contains(x) implies x != 0 by {
                assert(chosen@.to_set().contains(x));
                assert(nodes.contains_key(x));
            }
        }
        match self.index_store.set_connections(p_index, &chosen) {
            Ok(()) => {},
            Err(_) => {
                assert(false);
            },
        }
        proof {
            let after = self.index_store.nodes();
            assert forall|k: u32| #[trigger] after.contains_key(k) implies {
                &&& after[k].connected.len() <= self.max_neighbour_count as nat
                &&& !after[k].connected.contains(k)
                &&& forall|x: u32| after[k].connected.contains(x) ==> after.contains_key(x)
            } by {
                if k == p_index {
                    assert(after[k].connected == chosen@.to_set());
                }
            }
        }
        Node { id: p_index, vector: p_node.vector, connected: chosen }
    }

    /// Adds `p_index` to the neighbours of each of `connected`; a neighbour
    /// whose set would go over the cap is pruned again instead.
    fn add_back_edges(&mut self, p_index: u32, connected: &Vec<u32>, alpha: Alpha)
        requires
            old(self).wf(),
            old(self).index_store.nodes().contains_key(p_index),
            forall|i: int|
                0 <= i < connected@.len() ==> old(self).index_store.nodes().contains_key(
                    #[trigger] connected@[i],
                ) && connected@[i] != p_index,
            connected@.no_duplicates(),
        ensures
            final(self).wf(),
            final(self).distance == old(self).distance,
            back_edges_ok(
                old(self).distance,
                alpha,
                old(self).max_neighbour_count as nat,
                p_index,
                connected@,
                old(self).index_store.nodes(),
                final(self).index_store.nodes(),
            ),
            same_vectors(old(self).index_store.nodes(), final(self).index_store.nodes()),
            final(self).index_store.nodes()[p_index] == old(self).index_store.nodes()[p_index],
            final(self).max_neighbour_count == old(self).max_neighbour_count,
            final(self).data_store == old(self).data_store,
            final(self).index_store.next_id() == old(self).index_store.next_id(),
            final(self).index_store.max_degree() == old(self).index_store.max_degree(),
    {
        let ghost nodes0 = self.index_store.nodes();
        let r = self.max_neighbour_count;
        let mut i: usize = 0;
        while i < connected.len()
            invariant
                self.wf(),
                i <= connected@.len(),
                r == self.max_neighbour_count,
                r == old(self).max_neighbour_count,
                same_vectors(nodes0, self.index_store.nodes()),
                self.index_store.nodes()[p_index] == nodes0[p_index],
                nodes0 == old(self).index_store.nodes(),
                nodes0.contains_key(p_index),
                forall|j: int|
                    0 <= j < connected@.len() ==> nodes0.contains_key(#[trigger] connected@[j])
                        && connected@[j] != p_index,
                self.data_store == old(self).data_store,
                self.index_store.next_id() == old(self).index_store.next_id(),
                self.index_store.max_degree() == old(self).index_store.max_degree(),
                self.distance == old(self).distance,
                connected@.no_duplicates(),
                forall|k: u32| #[trigger]
                    nodes0.contains_key(k) && !connected@.subrange(0, i as int).contains(k)
                        ==> self.index_store.nodes()[k] == nodes0[k],
                forall|j: int|
                    0 <= j < i ==> back_edge_ok(
                        old(self).distance,
                        alpha,
                        r as nat,
                        p_index,
                        vectors_of(nodes0),
                        nodes0[#[trigger] connected@[j]],
                        self.index_store.nodes()[connected@[j]],
                    ),
            decreases connected.len() - i,
        {
            let q = connected[i];
            let ghost before = self.index_store.nodes();
            proof {
                assert(!connected@.subrange(0, i as int).contains(q)) by {
                    if connected@.subrange(0, i as int).contains(q) {
                        let j = choose|j: int| 0 <= j < i && connected@.subrange(0, i as int)[j] == q;
                        assert(connected@[j] == q);
                    }
                }
                assert(before[q] == nodes0[q]);
                self.index_store.lemma_inv();
                lemma_same_vectors_map(nodes0, before);
            }
            let qn = self.fetch(q);
            if !contains_word(&qn.connected, p_index) {
                let mut set = copy_words(&qn.connected);
                set.push(p_index);
                proof {
                    lemma_push_to_set(qn.connected@, p_index);
                    lemma_push_contains(qn.connected@, p_index);
                    assert(set@.no_duplicates());
                    lemma_distinct_len(set@);
                    lemma_distinct_len(qn.connected@);
                    self.index_store.lemma_inv();
                    assert forall|j: int| 0 <= j < set@.len() implies before.contains_key(#[trigger] set@[j]) by {
                        if j < qn.connected@.len() {
                            assert(qn.connected@.contains(set@[j]));
                            assert(before[q].connected.contains(set@[j]));
                        }
                    }
                }
                if set.len() > r {
                    let pr = self.robust_prune(q, &set, alpha, r);
                    proof {
                        lemma_rewire_same_vectors(before, q, pr@.connected);
                        lemma_same_vectors_trans(nodes0, before, self.index_store.nodes());
                        assert(set@.to_set().union(before[q].connected).remove(q) =~= nodes0[q].connected.insert(p_index).remove(nodes0[q].id));
                        assert(pruned_well(old(self).distance, alpha, nodes0[q].vector, vectors_of(nodes0),
                            nodes0[q].connected.insert(p_index).remove(nodes0[q].id), pr.connected@, r as nat));
                        assert(nodes0[q].connected.len() + 1 > r);
                    }
                } else {
                    proof {
                        assert(!set@.contains(0)) by {
                            if set@.contains(0) {
                                let j = choose|j: int| 0 <= j < set@.len() && set@[j] == 0;
                                assert(before.contains_key(set@[j]));
                            }
                        }
                    }
                    match self.index_store.set_connections(q, &set) {
                        Ok(()) => {},
                        Err(_) => {
                            assert(false);
                        },
                    }
                    proof {
                        lemma_rewire_same_vectors(before, q, set@.to_set());
                        lemma_same_vectors_trans(nodes0, before, self.index_store.nodes());
                        assert(set@.to_set() == nodes0[q].connected.insert(p_index));
                        let after = self.index_store.nodes();
                        assert forall|k: u32| #[trigger] after.contains_key(k) implies {
                            &&& after[k].connected.len() <= self.max_neighbour_count as nat
                            &&& !after[k].connected.contains(k)
                            &&& forall|x: u32| after[k].connected.contains(x) ==> after.contains_key(x)
                        } by {
                            if k == q {
                                assert(after[k].connected == set@.to_set());
                                assert(before[q].connected == qn.connected@.to_set());
                                assert forall|x: u32| after[k].connected.contains(x) implies after.contains_key(x) by {
                                    let j = choose|j: int| 0 <= j < set@.len() && set@[j] == x;
                                    assert(before.contains_key(set@[j]));
                                }
                            }
                        }
                    }
                }
            }
            proof {
                let after = self.index_store.nodes();
                assert(connected@.subrange(0, i + 1) =~= connected@.subrange(0, i as int).push(q));
                lemma_push_contains(connected@.subrange(0, i as int), q);
                assert(forall|k: u32| #[trigger] before.contains_key(k) && k != q ==> after[k] == before[k]);
                assert forall|j: int| 0 <= j < i + 1 implies back_edge_ok(
                    old(self).distance,
                    alpha,
                    r as nat,
                    p_index,
                    vectors_of(nodes0),
                    nodes0[#[trigger] connected@[j]],
                    after[connected@[j]],
                ) by {
                    if j < i {
                        assert(connected@[j] != q);
                        assert(after[connected@[j]] == before[connected@[j]]);
                    }
                }
            }
            i += 1;
        }
        proof {
            assert(connected@.subrange(0, connected@.len() as int) =~= connected@);
            assert(self.index_store.nodes().dom() =~= nodes0.dom());
        }
    }

    /// One Vamana pass: from a fixed seed, each node in random order is
    /// searched for, pruned against what the search visited under `alpha`,
    /// and linked back from its new neighbours.
    ///
    /// Node ids and vectors stay as they are; afterwards every neighbour set
    /// is within the cap, free of self-loops, and names stored nodes only.
    pub fn index(&mut self, alpha: Alpha) -> (r: Result<(), Error>)
        requires
            old(self).wf(),
        ensures
            r is Ok,
            final(self).wf(),
            forall|k: u32| #[trigger]
                final(self).index_store.nodes().contains_key(k)
                    ==> final(self).index_store.nodes()[k].connected.len()
                    <= final(self).max_neighbour_count,
            same_vectors(old(self).index_store.nodes(), final(self).index_store.nodes()),
            final(self).max_neighbour_count == old(self).max_neighbour_count,
            final(self).data_store == old(self).data_store,
            final(self).index_store.next_id() == old(self).index_store.next_id(),
            final(self).distance == old(self).distance,
            exists|
                start: u32,
                order: Seq<u32>,
                states: Seq<Map<u32, NodeView>>,
                trace: Seq<(Seq<u32>, Seq<u32>)>,
            |
                #[trigger] pass_ok(
                    old(self).distance,
                    alpha,
                    old(self).max_neighbour_count as nat,
                    start,
                    order,
                    states,
                    trace,
                ) && order.no_duplicates() && order.to_set() == old(self).index_store.nodes().dom()
                    && states[0] == old(self).index_store.nodes() && states.last()
                    == final(self).index_store.nodes(),
    {
        let ghost nodes0 = self.index_store.nodes();
        let start = match self.index_store.get_random_node() {
            Some(n) => n.id,
            None => {
                proof {
                    let o = Seq::<u32>::empty();
                    let st = seq![nodes0];
                    let tr = Seq::<(Seq<u32>, Seq<u32>)>::empty();
                    assert(o.to_set() =~= nodes0.dom());
                    assert(pass_ok(self.distance, alpha, self.max_neighbour_count as nat, 0, o, st, tr));
                }
                return Ok(());
            },
        };
        let mut order = match self.index_store.get_all_node_indexes() {
            Ok(ids) => ids,
            Err(_) => {
                assert(false);
                Vec::new()
            },
        };
        let ghost before_shuffle = order@;
        shuffle_ids(&mut order);
        proof {
            before_shuffle.to_multiset_ensures();
            order@.to_multiset_ensures();
            assert forall|i: int| 0 <= i < order@.len() implies nodes0.contains_key(#[trigger] order@[i]) by {
                assert(order@.to_multiset().count(order@[i]) > 0);
                assert(before_shuffle.contains(order@[i]));
                assert(before_shuffle.to_set().contains(order@[i]));
            }
            before_shuffle.lemma_multiset_has_no_duplicates();
            order@.lemma_multiset_has_no_duplicates_conv();
            assert forall|x: u32| #[trigger] order@.to_set().contains(x) <==> nodes0.dom().contains(x) by {
                assert(order@.contains(x) <==> order@.to_multiset().count(x) > 0);
                assert(before_shuffle.contains(x) <==> before_shuffle.to_multiset().count(x) > 0);
                assert(before_shuffle.to_set().contains(x) <==> before_shuffle.contains(x));
            }
            assert(order@.to_set() =~= nodes0.dom());
        }
        let ghost mut states: Seq<Map<u32, NodeView>> = seq![nodes0];
        let ghost mut trace: Seq<(Seq<u32>, Seq<u32>)> = Seq::empty();
        let r = self.max_neighbour_count;
        let mut i: usize = 0;
        while i < order.len()
            invariant
                self.wf(),
                i <= order@.len(),
                r == self.max_neighbour_count,
                r == old(self).max_neighbour_count,
                nodes0 == old(self).index_store.nodes(),
                same_vectors(nodes0, self.index_store.nodes()),
                nodes0.contains_key(start),
                forall|j: int| 0 <= j < order@.len() ==> nodes0.contains_key(#[trigger] order@[j]),
                self.data_store == old(self).data_store,
                self.index_store.next_id() == old(self).index_store.next_id(),
                self.distance == old(self).distance,
                states.len() == i + 1,
                states[0] == nodes0,
                states[i as int] == self.index_store.nodes(),
                pass_ok(old(self).distance, alpha, r as nat, start, order@.subrange(0, i as int), states, trace),
            decreases order.len() - i,
        {
            let p = order[i];
            assert(nodes0.contains_key(p));
            let ghost before = self.index_store.nodes();
            let pn = self.fetch(p);
            let (top, visited) = self.greedy_search(start, &pn.vector, 3, 10);
            let ghost mid = self.index_store.nodes();
            let pruned = self.robust_prune(p, &visited, alpha, r);
            proof {
                lemma_rewire_same_vectors(mid, p, pruned@.connected);
                lemma_same_vectors_trans(nodes0, mid, self.index_store.nodes());
                let pool = visited@.to_set().union(mid[p].connected).remove(p);
                assert forall|j: int| 0 <= j < pruned.connected@.len() implies self.index_store.nodes().contains_key(
                    #[trigger] pruned.connected@[j],
                ) && pruned.connected@[j] != p by {
                    let x = pruned.connected@[j];
                    assert(pruned@.connected.contains(x));
                    assert(pool.contains(x));
                    if visited@.to_set().contains(x) {
                        let a = choose|a: int| 0 <= a < visited@.len() && visited@[a] == x;
                        assert(mid.contains_key(visited@[a]));
                    } else {
                        assert(mid[p].connected.contains(x));
                    }
                }
            }
            let ghost pre = self.index_store.nodes();
            self.add_back_edges(p, &pruned.connected, alpha);
            proof {
                lemma_same_vectors_trans(nodes0, pre, self.index_store.nodes());
                assert(pre == before.insert(p, before[p].with_connected(pruned.connected@.to_set())));
                assert(search_outcome(self.distance, before[p].vector, before, 3, 10, top@, visited@));
                assert(index_step(self.distance, alpha, r as nat, start, p, before, self.index_store.nodes(), visited@, pruned.connected@));
                let states2 = states.push(self.index_store.nodes());
                let trace2 = trace.push((visited@, pruned.connected@));
                let o2 = order@.subrange(0, i + 1);
                assert forall|j: int| 0 <= j < o2.len() implies #[trigger] index_step(
                    self.distance, alpha, r as nat, start, o2[j], states2[j], states2[j + 1], trace2[j].0, trace2[j].1,
                ) by {
                    if j < i {
                        assert(o2[j] == order@.subrange(0, i as int)[j]);
                        assert(states2[j] == states[j] && states2[j + 1] == states[j + 1] && trace2[j] == trace[j]);
                        assert(index_step(self.distance, alpha, r as nat, start, order@.subrange(0, i as int)[j], states[j], states[j + 1], trace[j].0, trace[j].1));
                    } else {
                        assert(o2[j] == p);
                        assert(states2[j] == before);
                    }
                }
                states = states2;
                trace = trace2;
            }
            i += 1;
        }
        proof {
            assert(order@.subrange(0, order@.len() as int) =~= order@);
            assert(pass_ok(self.distance, alpha, r as nat, start, order@, states, trace));
        }
        Ok(())
    }

    /// Inserts a vector: searches for it from `start_node_index`, stores it
    /// with its payload, prunes what the search visited into its neighbours
    /// under `alpha`, and links it back from them.
    pub fn insert(
        &mut self,
        insert_vector: Vec<u32>,
        insert_data: String,
        start_node_index: u32,
        alpha: Alpha,
        search_list_size: usize,
    ) -> (r: Result<Node, Error>)
        requires
            old(self).wf(),
            old(self).index_store.nodes().contains_key(start_node_index),
        ensures
            final(self).wf(),
            final(self).max_neighbour_count == old(self).max_neighbour_count,
            r is Ok <==> insert_vector@.len() == old(self).index_store.nodes()[start_node_index].vector.len()
                && old(self).index_store.accepts(seq![insert_vector@]),
            r matches Err(e) ==> e is InvalidInput && final(self).index_store.nodes() == old(
                self,
            ).index_store.nodes() && final(self).data_store == old(self).data_store,
            r matches Ok(n) ==> {
                &&& n.id == old(self).index_store.next_id()
                &&& final(self).index_store.nodes().dom() == old(self).index_store.nodes().dom().insert(n.id)
                &&& forall|k: u32| #[trigger] old(self).index_store.nodes().contains_key(k)
                    ==> final(self).index_store.nodes()[k].vector == old(self).index_store.nodes()[k].vector
                &&& final(self).index_store.nodes()[n.id] == n@
                &&& n@.vector == insert_vector@
                &&& !n@.connected.contains(n.id)
                &&& n@.connected.len() <= final(self).max_neighbour_count
                &&& n.connected@.no_duplicates()
                &&& forall|k: u32| #[trigger]
                    final(self).index_store.nodes().contains_key(k)
                        ==> !final(self).index_store.nodes()[k].connected.contains(k)
                &&& final(self).data_store.entries() == old(self).data_store.entries().insert(n.id, insert_data@)
                &&& exists|top: Seq<u32>, visited: Seq<u32>|
                    #[trigger] search_outcome(
                        old(self).distance,
                        insert_vector@,
                        old(self).index_store.nodes(),
                        1,
                        search_list_size as nat,
                        top,
                        visited,
                    ) && visited.contains(start_node_index)
                    && (forall|i: int| 0 <= i < visited.len() ==> old(self).index_store.nodes().contains_key(#[trigger] visited[i]))
                    && pruned_well(
                        old(self).distance,
                        alpha,
                        insert_vector@,
                        vectors_of(with_batch(old(self).index_store.nodes(), old(self).index_store.next_id(), seq![insert_vector@])),
                        visited.to_set().remove(n.id),
                        n.connected@,
                        old(self).max_neighbour_count as nat,
                    )
                &&& back_edges_ok(
                    old(self).distance,
                    alpha,
                    old(self).max_neighbour_count as nat,
                    n.id,
                    n.connected@,
                    with_batch(old(self).index_store.nodes(), old(self).index_store.next_id(), seq![insert_vector@]).insert(n.id, n@),
                    final(self).index_store.nodes(),
                )
            },
    {
        let ghost nodes0 = self.index_store.nodes();
        proof {
            self.index_store.lemma_inv();
        }
        // The kernel is only defined on vectors of one length.
        let start = self.fetch(start_node_index);
        if insert_vector.len() != start.vector.len() {
            return Err(Error::InvalidInput("vector length differs from the store's".to_owned()));
        }
        let (top, visited) = self.greedy_search(start_node_index, &insert_vector, 1, search_list_size);
        let batch = vec![insert_vector];
        assert(crate::storage::batch_view(batch@) =~= seq![insert_vector@]);
        let ids = self.index_store.add_nodes(&batch)?;
        let id = ids[0];
        let ghost added = self.index_store.nodes();
        proof {
            self.index_store.lemma_inv();
            assert(id_range_first(ids@, nodes0, self.index_store.nodes(), id));
        }
        let _ = self.data_store.add_data(id, insert_data);
        proof {
            assert(added.contains_key(id));
            assert(added[id].connected =~= Set::<u32>::empty());
            assert forall|k: u32| #[trigger] added.contains_key(k) implies {
                &&& added[k].connected.len() <= self.max_neighbour_count as nat
                &&& !added[k].connected.contains(k)
                &&& forall|x: u32| added[k].connected.contains(x) ==> added.contains_key(x)
            } by {
                if k != id {
                    assert(nodes0.contains_key(k));
                    assert(added[k] == nodes0[k]);
                }
            }
            assert forall|j: int| 0 <= j < visited@.len() implies added.contains_key(#[trigger] visited@[j]) by {
                assert(nodes0.contains_key(visited@[j]));
            }
        }
        let r = self.max_neighbour_count;
        let node = self.robust_prune(id, &visited, alpha, r);
        let ghost pruned = self.index_store.nodes();
        proof {
            assert(added == with_batch(nodes0, old(self).index_store.next_id(), seq![insert_vector@]));
            assert(visited@.to_set().union(added[id].connected).remove(id) =~= visited@.to_set().remove(id));
            assert(added[id].vector == insert_vector@);
            assert(forall|i: int| 0 <= i < visited@.len() ==> nodes0.contains_key(#[trigger] visited@[i]));
        }
        proof {
            let pool = visited@.to_set().union(added[id].connected).remove(id);
            assert forall|j: int| 0 <= j < node.connected@.len() implies pruned.contains_key(
                #[trigger] node.connected@[j],
            ) && node.connected@[j] != id by {
                let x = node.connected@[j];
                assert(node@.connected.contains(x));
                assert(pool.contains(x));
                let a = choose|a: int| 0 <= a < visited@.len() && visited@[a] == x;
                assert(added.contains_key(visited@[a]));
            }
        }
        self.add_back_edges(id, &node.connected, alpha);
        proof {
            assert forall|k: u32| #[trigger] nodes0.contains_key(k) implies self.index_store.nodes()[k].vector == nodes0[k].vector by {
                assert(added.contains_key(k));
                assert(added[k] == nodes0[k]);
                assert(pruned.contains_key(k));
            }
            assert(self.index_store.nodes().dom() =~= nodes0.dom().insert(id));
        }
        Ok(node)
    }
}

/// The single id a one-vector batch received is the old next id, and the
/// node it names is new.
pub open spec fn id_range_first(
    ids: Seq<u32>,
    before: Map<u32, NodeView>,
    after: Map<u32, NodeView>,
    id: u32,
) -> bool {
    ids.len() == 1 && ids[0] == id && !before.contains_key(id) && after.contains_key(id)
}

/// The links among the new nodes of a batch, ids `[first, first + n)`,
/// stay among them and come in pairs of half-edges.
pub open spec fn links_paired(m: Map<u32, NodeView>, first: nat, n: nat) -> bool {
    &&& forall|a: u32, b: u32|
        first <= a < first + n && first <= b < first + n ==> (#[trigger] m[a].connected.contains(b)
            <==> m[b].connected.contains(a))
    &&& forall|a: u32, b: u32|
        first <= a < first + n && #[trigger] m[a].connected.contains(b) ==> first <= b < first + n
}

/// Each new node at position `x` links to `y` exactly when `y` links to `x`.
pub open spec fn adj_sym(adj: Seq<Vec<u32>>, ids: Seq<u32>) -> bool {
    forall|x: int, y: int|
        0 <= x < adj.len() && 0 <= y < adj.len() ==> (#[trigger] adj[x]@.contains(ids[y])
            <==> adj[y]@.contains(ids[x]))
}

/// Adding a pair of half-edges keeps the links paired.
proof fn lemma_link_pair(adj: Seq<Vec<u32>>, adj2: Seq<Vec<u32>>, ids: Seq<u32>, i: int, j: int)
    requires
        adj_sym(adj, ids),
        ids.no_duplicates(),
        ids.len() == adj.len(),
        adj2.len() == adj.len(),
        0 <= i < adj.len(),
        0 <= j < adj.len(),
        i != j,
        adj2[i]@ == adj[i]@.push(ids[j]),
        adj2[j]@ == adj[j]@.push(ids[i]),
        forall|z: int| 0 <= z < adj.len() && z != i && z != j ==> adj2[z] == adj[z],
    ensures
        adj_sym(adj2, ids),
{
    lemma_push_contains(adj[i]@, ids[j]);
    lemma_push_contains(adj[j]@, ids[i]);
    assert forall|x: int, y: int| 0 <= x < adj2.len() && 0 <= y < adj2.len() implies (#[trigger] adj2[x]@.contains(ids[y])
        <==> adj2[y]@.contains(ids[x])) by {
        assert(adj[x]@.contains(ids[y]) <==> adj[y]@.contains(ids[x]));
        if x == i && y == j {
        } else if x == j && y == i {
        } else if x == i {
            assert(ids[y] != ids[j]);
        } else if y == i {
            assert(ids[x] != ids[j]);
        } else if x == j {
            assert(ids[y] != ids[i]);
        } else if y == j {
            assert(ids[x] != ids[i]);
        }
    }
}

/// The links of the new node at position `x` of a batch of `n` from id
/// `first`: distinct ids of other new nodes, at most `cap` of them.
pub open spec fn adj_ok(l: Seq<u32>, x: int, first: nat, n: nat, cap: nat) -> bool {
    &&& l.no_duplicates()
    &&& l.len() <= cap
    &&& forall|y: u32| #[trigger] l.contains(y) ==> first <= y < first + n && y != first + x
}

} // verus!
