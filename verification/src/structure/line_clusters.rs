//! Grouping ruling lines into regions that may each hold a table.
use crate::connect::{
    is_walk, joins, lemma_linked_add_edge, lemma_linked_refl, lemma_linked_same, lemma_linked_sym,
    lemma_linked_trans, linked,
};
use crate::elements::PathContent;
use crate::geometry::{coord_ok, Rect};
use crate::order::{is_stable_order, sorted_order, stable_sort_order};
use vstd::prelude::*;

verus! {

/// How far, in thousandths of a point, each box is grown on every side
/// before two boxes are compared for overlap.
pub const EXPANSION: i64 = 10000;

/// Every path's box is well formed.
pub open spec fn lines_wf(lines: Seq<PathContent>) -> bool {
    forall|i: int| 0 <= i < lines.len() ==> (#[trigger] lines[i]).bbox.wf()
}

/// The indices, among the first `n` paths, of those that can bound a table.
pub open spec fn primitive_lines(lines: Seq<PathContent>, n: nat) -> Seq<usize>
    decreases n,
{
    if n == 0 {
        seq![]
    } else {
        primitive_lines(lines, (n - 1) as nat) + if lines[n - 1].spec_is_table_primitive() {
            seq![(n - 1) as usize]
        } else {
            seq![]
        }
    }
}

/// The left edges of the paths with the given indices.
pub open spec fn lefts_of(lines: Seq<PathContent>, idxs: Seq<usize>) -> Seq<i64> {
    idxs.map_values(|i: usize| lines[i as int].bbox.x)
}

/// The table-bounding paths, ordered by left edge (stable on ties): the order
/// in which they are swept.
pub open spec fn sweep_order(lines: Seq<PathContent>) -> Seq<usize> {
    let v = primitive_lines(lines, lines.len());
    sorted_order(lefts_of(lines, v)).map_values(|k: usize| v[k as int])
}

/// A box grown by `EXPANSION` on every side.
pub open spec fn expanded(b: Rect) -> Rect {
    Rect {
        x: (b.x - EXPANSION) as i64,
        y: (b.y - EXPANSION) as i64,
        width: (b.width + 2 * EXPANSION) as i64,
        height: (b.height + 2 * EXPANSION) as i64,
    }
}

/// The box of the path at sweep position `i`.
pub open spec fn sweep_box(lines: Seq<PathContent>, sw: Seq<usize>, i: int) -> Rect {
    lines[sw[i] as int].bbox
}

/// Whether the sweep compares position `i` with the later position `j`: no
/// path from `i + 1` to `j` has a grown box that starts at or past the right
/// edge of the grown box at `i`.
spec fn tested(lines: Seq<PathContent>, sw: Seq<usize>, i: int, j: int) -> bool {
    &&& 0 <= i < j < sw.len()
    &&& forall|k: int|
        i < k <= j ==> (#[trigger] sweep_box(lines, sw, k)).x < expanded(sweep_box(lines, sw, i)).spec_right() + EXPANSION
}

/// Whether the sweep joins positions `i < j`: it compares them and their grown boxes overlap.
spec fn joined(lines: Seq<PathContent>, sw: Seq<usize>, i: int, j: int) -> bool {
    tested(lines, sw, i, j) && expanded(sweep_box(lines, sw, i)).spec_intersects(expanded(sweep_box(lines, sw, j)))
}

/// Whether the boxes `a` and `b`, each grown by `EXPANSION` on every side, overlap.
pub open spec fn grown_meet(a: Rect, b: Rect) -> bool {
    expanded(a).spec_intersects(expanded(b))
}

/// The edges between sweep positions: two positions are joined when the
/// grown boxes of their paths overlap.
pub open spec fn sweep_edges(lines: Seq<PathContent>, sw: Seq<usize>) -> spec_fn(int, int) -> bool {
    |i: int, j: int| 0 <= i < j < sw.len() && grown_meet(sweep_box(lines, sw, i), sweep_box(lines, sw, j))
}

proof fn lemma_primitive_lines_below(lines: Seq<PathContent>, n: nat)
    ensures
        primitive_lines(lines, n).len() <= n,
        forall|k: int| 0 <= k < primitive_lines(lines, n).len() ==> #[trigger] primitive_lines(lines, n)[k] < n,
    decreases n,
{
    if n > 0 {
        lemma_primitive_lines_below(lines, (n - 1) as nat);
        let p = primitive_lines(lines, (n - 1) as nat);
        let q = primitive_lines(lines, n);
        assert forall|k: int| 0 <= k < q.len() implies #[trigger] q[k] < n by {
            if k < p.len() {
                assert(q[k] == p[k]);
            }
        }
    }
}

/// The sweep visits paths in order of their left edges.
pub proof fn lemma_sweep_sorted(lines: Seq<PathContent>)
    requires
        lines.len() <= usize::MAX,
    ensures
        forall|i: int, j: int|
            0 <= i <= j < sweep_order(lines).len() ==> (#[trigger] sweep_box(lines, sweep_order(lines), i)).x
                <= (#[trigger] sweep_box(lines, sweep_order(lines), j)).x,
        forall|k: int| 0 <= k < sweep_order(lines).len() ==> #[trigger] sweep_order(lines)[k] < lines.len(),
{
    let v = primitive_lines(lines, lines.len());
    lemma_primitive_lines_below(lines, lines.len());
    let keys = lefts_of(lines, v);
    crate::order::lemma_stable_order(keys, keys.len());
    let o = sorted_order(keys);
    let sw = sweep_order(lines);
    assert forall|i: int, j: int| 0 <= i <= j < sw.len() implies (#[trigger] sweep_box(lines, sw, i)).x
        <= (#[trigger] sweep_box(lines, sw, j)).x by {
        if i < j {
            assert(keys[o[i] as int] <= keys[o[j] as int]);
        }
    }
    assert forall|k: int| 0 <= k < sw.len() implies #[trigger] sw[k] < lines.len() by {
        assert(o[k] < v.len());
    }
}

/// The sweep joins two positions exactly when their grown boxes overlap:
/// stopping at a path whose grown box starts past the right edge of the
/// current grown box loses no overlap, as later paths start further right.
proof fn lemma_joined_meet(lines: Seq<PathContent>, i: int, j: int)
    requires
        lines.len() <= usize::MAX,
        lines_wf(lines),
    ensures
        joined(lines, sweep_order(lines), i, j) == sweep_edges(lines, sweep_order(lines))(i, j),
{
    let sw = sweep_order(lines);
    lemma_sweep_sorted(lines);
    if 0 <= i < j < sw.len() && grown_meet(sweep_box(lines, sw, i), sweep_box(lines, sw, j)) {
        assert(lines[sw[i] as int].bbox.wf());
        assert(lines[sw[j] as int].bbox.wf());
        assert forall|k: int| i < k <= j implies (#[trigger] sweep_box(lines, sw, k)).x < expanded(
            sweep_box(lines, sw, i),
        ).spec_right() + EXPANSION by {
            assert(sweep_box(lines, sw, k).x <= sweep_box(lines, sw, j).x);
        }
    }
}

/// The first position from `q` up to `n` that `p` is linked to (`p` when none is).
pub open spec fn first_linked(e: spec_fn(int, int) -> bool, p: int, q: int, n: int) -> int
    decreases n - q,
{
    if q >= n {
        p
    } else if linked(e, p, q) {
        q
    } else {
        first_linked(e, p, q + 1, n)
    }
}

/// The positions among the first `m` that are the first of their group.
pub open spec fn leaders(e: spec_fn(int, int) -> bool, n: int, m: nat) -> Seq<int>
    decreases m,
{
    if m == 0 {
        seq![]
    } else {
        leaders(e, n, (m - 1) as nat) + if first_linked(e, m - 1, 0, n) == m - 1 {
            seq![m - 1]
        } else {
            seq![]
        }
    }
}

/// The positions among the first `m` whose group begins at `lead`.
pub open spec fn members(e: spec_fn(int, int) -> bool, n: int, m: nat, lead: int) -> Seq<int>
    decreases m,
{
    if m == 0 {
        seq![]
    } else {
        members(e, n, (m - 1) as nat, lead) + if first_linked(e, m - 1, 0, n) == lead {
            seq![m - 1]
        } else {
            seq![]
        }
    }
}

/// The union of the boxes of the given paths, taken in order from the first.
pub open spec fn boxes_union(lines: Seq<PathContent>, idxs: Seq<usize>) -> Rect
    decreases idxs.len(),
{
    if idxs.len() <= 1 {
        lines[idxs[0] as int].bbox
    } else {
        boxes_union(lines, idxs.drop_last()).spec_union(lines[idxs.last() as int].bbox)
    }
}

/// A group of ruling lines and the box around them.
pub struct LineCluster {
    /// Indices of the paths in the group, in sweep order.
    pub lines: Vec<usize>,
    /// The union of their boxes.
    pub bbox: Rect,
}

/// The value of a group of lines.
pub struct LineClusterView {
    pub lines: Seq<usize>,
    pub bbox: Rect,
}

impl View for LineCluster {
    type V = LineClusterView;

    open spec fn view(&self) -> LineClusterView {
        LineClusterView { lines: self.lines@, bbox: self.bbox }
    }
}

/// The group whose first sweep position is `lead`.
pub open spec fn cluster_at(lines: Seq<PathContent>, lead: int) -> LineClusterView {
    let sw = sweep_order(lines);
    let ps = members(sweep_edges(lines, sw), sw.len() as int, sw.len(), lead);
    let idxs = ps.map_values(|p: int| sw[p]);
    LineClusterView { lines: idxs, bbox: boxes_union(lines, idxs) }
}

/// The groups of table-bounding paths: the connected parts of the relation
/// "the grown boxes overlap" (`sweep_edges`); groups are listed by their first
/// sweep position, each with its paths in sweep order and the union of their
/// boxes.
pub open spec fn line_clusters(lines: Seq<PathContent>) -> Seq<LineClusterView> {
    let sw = sweep_order(lines);
    leaders(sweep_edges(lines, sw), sw.len() as int, sw.len()).map_values(|lead: int| cluster_at(lines, lead))
}

impl LineCluster {
    /// A group holding one path.
    pub fn new(line_idx: usize, bbox: Rect) -> (c: LineCluster)
        ensures
            c@.lines == seq![line_idx],
            c@.bbox == bbox,
    {
        let mut lines: Vec<usize> = Vec::new();
        lines.push(line_idx);
        proof {
            assert(lines@ =~= seq![line_idx]);
        }
        LineCluster { lines, bbox }
    }

    /// Add a path to the group, widening its box.
    pub fn add(&mut self, line_idx: usize, bbox: Rect)
        requires
            old(self).bbox.wf(),
            bbox.wf(),
        ensures
            final(self)@.lines == old(self)@.lines.push(line_idx),
            final(self)@.bbox == old(self)@.bbox.spec_union(bbox),
            final(self)@.bbox.wf(),
    {
        self.lines.push(line_idx);
        self.bbox = self.bbox.union(&bbox);
    }
}

/// The edges the sweep has found before it compares `i0` with `j0`.
spec fn done_edges(lines: Seq<PathContent>, sw: Seq<usize>, i0: int, j0: int) -> spec_fn(int, int) -> bool {
    |a: int, b: int| joined(lines, sw, a, b) && (a < i0 || (a == i0 && b < j0))
}

/// The labels tell linked positions apart: two of the first `n` positions
/// share a label exactly when `e` links them.
spec fn labels_match(lab: Seq<usize>, e: spec_fn(int, int) -> bool, n: int) -> bool {
    &&& lab.len() == n
    &&& forall|x: int, y: int|
        #![trigger linked(e, x, y)]
        0 <= x < n && 0 <= y < n ==> (lab[x] == lab[y]) == linked(e, x, y)
}

proof fn lemma_no_edges(e: spec_fn(int, int) -> bool, x: int, y: int)
    requires
        forall|u: int, v: int| !#[trigger] e(u, v),
    ensures
        linked(e, x, y) == (x == y),
{
    if x == y {
        lemma_linked_refl(e, x);
    }
    if linked(e, x, y) {
        let p = choose|p: Seq<int>| #[trigger] is_walk(e, p) && p[0] == x && p.last() == y;
        if p.len() > 1 {
            assert(joins(e, p[0], p[1]));
        }
    }
}

proof fn lemma_relabel(
    e: spec_fn(int, int) -> bool,
    f: spec_fn(int, int) -> bool,
    l0: Seq<usize>,
    l1: Seq<usize>,
    a: int,
    b: int,
    n: int,
)
    requires
        labels_match(l0, e, n),
        l1.len() == n,
        0 <= a < n,
        0 <= b < n,
        forall|u: int, v: int| #[trigger] f(u, v) == (e(u, v) || (u == a && v == b)),
        forall|x: int| 0 <= x < n ==> #[trigger] l1[x] == if l0[x] == l0[a] { l0[b] } else { l0[x] },
    ensures
        labels_match(l1, f, n),
{
    assert forall|x: int, y: int| 0 <= x < n && 0 <= y < n implies (l1[x] == l1[y]) == #[trigger] linked(f, x, y) by {
        lemma_linked_add_edge(e, f, a, b, x, y);
        assert((l0[x] == l0[y]) == linked(e, x, y));
        assert((l0[x] == l0[a]) == linked(e, x, a));
        assert((l0[b] == l0[y]) == linked(e, b, y));
        assert((l0[x] == l0[b]) == linked(e, x, b));
        assert((l0[a] == l0[y]) == linked(e, a, y));
    }
}

proof fn lemma_same_edges_labels(lab: Seq<usize>, e: spec_fn(int, int) -> bool, f: spec_fn(int, int) -> bool, n: int)
    requires
        labels_match(lab, e, n),
        forall|u: int, v: int| #[trigger] e(u, v) == f(u, v),
    ensures
        labels_match(lab, f, n),
{
    assert forall|x: int, y: int| 0 <= x < n && 0 <= y < n implies (lab[x] == lab[y]) == #[trigger] linked(f, x, y) by {
        lemma_linked_same(e, f, x, y);
        assert((lab[x] == lab[y]) == linked(e, x, y));
    }
}

/// The table-bounding paths in sweep order.
fn sweep_positions(lines: &[PathContent]) -> (sw: Vec<usize>)
    requires
        lines_wf(lines@),
    ensures
        sw@ == sweep_order(lines@),
        sw@.len() <= lines@.len(),
        forall|k: int| 0 <= k < sw@.len() ==> #[trigger] sw@[k] < lines@.len(),
{
    let n = lines.len();
    let mut v: Vec<usize> = Vec::new();
    let mut i: usize = 0;
    while i < n
        invariant
            n == lines@.len(),
            i <= n,
            lines_wf(lines@),
            v@ == primitive_lines(lines@, i as nat),
            v@.len() <= i,
            forall|k: int| 0 <= k < v@.len() ==> #[trigger] v@[k] < i,
        decreases n - i,
    {
        proof {
            assert(lines@[i as int].bbox.wf());
        }
        if lines[i].is_table_primitive() {
            v.push(i);
        }
        i = i + 1;
    }
    let m = v.len();
    let mut keys: Vec<i64> = Vec::new();
    let mut k: usize = 0;
    while k < m
        invariant
            m == v@.len(),
            k <= m,
            n == lines@.len(),
            forall|q: int| 0 <= q < m ==> #[trigger] v@[q] < n,
            keys@ == lefts_of(lines@, v@).take(k as int),
        decreases m - k,
    {
        keys.push(lines[v[k]].bbox.x);
        proof {
            assert(keys@ =~= lefts_of(lines@, v@).take(k + 1));
        }
        k = k + 1;
    }
    proof {
        assert(lefts_of(lines@, v@).take(m as int) =~= lefts_of(lines@, v@));
    }
    let order = stable_sort_order(&keys);
    let mut sw: Vec<usize> = Vec::new();
    let mut q: usize = 0;
    while q < m
        invariant
            m == v@.len(),
            m == order@.len(),
            q <= m,
            n == lines@.len(),
            forall|t: int| 0 <= t < m ==> #[trigger] v@[t] < n,
            forall|t: int| 0 <= t < m ==> #[trigger] order@[t] < m,
            sw@ == order@.map_values(|t: usize| v@[t as int]).take(q as int),
            forall|t: int| 0 <= t < sw@.len() ==> #[trigger] sw@[t] < n,
        decreases m - q,
    {
        sw.push(v[order[q]]);
        proof {
            assert(sw@ =~= order@.map_values(|t: usize| v@[t as int]).take(q + 1));
        }
        q = q + 1;
    }
    proof {
        assert(order@.map_values(|t: usize| v@[t as int]).take(m as int) =~= order@.map_values(
            |t: usize| v@[t as int],
        ));
    }
    sw
}

/// Whether the boxes, each grown by `EXPANSION`, overlap.
fn expanded_intersect(a: &Rect, b: &Rect) -> (r: bool)
    requires
        a.wf(),
        b.wf(),
    ensures
        r == expanded(*a).spec_intersects(expanded(*b)),
{
    let ax = a.x - EXPANSION;
    let ay = a.y - EXPANSION;
    let aw = a.width + 2 * EXPANSION;
    let ah = a.height + 2 * EXPANSION;
    let bx = b.x - EXPANSION;
    let by = b.y - EXPANSION;
    let bw = b.width + 2 * EXPANSION;
    let bh = b.height + 2 * EXPANSION;
    ax < bx + bw && ax + aw > bx && ay < by + bh && ay + ah > by
}

/// Whether every cluster's box is well formed and every index names a path.
pub open spec fn clusters_wf(cs: Seq<LineClusterView>, n_lines: nat) -> bool {
    forall|k: int|
        0 <= k < cs.len() ==> {
            &&& (#[trigger] cs[k]).bbox.wf()
            &&& 0 < cs[k].lines.len() <= n_lines
            &&& forall|q: int| 0 <= q < cs[k].lines.len() ==> #[trigger] cs[k].lines[q] < n_lines
        }
}

/// The values of a list of groups.
pub open spec fn clusters_view(cs: Seq<LineCluster>) -> Seq<LineClusterView> {
    cs.map_values(|c: LineCluster| c@)
}

/// Group the table-bounding paths into connected regions, as `line_clusters` describes it.
pub fn group_lines_into_clusters(lines: &[PathContent]) -> (clusters: Vec<LineCluster>)
    requires
        lines_wf(lines@),
    ensures
        clusters_view(clusters@) == line_clusters(lines@),
        clusters_wf(clusters_view(clusters@), lines@.len()),
{
    let sw = sweep_positions(lines);
    let n = sw.len();
    let ghost lv = lines@;
    let ghost swv = sw@;
    let ghost e_all = sweep_edges(lv, swv);
    let mut lab: Vec<usize> = Vec::new();
    let mut t: usize = 0;
    while t < n
        invariant
            t <= n,
            lab@.len() == t,
            forall|q: int| 0 <= q < t ==> #[trigger] lab@[q] == q,
        decreases n - t,
    {
        lab.push(t);
        t = t + 1;
    }
    proof {
        let e0 = done_edges(lv, swv, 0, 1);
        assert forall|x: int, y: int| 0 <= x < n && 0 <= y < n implies (lab@[x] == lab@[y]) == #[trigger] linked(e0, x, y) by {
            assert forall|u: int, v: int| !#[trigger] e0(u, v) by {}
            lemma_no_edges(e0, x, y);
        }
    }
    let mut i: usize = 0;
    while i < n
        invariant
            n == swv.len(),
            swv == sw@,
            lv == lines@,
            lines_wf(lv),
            forall|k: int| 0 <= k < n ==> #[trigger] swv[k] < lv.len(),
            i <= n,
            labels_match(lab@, done_edges(lv, swv, i as int, i + 1), n as int),
        decreases n - i,
    {
        let bi = lines[sw[i]].bbox;
        proof {
            assert(lv[swv[i as int] as int].bbox.wf());
        }
        let right = bi.x - EXPANSION + (bi.width + 2 * EXPANSION);
        let mut j: usize = i + 1;
        let mut stop = false;
        proof {
            lemma_same_edges_labels(lab@, done_edges(lv, swv, i as int, i + 1), done_edges(lv, swv, i as int, j as int), n as int);
        }
        while j < n && !stop
            invariant
                n == swv.len(),
                swv == sw@,
                lv == lines@,
                lines_wf(lv),
                forall|k: int| 0 <= k < n ==> #[trigger] swv[k] < lv.len(),
                i < n,
                i < j <= n,
                bi == sweep_box(lv, swv, i as int),
                bi.wf(),
                right == expanded(bi).spec_right(),
                forall|k: int| i < k < j ==> (#[trigger] sweep_box(lv, swv, k)).x < right + EXPANSION,
                stop ==> j < n && sweep_box(lv, swv, j as int).x >= right + EXPANSION,
                labels_match(lab@, done_edges(lv, swv, i as int, j as int), n as int),
            decreases n - j + if stop { 0int } else { 1int },
        {
            let bj = lines[sw[j]].bbox;
            proof {
                assert(lv[swv[j as int] as int].bbox.wf());
            }
            if bj.x >= right + EXPANSION {
                stop = true;
            } else {
                let e_before = Ghost(done_edges(lv, swv, i as int, j as int));
                let e_after = Ghost(done_edges(lv, swv, i as int, j + 1));
                if expanded_intersect(&bi, &bj) {
                    proof {
                        assert(tested(lv, swv, i as int, j as int));
                        assert(joined(lv, swv, i as int, j as int));
                    }
                    let ghost l0 = lab@;
                    let old_label = lab[i];
                    let new_label = lab[j];
                    let mut x: usize = 0;
                    while x < n
                        invariant
                            lab@.len() == n,
                            l0.len() == n,
                            i < n,
                            j < n,
                            old_label == l0[i as int],
                            new_label == l0[j as int],
                            x <= n,
                            forall|q: int| 0 <= q < x ==> #[trigger] lab@[q] == if l0[q] == l0[i as int] { l0[j as int] } else { l0[q] },
                            forall|q: int| x <= q < n ==> #[trigger] lab@[q] == l0[q],
                        decreases n - x,
                    {
                        if lab[x] == old_label {
                            lab.set(x, new_label);
                        }
                        x = x + 1;
                    }
                    proof {
                        assert forall|u: int, v: int| #[trigger] e_after@(u, v) == (e_before@(u, v) || (u == i && v == j)) by {}
                        lemma_relabel(e_before@, e_after@, l0, lab@, i as int, j as int, n as int);
                    }
                } else {
                    proof {
                        assert(!joined(lv, swv, i as int, j as int));
                        assert forall|u: int, v: int| #[trigger] e_before@(u, v) == e_after@(u, v) by {}
                        lemma_same_edges_labels(lab@, e_before@, e_after@, n as int);
                    }
                }
                j = j + 1;
            }
        }
        proof {
            let e_end = done_edges(lv, swv, i as int, j as int);
            let e_next = done_edges(lv, swv, i + 1, i + 2);
            assert forall|u: int, v: int| #[trigger] e_end(u, v) == e_next(u, v) by {
                if u == i && v >= j && joined(lv, swv, u, v) {
                    assert(stop);
                    assert(tested(lv, swv, u, v));
                    assert(sweep_box(lv, swv, j as int).x < expanded(sweep_box(lv, swv, i as int)).spec_right() + EXPANSION);
                }
            }
            lemma_same_edges_labels(lab@, e_end, e_next, n as int);
        }
        i = i + 1;
    }
    proof {
        let e_end = done_edges(lv, swv, n as int, n + 1);
        assert(lv.len() <= usize::MAX) by {
            assert(lines@.len() == lines.len());
        }
        assert forall|u: int, v: int| #[trigger] e_end(u, v) == e_all(u, v) by {
            lemma_joined_meet(lv, u, v);
        }
        lemma_same_edges_labels(lab@, e_end, e_all, n as int);
    }
    // The first position of each position's group.
    let mut canon: Vec<usize> = Vec::new();
    let mut p: usize = 0;
    while p < n
        invariant
            n == swv.len(),
            e_all == sweep_edges(lv, swv),
            labels_match(lab@, e_all, n as int),
            p <= n,
            canon@.len() == p,
            forall|k: int| 0 <= k < p ==> #[trigger] canon@[k] == first_linked(e_all, k, 0, n as int),
            forall|k: int| 0 <= k < p ==> #[trigger] canon@[k] <= k,
        decreases n - p,
    {
        let mut q: usize = 0;
        while lab[q] != lab[p]
            invariant
                n == lab@.len(),
                labels_match(lab@, e_all, n as int),
                p < n,
                q <= p,
                first_linked(e_all, p as int, 0, n as int) == first_linked(e_all, p as int, q as int, n as int),
            decreases p - q,
        {
            proof {
                assert((lab@[q as int] == lab@[p as int]) == linked(e_all, q as int, p as int));
                if linked(e_all, p as int, q as int) {
                    lemma_linked_sym(e_all, p as int, q as int);
                }
            }
            q = q + 1;
        }
        proof {
            assert((lab@[q as int] == lab@[p as int]) == linked(e_all, q as int, p as int));
            lemma_linked_sym(e_all, q as int, p as int);
        }
        canon.push(q);
        p = p + 1;
    }
    let mut clusters: Vec<LineCluster> = Vec::new();
    let ghost lead_seq = leaders(e_all, n as int, n as nat);
    let mut p: usize = 0;
    while p < n
        invariant
            n == swv.len(),
            swv == sw@,
            lv == lines@,
            lines_wf(lv),
            forall|k: int| 0 <= k < n ==> #[trigger] swv[k] < lv.len(),
            e_all == sweep_edges(lv, swv),
            swv == sweep_order(lv),
            n <= lv.len(),
            canon@.len() == n,
            forall|k: int| 0 <= k < n ==> #[trigger] canon@[k] == first_linked(e_all, k, 0, n as int),
            forall|k: int| 0 <= k < n ==> #[trigger] canon@[k] <= k,
            p <= n,
            clusters_view(clusters@) == leaders(e_all, n as int, p as nat).map_values(|lead: int| cluster_at(lv, lead)),
            clusters_wf(clusters_view(clusters@), lv.len()),
        decreases n - p,
    {
        let ghost before = clusters_view(clusters@);
        if canon[p] == p {
            let mut cluster = LineCluster::new(sw[p], lines[sw[p]].bbox);
            proof {
                assert(members(e_all, n as int, (p + 1) as nat, p as int) =~= seq![p as int]) by {
                    lemma_no_members_before(e_all, n as int, p as nat, p as int, canon@);
                }
                assert(lv[swv[p as int] as int].bbox.wf());
                assert(seq![p as int].map_values(|t: int| swv[t]) =~= seq![swv[p as int]]);
            }
            let mut q: usize = p + 1;
            while q < n
                invariant
                    n == swv.len(),
                    swv == sw@,
                    lv == lines@,
                    lines_wf(lv),
                    forall|k: int| 0 <= k < n ==> #[trigger] swv[k] < lv.len(),
                    canon@.len() == n,
                    forall|k: int| 0 <= k < n ==> #[trigger] canon@[k] == first_linked(e_all, k, 0, n as int),
                    p < q <= n,
                    cluster@.lines == members(e_all, n as int, q as nat, p as int).map_values(|t: int| swv[t]),
                    0 < cluster@.lines.len() <= q,
                    q <= n <= lv.len(),
                    cluster@.bbox == boxes_union(lv, cluster@.lines),
                    cluster@.bbox.wf(),
                    forall|k: int| 0 <= k < cluster@.lines.len() ==> #[trigger] cluster@.lines[k] < lv.len(),
                decreases n - q,
            {
                let ghost idxs_before = cluster@.lines;
                if canon[q] == p {
                    proof {
                        assert(lv[swv[q as int] as int].bbox.wf());
                    }
                    cluster.add(sw[q], lines[sw[q]].bbox);
                    proof {
                        let ms = members(e_all, n as int, (q + 1) as nat, p as int);
                        assert(ms =~= members(e_all, n as int, q as nat, p as int).push(q as int));
                        assert(ms.map_values(|t: int| swv[t]) =~= idxs_before.push(swv[q as int]));
                        assert(cluster@.lines.drop_last() =~= idxs_before);
                    }
                } else {
                    proof {
                        assert(members(e_all, n as int, (q + 1) as nat, p as int) =~= members(e_all, n as int, q as nat, p as int));
                    }
                }
                q = q + 1;
            }
            clusters.push(cluster);
            proof {
                assert(leaders(e_all, n as int, (p + 1) as nat) =~= leaders(e_all, n as int, p as nat).push(p as int));
                assert(cluster@ == cluster_at(lv, p as int));
                assert(clusters_view(clusters@) =~= before.push(cluster@));
                assert(clusters_view(clusters@) =~= leaders(e_all, n as int, (p + 1) as nat).map_values(|lead: int| cluster_at(lv, lead)));
            }
        } else {
            proof {
                assert(leaders(e_all, n as int, (p + 1) as nat) =~= leaders(e_all, n as int, p as nat));
            }
        }
        p = p + 1;
    }
    clusters
}

proof fn lemma_no_members_before(e: spec_fn(int, int) -> bool, n: int, m: nat, lead: int, canon: Seq<usize>)
    requires
        m <= lead,
        lead < n,
        canon.len() == n,
        forall|k: int| 0 <= k < n ==> #[trigger] canon[k] == first_linked(e, k, 0, n),
        forall|k: int| 0 <= k < n ==> #[trigger] canon[k] <= k,
        canon[lead] == lead,
    ensures
        members(e, n, m, lead) =~= Seq::<int>::empty(),
        members(e, n, (lead + 1) as nat, lead) =~= members(e, n, lead as nat, lead).push(lead),
    decreases m,
{
    if m > 0 {
        lemma_no_members_before(e, n, (m - 1) as nat, lead, canon);
        assert(canon[m - 1] <= m - 1);
    }
    if lead > 0 && m == lead {
    } else if m == lead {
    }
    lemma_members_prefix_empty(e, n, lead as nat, lead, canon);
}

proof fn lemma_members_prefix_empty(e: spec_fn(int, int) -> bool, n: int, m: nat, lead: int, canon: Seq<usize>)
    requires
        m <= lead,
        lead < n,
        canon.len() == n,
        forall|k: int| 0 <= k < n ==> #[trigger] canon[k] == first_linked(e, k, 0, n),
        forall|k: int| 0 <= k < n ==> #[trigger] canon[k] <= k,
    ensures
        members(e, n, m, lead) =~= Seq::<int>::empty(),
    decreases m,
{
    if m > 0 {
        lemma_members_prefix_empty(e, n, (m - 1) as nat, lead, canon);
        assert(canon[m - 1] <= m - 1);
    }
}

proof fn lemma_first_linked(e: spec_fn(int, int) -> bool, p: int, q: int, n: int)
    requires
        0 <= q <= p < n,
    ensures
        q <= first_linked(e, p, q, n) <= p,
        linked(e, p, first_linked(e, p, q, n)),
        forall|y: int| q <= y < first_linked(e, p, q, n) ==> !#[trigger] linked(e, p, y),
    decreases n - q,
{
    lemma_linked_refl(e, p);
    if !linked(e, p, q) {
        lemma_first_linked(e, p, q + 1, n);
    }
}

proof fn lemma_same_first_linked(e: spec_fn(int, int) -> bool, a: int, b: int, n: int)
    requires
        0 <= a < n,
        0 <= b < n,
    ensures
        (first_linked(e, a, 0, n) == first_linked(e, b, 0, n)) == linked(e, a, b),
{
    let ya = first_linked(e, a, 0, n);
    let yb = first_linked(e, b, 0, n);
    lemma_first_linked(e, a, 0, n);
    lemma_first_linked(e, b, 0, n);
    if linked(e, a, b) {
        lemma_linked_sym(e, a, b);
        lemma_linked_trans(e, b, a, ya);
        lemma_linked_trans(e, a, b, yb);
        assert(!(ya < yb)) by {
            if ya < yb {
                assert(!linked(e, b, ya));
            }
        }
        assert(!(yb < ya)) by {
            if yb < ya {
                assert(!linked(e, a, yb));
            }
        }
    }
    if ya == yb {
        lemma_linked_sym(e, b, yb);
        lemma_linked_trans(e, a, ya, b);
    }
}

proof fn lemma_members_contains(e: spec_fn(int, int) -> bool, n: int, m: nat, lead: int, x: int)
    ensures
        members(e, n, m, lead).contains(x) == (0 <= x < m && first_linked(e, x, 0, n) == lead),
    decreases m,
{
    if m > 0 {
        lemma_members_contains(e, n, (m - 1) as nat, lead, x);
        let prev = members(e, n, (m - 1) as nat, lead);
        let cur = members(e, n, m, lead);
        if prev.contains(x) {
            let w = choose|w: int| 0 <= w < prev.len() && prev[w] == x;
            assert(cur[w] == x);
        }
        if cur.contains(x) {
            let w = choose|w: int| 0 <= w < cur.len() && cur[w] == x;
            if w < prev.len() {
                assert(prev[w] == x);
            }
        }
        if x == m - 1 && first_linked(e, x, 0, n) == lead {
            assert(cur[prev.len() as int] == x);
        }
    }
}

proof fn lemma_leaders_contains(e: spec_fn(int, int) -> bool, n: int, m: nat, x: int)
    ensures
        leaders(e, n, m).contains(x) == (0 <= x < m && first_linked(e, x, 0, n) == x),
        forall|i: int, j: int| 0 <= i < j < leaders(e, n, m).len() ==> #[trigger] leaders(e, n, m)[i] < #[trigger] leaders(e, n, m)[j],
        forall|i: int| 0 <= i < leaders(e, n, m).len() ==> 0 <= #[trigger] leaders(e, n, m)[i] < m,
    decreases m,
{
    if m > 0 {
        lemma_leaders_contains(e, n, (m - 1) as nat, x);
        let prev = leaders(e, n, (m - 1) as nat);
        let cur = leaders(e, n, m);
        if prev.contains(x) {
            let w = choose|w: int| 0 <= w < prev.len() && prev[w] == x;
            assert(cur[w] == x);
        }
        if cur.contains(x) {
            let w = choose|w: int| 0 <= w < cur.len() && cur[w] == x;
            if w < prev.len() {
                assert(prev[w] == x);
            }
        }
        if x == m - 1 && first_linked(e, x, 0, n) == x {
            assert(cur[prev.len() as int] == x);
        }
        assert forall|i: int| 0 <= i < cur.len() implies 0 <= #[trigger] cur[i] < m by {
            if i < prev.len() {
                assert(cur[i] == prev[i]);
            }
        }
        assert forall|i: int, j: int| 0 <= i < j < cur.len() implies #[trigger] cur[i] < #[trigger] cur[j] by {
            assert(cur[i] == prev[i]);
            if j < prev.len() {
                assert(cur[j] == prev[j]);
            }
        }
    }
}

/// The sweep positions of the paths of group `k` of `line_clusters(lines)`.
pub open spec fn group_positions(lines: Seq<PathContent>, k: int) -> Seq<int> {
    let sw = sweep_order(lines);
    let e = sweep_edges(lines, sw);
    members(e, sw.len() as int, sw.len(), leaders(e, sw.len() as int, sw.len())[k])
}

/// Whether sweep position `p` lies in one of the groups.
pub open spec fn in_some_group(lines: Seq<PathContent>, p: int) -> bool {
    exists|k: int| 0 <= k < line_clusters(lines).len() && #[trigger] group_positions(lines, k).contains(p)
}

/// The groups are the connected parts of the grown-box overlap relation:
/// group `k` holds the paths at its sweep positions; every sweep position
/// lies in some group; two positions in one group are linked by a chain of
/// overlapping grown boxes; positions in different groups are not.
pub proof fn lemma_groups_partition(lines: Seq<PathContent>)
    ensures
        forall|k: int|
            0 <= k < line_clusters(lines).len() ==> (#[trigger] line_clusters(lines)[k]).lines == group_positions(
                lines,
                k,
            ).map_values(|p: int| sweep_order(lines)[p]),
        forall|p: int| 0 <= p < sweep_order(lines).len() ==> #[trigger] in_some_group(lines, p),
        forall|k: int, a: int, b: int|
            0 <= k < line_clusters(lines).len() && #[trigger] group_positions(lines, k).contains(a)
                && #[trigger] group_positions(lines, k).contains(b) ==> linked(
                sweep_edges(lines, sweep_order(lines)),
                a,
                b,
            ),
        forall|k1: int, k2: int, a: int, b: int|
            0 <= k1 < line_clusters(lines).len() && 0 <= k2 < line_clusters(lines).len() && k1 != k2
                && #[trigger] group_positions(lines, k1).contains(a) && #[trigger] group_positions(lines, k2).contains(b)
                ==> !linked(sweep_edges(lines, sweep_order(lines)), a, b),
{
    let sw = sweep_order(lines);
    let e = sweep_edges(lines, sw);
    let n = sw.len() as int;
    let ls = leaders(e, n, sw.len());
    let cs = line_clusters(lines);
    assert(cs.len() == ls.len());
    assert forall|k: int| 0 <= k < cs.len() implies (#[trigger] cs[k]).lines == group_positions(lines, k).map_values(
        |p: int| sw[p],
    ) by {}
    assert forall|p: int| 0 <= p < n implies #[trigger] in_some_group(lines, p) by {
        let lead = first_linked(e, p, 0, n);
        lemma_first_linked(e, p, 0, n);
        lemma_same_first_linked(e, p, lead, n);
        lemma_leaders_contains(e, n, sw.len(), lead);
        let k = choose|k: int| 0 <= k < ls.len() && ls[k] == lead;
        lemma_members_contains(e, n, sw.len(), lead, p);
        assert(group_positions(lines, k).contains(p));
    }
    assert forall|k: int, a: int, b: int|
        0 <= k < cs.len() && #[trigger] group_positions(lines, k).contains(a) && #[trigger] group_positions(lines, k).contains(b)
            implies linked(e, a, b) by {
        lemma_members_contains(e, n, sw.len(), ls[k], a);
        lemma_members_contains(e, n, sw.len(), ls[k], b);
        lemma_same_first_linked(e, a, b, n);
    }
    assert forall|k1: int, k2: int, a: int, b: int|
        0 <= k1 < cs.len() && 0 <= k2 < cs.len() && k1 != k2 && #[trigger] group_positions(lines, k1).contains(a)
            && #[trigger] group_positions(lines, k2).contains(b) implies !linked(e, a, b) by {
        lemma_members_contains(e, n, sw.len(), ls[k1], a);
        lemma_members_contains(e, n, sw.len(), ls[k2], b);
        lemma_leaders_contains(e, n, sw.len(), 0);
        lemma_same_first_linked(e, a, b, n);
        if k1 < k2 {
            assert(ls[k1] < ls[k2]);
        } else {
            assert(ls[k2] < ls[k1]);
        }
    }
}

/// The overlap relation on the paths themselves: two different
/// table-bounding paths whose grown boxes overlap.
pub open spec fn line_meet(lines: Seq<PathContent>) -> spec_fn(int, int) -> bool {
    |u: int, v: int|
        0 <= u < lines.len() && 0 <= v < lines.len() && u != v && lines[u].spec_is_table_primitive()
            && lines[v].spec_is_table_primitive() && grown_meet(lines[u].bbox, lines[v].bbox)
}

proof fn lemma_primitive_lines_exact(lines: Seq<PathContent>, n: nat)
    requires
        n <= lines.len(),
        lines.len() <= usize::MAX,
    ensures
        forall|x: usize|
            #[trigger] primitive_lines(lines, n).contains(x) <==> (x < n && lines[x as int].spec_is_table_primitive()),
        forall|a: int, b: int|
            0 <= a < b < primitive_lines(lines, n).len() ==> #[trigger] primitive_lines(lines, n)[a]
                < #[trigger] primitive_lines(lines, n)[b],
    decreases n,
{
    if n > 0 {
        let m = (n - 1) as nat;
        lemma_primitive_lines_exact(lines, m);
        lemma_primitive_lines_below(lines, m);
        let p = primitive_lines(lines, m);
        let q = primitive_lines(lines, n);
        assert forall|x: usize| #[trigger] q.contains(x) <==> (x < n && lines[x as int].spec_is_table_primitive()) by {
            if q.contains(x) {
                let k = choose|k: int| 0 <= k < q.len() && q[k] == x;
                if k < p.len() {
                    assert(p[k] == x);
                    assert(p.contains(x));
                }
            }
            if x < n && lines[x as int].spec_is_table_primitive() {
                if x < m {
                    assert(p.contains(x));
                    let k = choose|k: int| 0 <= k < p.len() && p[k] == x;
                    assert(q[k] == x);
                } else {
                    assert(q[p.len() as int] == x);
                }
            }
        }
        assert forall|a: int, b: int| 0 <= a < b < q.len() implies #[trigger] q[a] < #[trigger] q[b] by {
            assert(q[a] == p[a]);
            if b < p.len() {
                assert(q[b] == p[b]);
            }
        }
    }
}

/// The sweep visits each table-bounding path exactly once.
proof fn lemma_sweep_exact(lines: Seq<PathContent>)
    requires
        lines.len() <= usize::MAX,
    ensures
        forall|x: usize|
            #[trigger] sweep_order(lines).contains(x) <==> (x < lines.len() && lines[x as int].spec_is_table_primitive()),
        forall|a: int, b: int|
            0 <= a < sweep_order(lines).len() && 0 <= b < sweep_order(lines).len() && a != b ==> #[trigger] sweep_order(
                lines,
            )[a] != #[trigger] sweep_order(lines)[b],
{
    let v = primitive_lines(lines, lines.len());
    lemma_primitive_lines_exact(lines, lines.len());
    lemma_primitive_lines_below(lines, lines.len());
    let keys = lefts_of(lines, v);
    crate::order::lemma_stable_order(keys, keys.len());
    let o = sorted_order(keys);
    let sw = sweep_order(lines);
    assert forall|x: usize| #[trigger] sw.contains(x) <==> (x < lines.len() && lines[x as int].spec_is_table_primitive()) by {
        if sw.contains(x) {
            let k = choose|k: int| 0 <= k < sw.len() && sw[k] == x;
            assert(o[k] < v.len());
            assert(v[o[k] as int] == x);
            assert(v.contains(x));
        }
        if x < lines.len() && lines[x as int].spec_is_table_primitive() {
            assert(v.contains(x));
            let w = choose|w: int| 0 <= w < v.len() && v[w] == x;
            crate::order::lemma_order_onto(o, v.len(), w);
            let k = choose|k: int| 0 <= k < v.len() && o[k] == w;
            assert(sw[k] == x);
        }
    }
    assert forall|a: int, b: int| 0 <= a < sw.len() && 0 <= b < sw.len() && a != b implies #[trigger] sw[a]
        != #[trigger] sw[b] by {
        assert(o[a] != o[b]);
        assert(o[a] < v.len() && o[b] < v.len());
        if o[a] < o[b] {
            assert(v[o[a] as int] < v[o[b] as int]);
        } else {
            assert(v[o[b] as int] < v[o[a] as int]);
        }
    }
}

/// The sweep position of path `x`.
pub open spec fn sweep_pos(lines: Seq<PathContent>, x: int) -> int {
    choose|p: int| 0 <= p < sweep_order(lines).len() && sweep_order(lines)[p] == x
}

/// The groups are the connected parts of the overlap relation on the paths:
/// every path in a group bounds tables; every table-bounding path lies in a
/// group; two paths lie in one group exactly when a chain of paths, each
/// grown box overlapping the next, links them.
pub proof fn lemma_clusters_are_components(lines: Seq<PathContent>)
    requires
        lines.len() <= usize::MAX,
    ensures
        forall|k: int, x: usize|
            0 <= k < line_clusters(lines).len() && #[trigger] line_clusters(lines)[k].lines.contains(x) ==> x
                < lines.len() && lines[x as int].spec_is_table_primitive(),
        forall|x: int|
            0 <= x < lines.len() && (#[trigger] lines[x]).spec_is_table_primitive() ==> exists|k: int|
                0 <= k < line_clusters(lines).len() && #[trigger] line_clusters(lines)[k].lines.contains(x as usize),
        forall|k1: int, k2: int, x: usize, y: usize|
            0 <= k1 < line_clusters(lines).len() && 0 <= k2 < line_clusters(lines).len()
                && #[trigger] line_clusters(lines)[k1].lines.contains(x) && #[trigger] line_clusters(lines)[k2].lines.contains(y)
                ==> ((k1 == k2) == linked(line_meet(lines), x as int, y as int)),
{
    let sw = sweep_order(lines);
    let e = sweep_edges(lines, sw);
    let f = line_meet(lines);
    let cs = line_clusters(lines);
    lemma_sweep_exact(lines);
    lemma_groups_partition(lines);
    let to_line = |p: int| sw[p] as int;
    let to_pos = |x: int| sweep_pos(lines, x);
    assert forall|i: int, j: int| #[trigger] e(i, j) implies joins(f, to_line(i), to_line(j)) by {
        assert(sw.contains(sw[i]));
        assert(sw.contains(sw[j]));
        assert(sw[i] != sw[j]);
        assert(f(sw[i] as int, sw[j] as int));
    }
    assert forall|u: int, v: int| #[trigger] f(u, v) implies joins(e, to_pos(u), to_pos(v)) by {
        assert(sw.contains(u as usize));
        assert(sw.contains(v as usize));
        let pu = sweep_pos(lines, u);
        let pv = sweep_pos(lines, v);
        assert(sw[pu] == u && sw[pv] == v);
        assert(pu != pv);
    }
    assert forall|k: int, x: usize| 0 <= k < cs.len() && #[trigger] cs[k].lines.contains(x) implies x < lines.len()
        && lines[x as int].spec_is_table_primitive() by {
        let gp = group_positions(lines, k);
        let w = choose|w: int| 0 <= w < cs[k].lines.len() && cs[k].lines[w] == x;
        assert(cs[k].lines[w] == sw[gp[w]]);
        lemma_group_positions_in_range(lines, k);
        assert(sw.contains(x));
    }
    assert forall|x: int| 0 <= x < lines.len() && (#[trigger] lines[x]).spec_is_table_primitive() implies exists|k: int|
        0 <= k < cs.len() && #[trigger] cs[k].lines.contains(x as usize) by {
        assert(sw.contains(x as usize));
        let p = sweep_pos(lines, x);
        assert(in_some_group(lines, p));
        let k = choose|k: int| 0 <= k < cs.len() && #[trigger] group_positions(lines, k).contains(p);
        let gp = group_positions(lines, k);
        let w = choose|w: int| 0 <= w < gp.len() && gp[w] == p;
        assert(cs[k].lines[w] == sw[p]);
        assert(cs[k].lines.contains(x as usize));
    }
    assert forall|k1: int, k2: int, x: usize, y: usize|
        0 <= k1 < cs.len() && 0 <= k2 < cs.len() && #[trigger] cs[k1].lines.contains(x) && #[trigger] cs[k2].lines.contains(
            y,
        ) implies ((k1 == k2) == linked(f, x as int, y as int)) by {
        let g1 = group_positions(lines, k1);
        let g2 = group_positions(lines, k2);
        lemma_group_positions_in_range(lines, k1);
        lemma_group_positions_in_range(lines, k2);
        let w1 = choose|w: int| 0 <= w < cs[k1].lines.len() && cs[k1].lines[w] == x;
        let w2 = choose|w: int| 0 <= w < cs[k2].lines.len() && cs[k2].lines[w] == y;
        let a = g1[w1];
        let b = g2[w2];
        assert(sw[a] == x && sw[b] == y);
        assert(g1.contains(a));
        assert(g2.contains(b));
        assert(sw.contains(x));
        assert(sw.contains(y));
        let pa = sweep_pos(lines, x as int);
        let pb = sweep_pos(lines, y as int);
        assert(pa == a) by {
            if pa != a {
                assert(sw[pa] != sw[a]);
            }
        }
        assert(pb == b) by {
            if pb != b {
                assert(sw[pb] != sw[b]);
            }
        }
        if k1 == k2 {
            assert(linked(e, a, b));
            crate::connect::lemma_linked_map(e, f, to_line, a, b);
        } else {
            assert(!linked(e, a, b));
            if linked(f, x as int, y as int) {
                crate::connect::lemma_linked_map(f, e, to_pos, x as int, y as int);
            }
        }
    }
}

proof fn lemma_group_positions_in_range(lines: Seq<PathContent>, k: int)
    requires
        0 <= k < line_clusters(lines).len(),
    ensures
        forall|w: int|
            0 <= w < group_positions(lines, k).len() ==> 0 <= #[trigger] group_positions(lines, k)[w]
                < sweep_order(lines).len(),
{
    let sw = sweep_order(lines);
    let e = sweep_edges(lines, sw);
    let n = sw.len() as int;
    let lead = leaders(e, n, sw.len())[k];
    let gp = group_positions(lines, k);
    assert forall|w: int| 0 <= w < gp.len() implies 0 <= #[trigger] gp[w] < n by {
        assert(gp.contains(gp[w]));
        lemma_members_contains(e, n, sw.len(), lead, gp[w]);
    }
}

} // verus!
