//! Layered (Sugiyama-style) layout of a flowchart, one subgraph level at a
//! time: layering, long-edge splitting into dummy nodes, crossing
//! reduction by barycenters, coordinate assignment.
//!
//! Coordinates are sums of box sizes and gaps; they are added with
//! saturating arithmetic.
use vstd::prelude::*;
use vstd::string::*;
use crate::graph::{
    ArrowTip, Direction, Edge, EdgeStyle, Graph, Node, NodeId, Shape, SubgraphId, vertical,
    in_chain, lines_view, opt_view,
};
use crate::style::{Style, empty_style};
use crate::text::{char_count, push_dec};

verus! {

// LR-only: horizontal `─` padding on each side of an inline edge label.
pub const LR_LABEL_PAD: usize = 2;

// Inner padding of subgraph containers; the renderer draws the container
// border with the same padding.
pub const CONTAINER_PAD_X: usize = 2;

pub const CONTAINER_PAD_TOP: usize = 2;

pub const CONTAINER_PAD_BOTTOM: usize = 1;

/// Within-layer packing gap: 4 columns in TD/BT, 3 rows in LR/RL.
pub open spec fn gap_of(dir: Direction) -> usize {
    if vertical(dir) {
        4
    } else {
        3
    }
}

fn minor_gap(dir: Direction) -> (r: usize)
    ensures
        r == gap_of(dir),
{
    if dir.is_vertical() {
        4
    } else {
        3
    }
}

// ---------------------------------------------------------------------------
// Node sizes.
/// Widest label line, in characters.
pub open spec fn label_width(lines: Seq<String>, n: int) -> nat
    decreases n,
{
    if n <= 0 {
        0
    } else {
        let w = label_width(lines, n - 1);
        if lines[n - 1]@.len() > w {
            lines[n - 1]@.len()
        } else {
            w
        }
    }
}

/// Box width of a node: widest label line, the padding on both sides and
/// two border columns.
pub open spec fn box_width(n: Node, padding: usize) -> int {
    label_width(n.label_lines@, n.label_lines.len() as int) + 2 * padding + 2
}

/// Box height of a node: its label lines and two border rows.
pub open spec fn box_height(n: Node) -> int {
    n.label_lines.len() + 2
}

/// Box sizes of every real node fit in `usize`.
pub open spec fn dims_fit(g: Graph, padding: usize) -> bool {
    forall|i: int|
        0 <= i < g.nodes.len() && !(#[trigger] g.nodes@[i]).is_dummy ==> box_width(
            g.nodes@[i],
            padding,
        ) <= usize::MAX && box_height(g.nodes@[i]) <= usize::MAX
}

fn label_width_exec(lines: &Vec<String>) -> (w: usize)
    ensures
        w == label_width(lines@, lines.len() as int),
{
    let mut w: usize = 0;
    let mut i: usize = 0;
    while i < lines.len()
        invariant
            i <= lines.len(),
            w == label_width(lines@, i as int),
        decreases lines.len() - i,
    {
        let c = char_count(&lines[i]);
        if c > w {
            w = c;
        }
        i += 1;
    }
    w
}

/// Whether every real node's box size fits in `usize` for this padding.
pub fn dims_fit_exec(g: &Graph, padding: usize) -> (r: bool)
    ensures
        r == dims_fit(*g, padding),
{
    let mut i: usize = 0;
    while i < g.nodes.len()
        invariant
            i <= g.nodes.len(),
            forall|k: int|
                0 <= k < i && !(#[trigger] g.nodes@[k]).is_dummy ==> box_width(g.nodes@[k], padding)
                    <= usize::MAX && box_height(g.nodes@[k]) <= usize::MAX,
        decreases g.nodes.len() - i,
    {
        if !g.nodes[i].is_dummy {
            let lw = label_width_exec(&g.nodes[i].label_lines);
            if padding > (usize::MAX - 2) / 2 || lw > usize::MAX - 2 - 2 * padding {
                return false;
            }
            if g.nodes[i].label_lines.len() > usize::MAX - 2 {
                return false;
            }
        }
        i += 1;
    }
    true
}

/// Sizes every node: real nodes from their label, dummies 1x1.
fn compute_node_dims(g: &mut Graph, padding: usize)
    requires
        old(g).shape_ok(),
        dims_fit(*old(g), padding),
    ensures
        final(g).shape_ok(),
        same_except_dims(old(g).nodes@, final(g).nodes@),
        final(g).edges@ == old(g).edges@,
        final(g).subgraphs@ == old(g).subgraphs@,
        final(g).class_defs@ == old(g).class_defs@,
        final(g).dir == old(g).dir,
        forall|i: int|
            0 <= i < final(g).nodes.len() ==> if (#[trigger] final(g).nodes@[i]).is_dummy {
                final(g).nodes@[i].width == 1 && final(g).nodes@[i].height == 1
            } else {
                final(g).nodes@[i].width == box_width(old(g).nodes@[i], padding)
                    && final(g).nodes@[i].height == box_height(old(g).nodes@[i])
            },
{
    let mut i: usize = 0;
    while i < g.nodes.len()
        invariant
            i <= g.nodes.len(),
            g.shape_ok(),
            same_except_dims(old(g).nodes@, g.nodes@),
            g.edges@ == old(g).edges@,
            g.subgraphs@ == old(g).subgraphs@,
            g.class_defs@ == old(g).class_defs@,
            g.dir == old(g).dir,
            old(g).shape_ok(),
            dims_fit(*old(g), padding),
            forall|k: int|
                0 <= k < i ==> if (#[trigger] g.nodes@[k]).is_dummy {
                    g.nodes@[k].width == 1 && g.nodes@[k].height == 1
                } else {
                    g.nodes@[k].width == box_width(old(g).nodes@[k], padding) && g.nodes@[k].height
                        == box_height(old(g).nodes@[k])
                },
        decreases g.nodes.len() - i,
    {
        if g.nodes[i].is_dummy {
            g.nodes[i].width = 1;
            g.nodes[i].height = 1;
        } else {
            let lw = label_width_exec(&g.nodes[i].label_lines);
            let h = g.nodes[i].label_lines.len() + 2;
            g.nodes[i].width = lw + 2 * padding + 2;
            g.nodes[i].height = h;
        }
        proof {
            lemma_wf_dims(old(g).nodes@, g.nodes@, *g);
        }
        i += 1;
    }
}

/// The nodes differ at most in their sizes and positions.
pub open spec fn same_except_dims(a: Seq<Node>, b: Seq<Node>) -> bool {
    &&& a.len() == b.len()
    &&& forall|i: int|
        0 <= i < a.len() ==> {
            &&& (#[trigger] b[i]).id == a[i].id
            &&& b[i].name == a[i].name
            &&& b[i].label_lines == a[i].label_lines
            &&& b[i].is_dummy == a[i].is_dummy
            &&& b[i].shape == a[i].shape
            &&& b[i].style == a[i].style
            &&& b[i].subgraph == a[i].subgraph
        }
}

proof fn lemma_wf_dims(a: Seq<Node>, b: Seq<Node>, g: Graph)
    requires
        g.nodes@ == b,
        same_except_dims(a, b),
        forall|i: int| 0 <= i < a.len() ==> (#[trigger] a[i]).id == i && (a[i].subgraph matches Some(s) ==> s < g.subgraphs.len()),
        forall|i: int|
            0 <= i < g.edges.len() ==> (#[trigger] g.edges@[i]).from < a.len() && g.edges@[i].to
                < a.len(),
        forall|j: int|
            0 <= j < g.subgraphs.len() ==> ((#[trigger] g.subgraphs@[j]).parent matches Some(p) ==> p
                < j),
    ensures
        g.shape_ok(),
{
    assert forall|i: int| 0 <= i < b.len() implies (#[trigger] b[i]).id == i && (
    b[i].subgraph matches Some(s) ==> s < g.subgraphs.len()) by {
        assert(a[i].id == b[i].id);
    }
}

// ---------------------------------------------------------------------------
// Subgraph tree walks.
/// `x` lies in `out[..n]`.
pub open spec fn listed(out: Seq<usize>, x: usize) -> bool {
    out.contains(x)
}

/// Every listed subgraph has all its child subgraphs listed before it.
pub open spec fn children_first(subs: Seq<crate::graph::Subgraph>, out: Seq<usize>) -> bool {
    &&& forall|k: int| 0 <= k < out.len() ==> #[trigger] out[k] < subs.len()
    &&& forall|k: int, c: int|
        0 <= k < out.len() && 0 <= c < subs.len() && (#[trigger] subs[c]).parent == Some(
            #[trigger] out[k],
        ) ==> exists|m: int| 0 <= m < k && out[m] == c
}

/// State of the depth-first walk: listed subgraphs are visited, and a
/// visited subgraph that is not listed yet is an ancestor-or-self of `top`
/// (it is on the walk's stack).
pub open spec fn walk_ok(
    subs: Seq<crate::graph::Subgraph>,
    visited: Seq<bool>,
    out: Seq<usize>,
    top: Option<usize>,
) -> bool {
    &&& visited.len() == subs.len()
    &&& children_first(subs, out)
    &&& forall|k: int| 0 <= k < out.len() ==> visited[#[trigger] out[k] as int]
    &&& forall|x: int|
        0 <= x < subs.len() && #[trigger] visited[x] && !out.contains(x as usize) ==> (match top {
            Some(t) => in_chain(subs, Some(t), x as usize),
            None => false,
        })
}

proof fn lemma_in_chain_le(subs: Seq<crate::graph::Subgraph>, cur: Option<usize>, sid: usize)
    requires
        in_chain(subs, cur, sid),
    ensures
        cur matches Some(s) && sid <= s,
    decreases (match cur {
        Some(s) => s + 1,
        None => 0,
    }),
{
    match cur {
        None => {},
        Some(s) => {
            if s != sid {
                let p = subs[s as int].parent->0;
                lemma_in_chain_le(subs, Some(p), sid);
            }
        },
    }
}

/// Post-order from `sid`: children (in id order) before their parent.
fn visit_post(g: &Graph, sid: SubgraphId, visited: &mut Vec<bool>, out: &mut Vec<SubgraphId>)
    requires
        g.shape_ok(),
        sid < g.subgraphs.len(),
        walk_ok(g.subgraphs@, old(visited)@, old(out)@, g.subgraphs@[sid as int].parent),
    ensures
        walk_ok(g.subgraphs@, final(visited)@, final(out)@, g.subgraphs@[sid as int].parent),
        final(out)@.contains(sid),
        forall|x: int| 0 <= x < old(out)@.len() ==> final(out)@[x] == old(out)@[x],
        final(out)@.len() >= old(out)@.len(),
        forall|x: int| 0 <= x < g.subgraphs.len() && old(visited)@[x] ==> #[trigger] final(visited)@[x],
        forall|k: int|
            old(out)@.len() <= k < final(out)@.len() ==> !old(visited)@[#[trigger] final(out)@[k] as int],
    decreases g.subgraphs.len() - sid,
{
    if visited[sid] {
        proof {
            // A visited subgraph that is not listed would be an ancestor of
            // its own parent.
            if !out@.contains(sid) {
                match g.subgraphs@[sid as int].parent {
                    Some(p) => {
                        lemma_in_chain_le(g.subgraphs@, Some(p), sid);
                    },
                    None => {},
                }
            }
        }
        return ;
    }
    visited.set(sid, true);
    let n = g.subgraphs.len();
    let mut cid: usize = 0;
    while cid < n
        invariant
            n == g.subgraphs.len(),
            g.shape_ok(),
            sid < n,
            cid <= n,
            visited@[sid as int],
            old(visited)@.len() == n,
            !old(visited)@[sid as int],
            forall|k: int|
                old(out)@.len() <= k < out@.len() ==> !old(visited)@[#[trigger] out@[k] as int] && out@[k] != sid,
            walk_ok(g.subgraphs@, visited@, out@, Some(sid)),
            forall|x: int| 0 <= x < old(out)@.len() ==> out@[x] == old(out)@[x],
            out@.len() >= old(out)@.len(),
            forall|x: int| 0 <= x < n && old(visited)@[x] ==> #[trigger] visited@[x],
            forall|c: int|
                0 <= c < cid && (#[trigger] g.subgraphs@[c]).parent == Some(sid) ==> out@.contains(
                    c as usize,
                ),
        decreases n - cid,
    {
        if g.subgraphs[cid].parent == Some(sid) {
            visit_post(g, cid, visited, out);
        }
        cid += 1;
    }
    let ghost out1 = out@;
    out.push(sid);
    proof {
        assert(!old(out)@.contains(sid));
        assert(!out1.contains(sid)) by {
            if out1.contains(sid) {
                let m = choose|m: int| 0 <= m < out1.len() && out1[m] == sid;
                if m < old(out)@.len() {
                    assert(old(out)@[m] == sid);
                }
            }
        }
        assert forall|k: int| 0 <= k < out@.len() implies visited@[#[trigger] out@[k] as int] by {
            if k < out1.len() {
                assert(out@[k] == out1[k]);
            }
        }
        assert forall|k: int, c: int|
            0 <= k < out@.len() && 0 <= c < g.subgraphs.len() && (#[trigger] g.subgraphs@[c]).parent
                == Some(#[trigger] out@[k]) implies exists|m: int| 0 <= m < k && out@[m] == c by {
            if k < out1.len() {
                assert(out@[k] == out1[k]);
                let m = choose|m: int| 0 <= m < k && out1[m] == c;
                assert(out@[m] == out1[m]);
            } else {
                assert(out1.contains(c as usize));
                let m = choose|m: int| 0 <= m < out1.len() && out1[m] == c as usize;
                assert(out@[m] == out1[m]);
            }
        }
        assert forall|x: int|
            0 <= x < g.subgraphs.len() && #[trigger] visited@[x] && !out@.contains(
                x as usize,
            ) implies (match g.subgraphs@[sid as int].parent {
            Some(t) => in_chain(g.subgraphs@, Some(t), x as usize),
            None => false,
        }) by {
            assert(!out1.contains(x as usize)) by {
                if out1.contains(x as usize) {
                    let m = choose|m: int| 0 <= m < out1.len() && out1[m] == x as usize;
                    assert(out@[m] == out1[m]);
                }
            }
            assert(in_chain(g.subgraphs@, Some(sid), x as usize));
            assert(x != sid) by {
                assert(out@[out1.len() as int] == sid);
            }
        }
        assert(out@[out1.len() as int] == sid);
    }
}

/// Every subgraph, children before their parents.
fn subgraph_post_order(g: &Graph) -> (order: Vec<SubgraphId>)
    requires
        g.shape_ok(),
    ensures
        children_first(g.subgraphs@, order@),
        forall|s: usize| s < g.subgraphs.len() ==> #[trigger] order@.contains(s),
{
    let n = g.subgraphs.len();
    let mut order: Vec<SubgraphId> = Vec::new();
    let mut visited: Vec<bool> = Vec::new();
    let mut k: usize = 0;
    while k < n
        invariant
            k <= n,
            visited.len() == k,
            forall|x: int| 0 <= x < k ==> !visited@[x],
        decreases n - k,
    {
        visited.push(false);
        k += 1;
    }
    let mut root: usize = 0;
    while root < n
        invariant
            n == g.subgraphs.len(),
            g.shape_ok(),
            root <= n,
            walk_ok(g.subgraphs@, visited@, order@, None),
            forall|r: int|
                0 <= r < root && (#[trigger] g.subgraphs@[r]).parent is None ==> order@.contains(
                    r as usize,
                ),
        decreases n - root,
    {
        if g.subgraphs[root].parent.is_none() {
            let ghost before = order@;
            visit_post(g, root, &mut visited, &mut order);
            proof {
                assert forall|r: int|
                    0 <= r < root && (#[trigger] g.subgraphs@[r]).parent is None implies order@.contains(
                    r as usize,
                ) by {
                    let m = choose|m: int| 0 <= m < before.len() && before[m] == r as usize;
                    assert(order@[m] == before[m]);
                }
            }
        }
        root += 1;
    }
    proof {
        assert forall|s: usize| s < n implies #[trigger] order@.contains(s) by {
            lemma_all_listed(g.subgraphs@, order@, s as int);
        }
    }
    // Defensive: any disconnected subgraphs.
    let mut sid: usize = 0;
    while sid < n
        invariant
            n == g.subgraphs.len(),
            g.shape_ok(),
            sid <= n,
            walk_ok(g.subgraphs@, visited@, order@, None),
            forall|s: usize| s < n ==> #[trigger] order@.contains(s),
        decreases n - sid,
    {
        if !visited[sid] {
            proof {
                assert(order@.contains(sid));
                let m = choose|m: int| 0 <= m < order@.len() && order@[m] == sid;
                assert(visited@[order@[m] as int]);
                assert(false);
            }
            visit_post(g, sid, &mut visited, &mut order);
        }
        sid += 1;
    }
    order
}

proof fn lemma_all_listed(subs: Seq<crate::graph::Subgraph>, out: Seq<usize>, s: int)
    requires
        children_first(subs, out),
        forall|r: int| 0 <= r < subs.len() && (#[trigger] subs[r]).parent is None ==> out.contains(
            r as usize,
        ),
        forall|j: int| 0 <= j < subs.len() ==> ((#[trigger] subs[j]).parent matches Some(p) ==> p < j),
        0 <= s < subs.len(),
    ensures
        out.contains(s as usize),
    decreases s,
{
    match subs[s].parent {
        None => {},
        Some(p) => {
            lemma_all_listed(subs, out, p as int);
            let k = choose|k: int| 0 <= k < out.len() && out[k] == p;
            assert(subs[s].parent == Some(out[k]));
            let m = choose|m: int| 0 <= m < k && out[m] == s;
            assert(out[m] == s as usize);
        },
    }
}


// ---------------------------------------------------------------------------
// Per-level layout state.
/// Item in a scope: one row of layout state, indexed by slice-local id.
#[derive(Debug, Clone, Copy)]
pub enum Item {
    /// Backed by `g.nodes[node]`.
    Real { node: NodeId },
    /// Represents a child subgraph as a single box.
    Meta { sub: SubgraphId },
    /// Pass-through inserted for long edges; becomes a dummy node.
    Dummy,
}

pub struct SliceEdge {
    /// Slice-local indices (into `Scope::items`).
    pub from: usize,
    pub to: usize,
    pub label: Option<String>,
    pub style: EdgeStyle,
    pub tip_fwd: ArrowTip,
    pub tip_back: bool,
    pub length: usize,
    /// Index into `g.edges` if this slice edge maps 1:1 to a graph edge.
    pub orig_g_edge: Option<usize>,
}

pub struct Scope {
    pub items: Vec<Item>,
    pub edges: Vec<SliceEdge>,
    pub widths: Vec<usize>,
    pub heights: Vec<usize>,
    pub layers: Vec<usize>,
    pub orders: Vec<usize>,
    pub xs: Vec<usize>,
    pub ys: Vec<usize>,
}

impl Scope {
    /// All per-item vectors have one entry per item and every edge joins
    /// two items.
    pub open spec fn wf(&self) -> bool {
        let n = self.items.len();
        &&& self.widths.len() == n
        &&& self.heights.len() == n
        &&& self.layers.len() == n
        &&& self.orders.len() == n
        &&& self.xs.len() == n
        &&& self.ys.len() == n
        &&& forall|e: int|
            0 <= e < self.edges.len() ==> (#[trigger] self.edges@[e]).from < n && self.edges@[e].to
                < n
    }

    fn new() -> (s: Self)
        ensures
            s.wf(),
            s.items.len() == 0,
            s.edges.len() == 0,
    {
        Scope {
            items: Vec::new(),
            edges: Vec::new(),
            widths: Vec::new(),
            heights: Vec::new(),
            layers: Vec::new(),
            orders: Vec::new(),
            xs: Vec::new(),
            ys: Vec::new(),
        }
    }

    fn push(&mut self, item: Item, w: usize, h: usize) -> (id: usize)
        requires
            old(self).wf(),
        ensures
            final(self).wf(),
            id == old(self).items.len(),
            final(self).items@ == old(self).items@.push(item),
            final(self).widths@ == old(self).widths@.push(w),
            final(self).heights@ == old(self).heights@.push(h),
            final(self).layers@ == old(self).layers@.push(0),
            final(self).orders@ == old(self).orders@.push(0),
            final(self).xs@ == old(self).xs@.push(0),
            final(self).ys@ == old(self).ys@.push(0),
            final(self).edges@ == old(self).edges@,
    {
        let id = self.items.len();
        self.items.push(item);
        self.widths.push(w);
        self.heights.push(h);
        self.layers.push(0);
        self.orders.push(0);
        self.xs.push(0);
        self.ys.push(0);
        id
    }

    fn len(&self) -> (n: usize)
        ensures
            n == self.items.len(),
    {
        self.items.len()
    }

    fn is_dummy(&self, i: usize) -> (r: bool)
        requires
            i < self.items.len(),
        ensures
            r == (self.items@[i as int] is Dummy),
    {
        match self.items[i] {
            Item::Dummy => true,
            _ => false,
        }
    }
}

// ---------------------------------------------------------------------------
// Layering: longest path from the sources, edges stretched by their length.
pub open spec fn seq_sum(s: Seq<usize>, n: int) -> nat
    decreases n,
{
    if n <= 0 {
        0
    } else {
        seq_sum(s, n - 1) + s[n - 1] as nat
    }
}

proof fn lemma_seq_sum_dec(s: Seq<usize>, i: int, n: int)
    requires
        0 <= i < n <= s.len(),
        s[i] > 0,
    ensures
        seq_sum(s.update(i, (s[i] - 1) as usize), n) + 1 == seq_sum(s, n),
    decreases n,
{
    if n - 1 > i {
        lemma_seq_sum_dec(s, i, n - 1);
    } else {
        lemma_seq_sum_same(s, s.update(i, (s[i] - 1) as usize), n - 1);
    }
}

proof fn lemma_seq_sum_same(a: Seq<usize>, b: Seq<usize>, n: int)
    requires
        0 <= n <= a.len(),
        n <= b.len(),
        forall|k: int| 0 <= k < n ==> a[k] == b[k],
    ensures
        seq_sum(a, n) == seq_sum(b, n),
    decreases n,
{
    if n > 0 {
        lemma_seq_sum_same(a, b, n - 1);
    }
}

/// The least layer an edge of length `len` from layer `layer` pushes its
/// target to (kept below `usize::MAX`, so that a layer count fits).
pub open spec fn reach(layer: usize, len: usize) -> int {
    if layer + len >= usize::MAX {
        usize::MAX - 1
    } else {
        layer + len
    }
}

/// `v`, or `usize::MAX` where it would pass it (a saturating sum).
pub open spec fn min_usize(v: int) -> int {
    if v >= usize::MAX {
        usize::MAX as int
    } else {
        v
    }
}

/// Rows (TD) or columns (LR) that a labelled edge needs between its
/// source's layer and the next: 4 for a vertical flow, else the label's
/// length plus 5 (saturating); an unlabelled edge needs the usual 2.
pub open spec fn label_gap(e: SliceEdge, vertical: bool) -> int {
    match e.label {
        Some(t) => if vertical {
            4
        } else {
            min_usize((t@.len() + 5) as int)
        },
        None => 2,
    }
}

/// Edge `e` ends at least its length past where it starts.
pub open spec fn layered_edge(edges: Seq<SliceEdge>, layers: Seq<usize>, e: int) -> bool {
    layers[edges[e].to as int] >= reach(layers[edges[e].from as int], edges[e].length)
}

/// Every item of `s` is the target of an edge whose source is in `s`: a
/// nonempty such set lies on a cycle or below one.
pub open spec fn fed_from_within(edges: Seq<SliceEdge>, s: Set<int>) -> bool {
    forall|u: int|
        s.contains(u) ==> exists|e: int|
            0 <= e < edges.len() && #[trigger] edges[e].to == u && s.contains(edges[e].from as int)
}

/// The edges form no cycle: no nonempty set of items is fed from within.
pub open spec fn acyclic(edges: Seq<SliceEdge>) -> bool {
    forall|s: Set<int>| #[trigger] fed_from_within(edges, s) ==> s.is_empty()
}

/// Edges among the first `m` that end at `v` and start outside `done`.
pub open spec fn pending_in(edges: Seq<SliceEdge>, v: int, done: Set<int>, m: int) -> nat
    decreases m,
{
    if m <= 0 {
        0
    } else {
        pending_in(edges, v, done, m - 1) + if edges[m - 1].to == v && !done.contains(
            edges[m - 1].from as int,
        ) {
            1nat
        } else {
            0nat
        }
    }
}

/// Target and length of the edges among the first `m` that start at `u`.
pub open spec fn out_entries(edges: Seq<SliceEdge>, u: int, m: int) -> Seq<(usize, usize)>
    decreases m,
{
    if m <= 0 {
        seq![]
    } else {
        out_entries(edges, u, m - 1) + if edges[m - 1].from == u {
            seq![(edges[m - 1].to, edges[m - 1].length)]
        } else {
            seq![]
        }
    }
}

/// Entries among the first `j` of `a` that point at `v`.
pub open spec fn count_to(a: Seq<(usize, usize)>, v: int, j: int) -> nat
    decreases j,
{
    if j <= 0 {
        0
    } else {
        count_to(a, v, j - 1) + if a[j - 1].0 == v {
            1nat
        } else {
            0nat
        }
    }
}

proof fn lemma_pending_le(edges: Seq<SliceEdge>, v: int, done: Set<int>, m: int)
    requires
        0 <= m,
    ensures
        pending_in(edges, v, done, m) <= m,
    decreases m,
{
    if m > 0 {
        lemma_pending_le(edges, v, done, m - 1);
    }
}

proof fn lemma_pending_pos(edges: Seq<SliceEdge>, v: int, done: Set<int>, m: int)
    requires
        0 <= m <= edges.len(),
        pending_in(edges, v, done, m) > 0,
    ensures
        exists|e: int| 0 <= e < m && #[trigger] edges[e].to == v && !done.contains(edges[e].from as int),
    decreases m,
{
    if !(edges[m - 1].to == v && !done.contains(edges[m - 1].from as int)) {
        lemma_pending_pos(edges, v, done, m - 1);
    }
}

proof fn lemma_count_to_prefix(a: Seq<(usize, usize)>, b: Seq<(usize, usize)>, v: int, j: int)
    requires
        0 <= j <= a.len(),
        j <= b.len(),
        forall|k: int| 0 <= k < j ==> a[k] == b[k],
    ensures
        count_to(a, v, j) == count_to(b, v, j),
    decreases j,
{
    if j > 0 {
        lemma_count_to_prefix(a, b, v, j - 1);
    }
}

proof fn lemma_count_to_mono(a: Seq<(usize, usize)>, v: int, j: int, k: int)
    requires
        0 <= j <= k,
    ensures
        count_to(a, v, j) <= count_to(a, v, k),
    decreases k - j,
{
    if j < k {
        lemma_count_to_mono(a, v, j, k - 1);
    }
}

/// Marking `u` done takes its out-edges off every pending count.
proof fn lemma_pending_done(edges: Seq<SliceEdge>, v: int, done: Set<int>, u: int, m: int)
    requires
        0 <= m <= edges.len(),
        !done.contains(u),
    ensures
        pending_in(edges, v, done, m) == pending_in(edges, v, done.insert(u), m) + count_to(
            out_entries(edges, u, m),
            v,
            out_entries(edges, u, m).len() as int,
        ),
    decreases m,
{
    if m > 0 {
        lemma_pending_done(edges, v, done, u, m - 1);
        let a = out_entries(edges, u, m - 1);
        let b = out_entries(edges, u, m);
        lemma_count_to_prefix(a, b, v, a.len() as int);
    }
}

/// Each out-edge of `u` among the first `m` has its entry.
proof fn lemma_out_entries_has(edges: Seq<SliceEdge>, u: int, m: int, e: int)
    requires
        0 <= e < m <= edges.len(),
        edges[e].from == u,
    ensures
        exists|k: int|
            0 <= k < out_entries(edges, u, m).len() && #[trigger] out_entries(edges, u, m)[k] == (
                edges[e].to,
                edges[e].length,
            ),
    decreases m,
{
    let a = out_entries(edges, u, m - 1);
    let b = out_entries(edges, u, m);
    if e == m - 1 {
        assert(b[a.len() as int] == (edges[e].to, edges[e].length));
    } else {
        lemma_out_entries_has(edges, u, m - 1, e);
        let k = choose|k: int| 0 <= k < a.len() && #[trigger] a[k] == (edges[e].to, edges[e].length);
        assert(b[k] == a[k]);
    }
}

/// Every entry of `u`'s out-list is an edge.
proof fn lemma_out_entries_valid(edges: Seq<SliceEdge>, u: int, m: int, n: int)
    requires
        0 <= m <= edges.len(),
        forall|e: int| 0 <= e < edges.len() ==> (#[trigger] edges[e]).to < n,
    ensures
        forall|k: int| 0 <= k < out_entries(edges, u, m).len() ==> (#[trigger] out_entries(edges, u, m)[k]).0 < n,
    decreases m,
{
    if m > 0 {
        lemma_out_entries_valid(edges, u, m - 1, n);
        let a = out_entries(edges, u, m - 1);
        let b = out_entries(edges, u, m);
        assert forall|k: int| 0 <= k < b.len() implies (#[trigger] b[k]).0 < n by {
            if k < a.len() {
                assert(b[k] == a[k]);
            }
        }
    }
}

/// A set fed from within that has no cycle to lie on is empty.
pub proof fn law_acyclic_layered(edges: Seq<SliceEdge>, layers: Seq<usize>, stuck: Set<int>)
    requires
        acyclic(edges),
        fed_from_within(edges, stuck),
        forall|e: int| 0 <= e < edges.len() && !stuck.contains(edges[e].from as int) ==> layered_edge(edges, layers, e),
    ensures
        forall|e: int| 0 <= e < edges.len() ==> layered_edge(edges, layers, e),
{
    assert(stuck.is_empty());
}

/// Longest-path layering (Kahn's order with a LIFO queue): an edge
/// `u -> v` of length `len` pushes `v` to at least `layer(u) + len`.
/// Items on a cycle, or below one, are never released; their out-edges
/// keep whatever layers they had reached.
#[verifier::rlimit(60)]
fn assign_layers_scope(scope: &mut Scope)
    requires
        old(scope).wf(),
    ensures
        final(scope).wf(),
        final(scope).items@ == old(scope).items@,
        final(scope).edges@ == old(scope).edges@,
        final(scope).widths@ == old(scope).widths@,
        final(scope).heights@ == old(scope).heights@,
        final(scope).orders@ == old(scope).orders@,
        final(scope).xs@ == old(scope).xs@,
        final(scope).ys@ == old(scope).ys@,
        layers_capped(*final(scope)),
        exists|stuck: Set<int>|
            #[trigger] fed_from_within(final(scope).edges@, stuck) && forall|e: int|
                0 <= e < final(scope).edges.len() && !stuck.contains(final(scope).edges@[e].from as int)
                    ==> #[trigger] layered_edge(final(scope).edges@, final(scope).layers@, e),
        acyclic(final(scope).edges@) ==> forall|e: int|
            0 <= e < final(scope).edges.len() ==> #[trigger] layered_edge(final(scope).edges@, final(scope).layers@, e),
{
    let n = scope.len();
    let ghost E = scope.edges@;
    let ghost m = E.len() as int;
    let mut indeg: Vec<usize> = Vec::new();
    let mut adj: Vec<Vec<(usize, usize)>> = Vec::new();
    let mut layer: Vec<usize> = Vec::new();
    let mut k: usize = 0;
    while k < n
        invariant
            k <= n,
            indeg.len() == k,
            adj.len() == k,
            layer.len() == k,
            forall|q: int| 0 <= q < k ==> #[trigger] layer@[q] < usize::MAX,
            forall|q: int| 0 <= q < k ==> #[trigger] indeg@[q] == 0,
            forall|q: int| 0 <= q < k ==> (#[trigger] adj@[q])@ == Seq::<(usize, usize)>::empty(),
        decreases n - k,
    {
        indeg.push(0);
        adj.push(Vec::new());
        layer.push(0);
        k += 1;
    }
    let mut e: usize = 0;
    while e < scope.edges.len()
        invariant
            scope.wf(),
            E == scope.edges@,
            n == scope.items.len(),
            e <= scope.edges.len(),
            indeg.len() == n,
            adj.len() == n,
            layer.len() == n,
            forall|q: int| 0 <= q < n ==> #[trigger] layer@[q] < usize::MAX,
            forall|q: int| 0 <= q < n ==> #[trigger] indeg@[q] == pending_in(E, q, Set::empty(), e as int),
            forall|q: int| 0 <= q < n ==> (#[trigger] adj@[q])@ == out_entries(E, q, e as int),
        decreases scope.edges.len() - e,
    {
        let from = scope.edges[e].from;
        let to = scope.edges[e].to;
        proof {
            lemma_pending_le(E, to as int, Set::empty(), e as int);
        }
        let ghost adj0 = adj@;
        indeg.set(to, indeg[to].saturating_add(1));
        adj[from].push((to, scope.edges[e].length));
        proof {
            assert forall|q: int| 0 <= q < n implies (#[trigger] adj@[q])@ == out_entries(E, q, e + 1) by {
                if q != from {
                    assert(adj@[q] == adj0[q]);
                }
            }
        }
        e += 1;
    }
    let mut remaining = indeg.clone();
    let mut queue: Vec<usize> = Vec::new();
    let mut i: usize = 0;
    while i < n
        invariant
            i <= n,
            remaining.len() == n,
            remaining@ == indeg@,
            layer.len() == n,
            forall|q: int| 0 <= q < n ==> #[trigger] layer@[q] < usize::MAX,
            forall|q: int| 0 <= q < queue.len() ==> #[trigger] queue@[q] < i,
            forall|q: int| 0 <= q < queue.len() ==> remaining@[#[trigger] queue@[q] as int] == 0,
            forall|a: int, b: int| 0 <= a < b < queue.len() ==> #[trigger] queue@[a] < #[trigger] queue@[b],
            forall|v: int| 0 <= v < i && remaining@[v] == 0 ==> queue@.contains(v as usize),
        decreases n - i,
    {
        let ghost qb = queue@;
        if remaining[i] == 0 {
            queue.push(i);
            proof {
                assert(queue@[queue.len() - 1] == i);
            }
        }
        proof {
            assert forall|v: int| 0 <= v < i + 1 && remaining@[v] == 0 implies queue@.contains(v as usize) by {
                if v < i {
                    let t = choose|t: int| 0 <= t < qb.len() && qb[t] == v as usize;
                    assert(queue@[t] == qb[t]);
                } else {
                    assert(queue@[queue.len() - 1] == i);
                }
            }
        }
        i += 1;
    }
    let ghost mut done: Set<int> = Set::empty();
    loop
        invariant
            scope.wf(),
            E == scope.edges@,
            m == E.len(),
            n == scope.items.len(),
            remaining.len() == n,
            layer.len() == n,
            forall|q: int| 0 <= q < n ==> #[trigger] layer@[q] < usize::MAX,
            adj.len() == n,
            forall|q: int| 0 <= q < n ==> (#[trigger] adj@[q])@ == out_entries(E, q, m),
            forall|x: int| done.contains(x) ==> 0 <= x < n,
            forall|v: int| 0 <= v < n ==> #[trigger] remaining@[v] == pending_in(E, v, done, m),
            forall|q: int| 0 <= q < queue.len() ==> #[trigger] queue@[q] < n,
            forall|q: int|
                0 <= q < queue.len() ==> remaining@[#[trigger] queue@[q] as int] == 0 && !done.contains(
                    queue@[q] as int,
                ),
            forall|a: int, b: int| 0 <= a < b < queue.len() ==> #[trigger] queue@[a] != #[trigger] queue@[b],
            forall|v: int| 0 <= v < n && remaining@[v] == 0 ==> done.contains(v) || queue@.contains(v as usize),
            forall|w: int| done.contains(w) ==> #[trigger] remaining@[w] == 0,
            forall|x: int|
                0 <= x < m && done.contains(E[x].from as int) ==> #[trigger] layered_edge(E, layer@, x),
        ensures
            queue.len() == 0,
            scope.wf(),
            E == scope.edges@,
            m == E.len(),
            n == scope.items.len(),
            remaining.len() == n,
            layer.len() == n,
            forall|q: int| 0 <= q < n ==> #[trigger] layer@[q] < usize::MAX,
            forall|x: int| done.contains(x) ==> 0 <= x < n,
            forall|v: int| 0 <= v < n ==> #[trigger] remaining@[v] == pending_in(E, v, done, m),
            forall|v: int| 0 <= v < n && remaining@[v] == 0 ==> done.contains(v) || queue@.contains(v as usize),
            forall|x: int|
                0 <= x < m && done.contains(E[x].from as int) ==> #[trigger] layered_edge(E, layer@, x),
        decreases seq_sum(remaining@, n as int) + queue.len(),
    {
        let ghost qpre = queue@;
        let u = match queue.pop() {
            Some(u) => u,
            None => break,
        };
        let ghost q0 = queue@;
        assert(qpre == q0.push(u));
        let ghost a = adj@[u as int]@;
        let ghost rem0 = remaining@;
        let ghost lay0 = layer@;
        proof {
            assert(!q0.contains(u)) by {
                if q0.contains(u) {
                    let t = choose|t: int| 0 <= t < q0.len() && q0[t] == u;
                    assert(q0.push(u)[t] == u && q0.push(u)[q0.len() as int] == u);
                }
            }
            lemma_out_entries_valid(E, u as int, m, n as int);
            assert forall|v: int| 0 <= v < n && remaining@[v] == 0 implies done.contains(v) || queue@.contains(v as usize) || v == u by {
                if !done.contains(v) {
                    let t = choose|t: int| 0 <= t < qpre.len() && qpre[t] == v as usize;
                    if t < q0.len() {
                        assert(queue@[t] == qpre[t]);
                    }
                }
            }
            assert forall|q: int| 0 <= q < queue.len() implies #[trigger] queue@[q] != u by {
                assert(qpre[q] == queue@[q]);
                assert(qpre[q0.len() as int] == u);
            }
        }
        let mut j: usize = 0;
        let ghost start_measure = seq_sum(remaining@, n as int) + queue.len();
        while j < adj[u].len()
            invariant
                u < n,
                scope.wf(),
                E == scope.edges@,
                m == E.len(),
                n == scope.items.len(),
                remaining.len() == n,
                layer.len() == n,
                forall|q: int| 0 <= q < n ==> #[trigger] layer@[q] < usize::MAX,
                adj.len() == n,
                forall|q: int| 0 <= q < n ==> (#[trigger] adj@[q])@ == out_entries(E, q, m),
                a == adj@[u as int]@,
                forall|k: int| 0 <= k < a.len() ==> (#[trigger] a[k]).0 < n,
                j <= a.len(),
                forall|x: int| done.contains(x) ==> 0 <= x < n,
                !done.contains(u as int),
                rem0[u as int] == 0,
                forall|v: int| 0 <= v < n ==> #[trigger] rem0[v] == pending_in(E, v, done, m),
                forall|v: int| 0 <= v < n ==> #[trigger] remaining@[v] + count_to(a, v, j as int) == rem0[v],
                forall|q: int| 0 <= q < queue.len() ==> #[trigger] queue@[q] < n,
                forall|q: int|
                    0 <= q < queue.len() ==> remaining@[#[trigger] queue@[q] as int] == 0 && !done.contains(
                        queue@[q] as int,
                    ) && queue@[q] != u,
                forall|a2: int, b: int| 0 <= a2 < b < queue.len() ==> #[trigger] queue@[a2] != #[trigger] queue@[b],
                forall|v: int|
                    0 <= v < n && remaining@[v] == 0 ==> done.contains(v) || queue@.contains(v as usize) || v
                        == u,
                forall|w: int| done.contains(w) ==> #[trigger] remaining@[w] == 0,
                layer@[u as int] == lay0[u as int],
                forall|q: int| 0 <= q < n ==> #[trigger] layer@[q] >= lay0[q],
                forall|q: int| 0 <= q < n && done.contains(q) ==> #[trigger] layer@[q] == lay0[q],
                forall|k: int| 0 <= k < j ==> layer@[(#[trigger] a[k]).0 as int] >= reach(layer@[u as int], a[k].1),
                seq_sum(remaining@, n as int) + queue.len() <= start_measure,
            decreases a.len() - j,
        {
            let (v, len) = adj[u][j];
            assert(a[j as int] == (v, len));
            proof {
                lemma_pending_done(E, v as int, done, u as int, m);
                lemma_count_to_mono(a, v as int, j as int + 1, a.len() as int);
                assert(count_to(a, v as int, j as int + 1) == count_to(a, v as int, j as int) + 1);
                assert(rem0[v as int] >= count_to(a, v as int, j as int) + 1);
                assert(remaining@[v as int] > 0);
                assert(v != u);
                if done.contains(v as int) {
                    assert(rem0[v as int] == 0);
                }
            }
            // Layers stay below `usize::MAX` so that a layer count fits.
            let cand = layer[u].saturating_add(len);
            let cand = if cand == usize::MAX {
                usize::MAX - 1
            } else {
                cand
            };
            assert(cand == reach(layer@[u as int], len));
            let ghost lay1 = layer@;
            if layer[v] < cand {
                layer.set(v, cand);
            }
            proof {
                assert forall|k: int| 0 <= k < j + 1 implies layer@[(#[trigger] a[k]).0 as int] >= reach(layer@[u as int], a[k].1) by {
                    if k < j {
                        assert(lay1[a[k].0 as int] >= reach(lay1[u as int], a[k].1));
                    }
                }
            }
            let ghost rem1 = remaining@;
            let ghost ql = queue.len();
            let ghost qb = queue@;
            if remaining[v] > 0 {
                proof {
                    lemma_seq_sum_dec(remaining@, v as int, n as int);
                }
                remaining.set(v, remaining[v] - 1);
                if remaining[v] == 0 {
                    queue.push(v);
                    proof {
                        assert(!done.contains(v as int));
                        assert forall|q: int| 0 <= q < ql implies queue@[q] != v by {
                            assert(rem1[queue@[q] as int] == 0);
                        }
                        assert forall|a2: int, b: int| 0 <= a2 < b < queue.len() implies #[trigger] queue@[a2] != #[trigger] queue@[b] by {
                            if b == ql {
                                assert(rem1[queue@[a2] as int] == 0);
                            }
                        }
                    }
                }
            }
            proof {
                assert forall|w: int| 0 <= w < n implies #[trigger] remaining@[w] + count_to(a, w, j + 1) == rem0[w] by {
                    if w != v {
                        assert(remaining@[w] == rem1[w]);
                    }
                }
                assert forall|v2: int|
                    0 <= v2 < n && remaining@[v2] == 0 implies done.contains(v2) || queue@.contains(v2 as usize) || v2
                        == u by {
                    if v2 == v {
                        assert(queue@[queue.len() - 1] == v);
                    } else {
                        assert(remaining@[v2] == rem1[v2]);
                        if !done.contains(v2) && v2 != u {
                            assert(qb.contains(v2 as usize));
                            let t = choose|t: int| 0 <= t < qb.len() && qb[t] == v2 as usize;
                            assert(queue@[t] == qb[t]);
                        }
                    }
                }
            }
            j += 1;
        }
        proof {
            let done2 = done.insert(u as int);
            assert forall|v: int| 0 <= v < n implies #[trigger] remaining@[v] == pending_in(E, v, done2, m) by {
                lemma_pending_done(E, v, done, u as int, m);
            }
            assert forall|x: int|
                0 <= x < m && done2.contains(E[x].from as int) implies #[trigger] layered_edge(E, layer@, x) by {
                if E[x].from == u {
                    lemma_out_entries_has(E, u as int, m, x);
                    let k = choose|k: int| 0 <= k < a.len() && #[trigger] a[k] == (E[x].to, E[x].length);
                    assert(layer@[a[k].0 as int] >= reach(layer@[u as int], a[k].1));
                } else {
                    assert(layered_edge(E, lay0, x));
                    assert(layer@[E[x].from as int] == lay0[E[x].from as int]);
                    assert(layer@[E[x].to as int] >= lay0[E[x].to as int]);
                }
            }
            assert forall|v2: int| 0 <= v2 < n && remaining@[v2] == 0 implies done2.contains(v2) || queue@.contains(v2 as usize) by {}
            done = done2;
        }
    }
    proof {
        let stuck = Set::new(|x: int| 0 <= x < n && !done.contains(x));
        assert forall|u: int| stuck.contains(u) implies exists|x: int|
            0 <= x < E.len() && #[trigger] E[x].to == u && stuck.contains(E[x].from as int) by {
            if remaining@[u] == 0 {
                assert(!queue@.contains(u as usize));
            }
            lemma_pending_pos(E, u, done, m);
            let x = choose|x: int| 0 <= x < m && #[trigger] E[x].to == u && !done.contains(E[x].from as int);
            assert(E[x].from < n);
        }
        assert(fed_from_within(E, stuck));
        assert forall|x: int| 0 <= x < E.len() && !stuck.contains(E[x].from as int) implies #[trigger] layered_edge(E, layer@, x) by {
            assert(E[x].from < n);
        }
        if acyclic(E) {
            law_acyclic_layered(E, layer@, stuck);
        }
    }
    scope.layers = layer;
}

/// Dummies needed by the first `m` edges: one per layer strictly between
/// an edge's ends.
pub open spec fn span_dummies(edges: Seq<SliceEdge>, layers: Seq<usize>, m: int) -> nat
    decreases m,
{
    if m <= 0 {
        0
    } else {
        let e = edges[m - 1];
        span_dummies(edges, layers, m - 1) + if layers[e.to as int] > layers[e.from as int] + 1 {
            (layers[e.to as int] - layers[e.from as int] - 1) as nat
        } else {
            0nat
        }
    }
}

/// Every edge reaches at most one layer further down.
pub open spec fn short_edges(edges: Seq<SliceEdge>, layers: Seq<usize>) -> bool {
    forall|x: int|
        0 <= x < edges.len() ==> layers[(#[trigger] edges[x]).to as int] <= layers[edges[x].from as int] + 1
}

/// When edge `e` (between items laid out by `ol`) spans more than one
/// layer and stands for a graph edge, some chain records that graph edge
/// with one dummy for each layer in between, in order.
pub open spec fn chained(ol: Seq<usize>, e: SliceEdge, chains: Seq<(usize, Vec<usize>)>, layers: Seq<usize>) -> bool {
    let f = ol[e.from as int] as int;
    let t = ol[e.to as int] as int;
    (t > f + 1 && e.orig_g_edge is Some) ==> exists|c: int|
        0 <= c < chains.len() && (#[trigger] chains[c]).0 == e.orig_g_edge->0 && chains[c].1.len() == t - f - 1
            && forall|d: int|
            0 <= d < chains[c].1.len() ==> (#[trigger] chains[c].1@[d]) < layers.len() && layers[chains[c].1@[d] as int]
                == f + 1 + d
}

proof fn lemma_chained_keep(ol: Seq<usize>, e: SliceEdge, ch1: Seq<(usize, Vec<usize>)>, ch2: Seq<(usize, Vec<usize>)>, l1: Seq<usize>, l2: Seq<usize>)
    requires
        chained(ol, e, ch1, l1),
        ch1.len() <= ch2.len(),
        forall|c: int| 0 <= c < ch1.len() ==> ch2[c] == ch1[c],
        l1.len() <= l2.len(),
        forall|i: int| 0 <= i < l1.len() ==> l2[i] == l1[i],
    ensures
        chained(ol, e, ch2, l2),
{
    let f = ol[e.from as int] as int;
    let t = ol[e.to as int] as int;
    if t > f + 1 && e.orig_g_edge is Some {
        let c = choose|c: int|
            0 <= c < ch1.len() && (#[trigger] ch1[c]).0 == e.orig_g_edge->0 && ch1[c].1.len() == t - f - 1
                && forall|d: int|
                0 <= d < ch1[c].1.len() ==> (#[trigger] ch1[c].1@[d]) < l1.len() && l1[ch1[c].1@[d] as int] == f + 1 + d;
        assert(ch2[c] == ch1[c]);
        assert forall|d: int| 0 <= d < ch2[c].1.len() implies (#[trigger] ch2[c].1@[d]) < l2.len() && l2[ch2[c].1@[d] as int] == f + 1 + d by {
            assert(ch1[c].1@[d] < l1.len());
        }
    }
}

/// For each slice edge spanning more than one layer, insert a chain of Dummy
/// slice items and replace the edge with per-hop segments. Returns, for each
/// graph edge split this way, its index and the chain's dummy ids.
fn insert_dummies_scope(scope: &mut Scope, n_g_edges: usize) -> (chains: Vec<(usize, Vec<usize>)>)
    requires
        old(scope).wf(),
        layers_capped(*old(scope)),
        forall|e: int|
            0 <= e < old(scope).edges.len() ==> ((#[trigger] old(scope).edges@[e]).orig_g_edge matches Some(
                o,
            ) ==> o < n_g_edges),
    ensures
        final(scope).wf(),
        layers_capped(*final(scope)),
        forall|i: int|
            0 <= i < final(scope).items.len() ==> #[trigger] final(scope).orders@[i] == if i < old(scope).items.len() {
                old(scope).orders@[i]
            } else {
                0
            },
        final(scope).items.len() >= old(scope).items.len(),
        forall|i: int| 0 <= i < old(scope).items.len() ==> final(scope).items@[i] == old(scope).items@[i],
        forall|i: int|
            0 <= i < old(scope).items.len() ==> final(scope).widths@[i] == old(scope).widths@[i]
                && final(scope).heights@[i] == old(scope).heights@[i] && final(scope).layers@[i]
                == old(scope).layers@[i],
        forall|i: int|
            old(scope).items.len() <= i < final(scope).items.len() ==> (#[trigger] final(scope).items@[i]) is Dummy
                && final(scope).widths@[i] == 1 && final(scope).heights@[i] == 1,
        forall|c: int|
            0 <= c < chains.len() ==> (#[trigger] chains@[c]).0 < n_g_edges && forall|d: int|
                0 <= d < chains@[c].1.len() ==> #[trigger] chains@[c].1@[d] < final(scope).items.len()
                    && final(scope).items@[chains@[c].1@[d] as int] is Dummy,
        short_edges(final(scope).edges@, final(scope).layers@),
        final(scope).items.len() == old(scope).items.len() + span_dummies(old(scope).edges@, old(scope).layers@, old(scope).edges.len() as int),
        forall|k: int| 0 <= k < old(scope).edges.len() ==> chained(old(scope).layers@, #[trigger] old(scope).edges@[k], chains@, final(scope).layers@),
{
    let mut chains: Vec<(usize, Vec<usize>)> = Vec::new();
    let mut old_edges: Vec<SliceEdge> = Vec::new();
    std::mem::swap(&mut old_edges, &mut scope.edges);
    let ghost n0 = scope.items.len();
    let mut k: usize = 0;
    while k < old_edges.len()
        invariant
            scope.wf(),
            old(scope).wf(),
            layers_capped(*scope),
            scope.items.len() == n0 + span_dummies(old(scope).edges@, old(scope).layers@, k as int),
            forall|i: int| 0 <= i < scope.items.len() ==> #[trigger] scope.orders@[i] == if i < n0 { old(scope).orders@[i] } else { 0 },
            n0 == old(scope).items.len(),
            old_edges@ == old(scope).edges@,
            scope.items.len() >= n0,
            forall|i: int| 0 <= i < n0 ==> scope.items@[i] == old(scope).items@[i],
            forall|i: int|
                0 <= i < n0 ==> scope.widths@[i] == old(scope).widths@[i] && scope.heights@[i]
                    == old(scope).heights@[i] && scope.layers@[i] == old(scope).layers@[i],
            forall|i: int|
                n0 <= i < scope.items.len() ==> (#[trigger] scope.items@[i]) is Dummy
                    && scope.widths@[i] == 1 && scope.heights@[i] == 1,
            forall|e: int|
                0 <= e < old(scope).edges.len() ==> ((#[trigger] old(scope).edges@[e]).orig_g_edge matches Some(
                    o,
                ) ==> o < n_g_edges),
            forall|c: int|
                0 <= c < chains.len() ==> (#[trigger] chains@[c]).0 < n_g_edges && forall|d: int|
                    0 <= d < chains@[c].1.len() ==> #[trigger] chains@[c].1@[d] < scope.items.len()
                        && scope.items@[chains@[c].1@[d] as int] is Dummy,
            k <= old_edges.len(),
            short_edges(scope.edges@, scope.layers@),
            forall|q: int| 0 <= q < k ==> chained(old(scope).layers@, #[trigger] old(scope).edges@[q], chains@, scope.layers@),
        decreases old_edges.len() - k,
    {
        let e = &old_edges[k];
        assert(e.from < n0 && e.to < n0);
        let from_layer = scope.layers[e.from];
        let to_layer = scope.layers[e.to];
        if to_layer <= from_layer.saturating_add(1) {
            let lbl = match &e.label {
                Some(l) => Some(l.clone()),
                None => None,
            };
            scope.edges.push(
                SliceEdge {
                    from: e.from,
                    to: e.to,
                    label: lbl,
                    style: e.style,
                    tip_fwd: e.tip_fwd,
                    tip_back: e.tip_back,
                    length: e.length,
                    orig_g_edge: e.orig_g_edge,
                },
            );
            proof {
                assert forall|x: int| 0 <= x < scope.edges.len() implies (#[trigger] scope.edges@[x]).from
                    < scope.items.len() && scope.edges@[x].to < scope.items.len() by {}
                assert(old_edges@[k as int] == old(scope).edges@[k as int]);
                assert(from_layer < usize::MAX);
                assert(chained(old(scope).layers@, old(scope).edges@[k as int], chains@, scope.layers@));
            }
            k += 1;
            continue ;
        }
        let mut dummy_ids: Vec<usize> = Vec::new();
        let mut prev = e.from;
        let mut label = match &e.label {
            Some(l) => Some(l.clone()),
            None => None,
        };
        let ghost chains0 = chains@;
        let ghost layers0 = scope.layers@;
        let ghost edges0 = scope.edges@;
        let ghost ek = old(scope).edges@[k as int];
        assert(old_edges@[k as int] == ek);
        let ghost n_before = scope.items.len();
        let mut l = from_layer + 1;
        while l < to_layer
            invariant
                from_layer + 1 <= l <= to_layer,
                from_layer == old(scope).layers@[ek.from as int],
                to_layer == old(scope).layers@[ek.to as int],
                ek.from < n0,
                ek.to < n0,
                scope.layers@[prev as int] == l - 1,
                dummy_ids.len() == l - from_layer - 1,
                scope.items.len() == n_before + dummy_ids.len(),
                forall|d: int| 0 <= d < dummy_ids.len() ==> scope.layers@[#[trigger] dummy_ids@[d] as int] == from_layer + 1 + d,
                short_edges(scope.edges@, scope.layers@),
                chains@ == chains0,
                layers0.len() <= scope.layers.len(),
                forall|i: int| 0 <= i < layers0.len() ==> scope.layers@[i] == layers0[i],
                scope.wf(),
                layers_capped(*scope),
                to_layer < usize::MAX,
                forall|i: int| 0 <= i < scope.items.len() ==> #[trigger] scope.orders@[i] == if i < n0 { old(scope).orders@[i] } else { 0 },
                n0 == old(scope).items.len(),
                scope.items.len() >= n0,
                prev < scope.items.len(),
                forall|i: int| 0 <= i < n0 ==> scope.items@[i] == old(scope).items@[i],
                forall|i: int|
                    0 <= i < n0 ==> scope.widths@[i] == old(scope).widths@[i] && scope.heights@[i]
                        == old(scope).heights@[i] && scope.layers@[i] == old(scope).layers@[i],
                forall|i: int|
                    n0 <= i < scope.items.len() ==> (#[trigger] scope.items@[i]) is Dummy
                        && scope.widths@[i] == 1 && scope.heights@[i] == 1,
                forall|d: int|
                    0 <= d < dummy_ids.len() ==> #[trigger] dummy_ids@[d] < scope.items.len()
                        && scope.items@[dummy_ids@[d] as int] is Dummy,
                forall|c: int|
                    0 <= c < chains.len() ==> (#[trigger] chains@[c]).0 < n_g_edges && forall|d: int|
                        0 <= d < chains@[c].1.len() ==> #[trigger] chains@[c].1@[d]
                            < scope.items.len() && scope.items@[chains@[c].1@[d] as int] is Dummy,
            decreases to_layer - l,
        {
            let ghost lb = scope.layers@;
            let ghost eb = scope.edges@;
            let slice_id = scope.push(Item::Dummy, 1, 1);
            scope.layers.set(slice_id, l);
            scope.edges.push(
                SliceEdge {
                    from: prev,
                    to: slice_id,
                    label: label,
                    style: e.style,
                    tip_fwd: ArrowTip::NoTip,
                    tip_back: false,
                    length: 1,
                    orig_g_edge: None,
                },
            );
            label = None;
            proof {
                assert forall|x: int| 0 <= x < scope.edges.len() implies (#[trigger] scope.edges@[x]).from
                    < scope.items.len() && scope.edges@[x].to < scope.items.len() by {}
            }
            proof {
                assert forall|i: int| 0 <= i < lb.len() implies scope.layers@[i] == lb[i] by {}
                assert forall|x: int| 0 <= x < scope.edges.len() implies scope.layers@[(#[trigger] scope.edges@[x]).to as int]
                    <= scope.layers@[scope.edges@[x].from as int] + 1 by {
                    if x < eb.len() {
                        assert(scope.edges@[x] == eb[x]);
                    }
                }
            }
            let ghost db = dummy_ids@;
            dummy_ids.push(slice_id);
            proof {
                assert forall|d: int| 0 <= d < dummy_ids.len() implies scope.layers@[#[trigger] dummy_ids@[d] as int] == from_layer + 1 + d by {
                    if d < db.len() {
                        assert(dummy_ids@[d] == db[d]);
                    }
                }
            }
            prev = slice_id;
            l += 1;
        }
        scope.edges.push(
            SliceEdge {
                from: prev,
                to: e.to,
                label: None,
                style: e.style,
                tip_fwd: e.tip_fwd,
                tip_back: e.tip_back,
                length: 1,
                orig_g_edge: None,
            },
        );
        proof {
            assert forall|x: int| 0 <= x < scope.edges.len() implies (#[trigger] scope.edges@[x]).from
                < scope.items.len() && scope.edges@[x].to < scope.items.len() by {}
        }
        let ghost eb2 = edges0;
        proof {
            assert(scope.layers@[prev as int] == to_layer - 1);
            assert forall|x: int| 0 <= x < scope.edges.len() implies scope.layers@[(#[trigger] scope.edges@[x]).to as int]
                <= scope.layers@[scope.edges@[x].from as int] + 1 by {
            }
        }
        let ghost lay = scope.layers@;
        let ghost dv = dummy_ids@;
        if let Some(orig) = e.orig_g_edge {
            chains.push((orig, dummy_ids));
            proof {
                let c = chains.len() - 1;
                assert(chains@[c].1@ == dv);
                assert(chains@[c].0 == ek.orig_g_edge->0);
                assert forall|d: int| 0 <= d < chains@[c].1.len() implies (#[trigger] chains@[c].1@[d]) < scope.layers.len()
                    && scope.layers@[chains@[c].1@[d] as int] == from_layer + 1 + d by {
                    assert(chains@[c].1@[d] == dv[d]);
                }
                assert(chained(old(scope).layers@, ek, chains@, scope.layers@));
            }
        }
        proof {
            assert forall|q: int| 0 <= q < k + 1 implies chained(old(scope).layers@, #[trigger] old(scope).edges@[q], chains@, scope.layers@) by {
                if q < k {
                    lemma_chained_keep(old(scope).layers@, old(scope).edges@[q], chains0, chains@, layers0, scope.layers@);
                } else if ek.orig_g_edge is None {
                }
            }
        }
        k += 1;
    }
    chains
}

// ---------------------------------------------------------------------------
// Layer buckets.
/// Number of the first `n` items that sit in layer `l`.
pub open spec fn count_layer(layers: Seq<usize>, l: usize, n: int) -> nat
    decreases n,
{
    if n <= 0 {
        0
    } else {
        count_layer(layers, l, n - 1) + if layers[n - 1] == l {
            1nat
        } else {
            0nat
        }
    }
}

/// Every item's order is a position within its layer's bucket.
pub open spec fn orders_ok(scope: Scope) -> bool {
    forall|i: int|
        0 <= i < scope.items.len() ==> #[trigger] scope.orders@[i] < count_layer(
            scope.layers@,
            scope.layers@[i],
            scope.items.len() as int,
        )
}

/// The buckets hold items of their own layer, as many as that layer has.
pub open spec fn buckets_ok(b: Seq<Vec<usize>>, layers: Seq<usize>, max: usize) -> bool {
    &&& b.len() == max + 1
    &&& forall|l: int| 0 <= l < b.len() ==> (#[trigger] b[l]).len() == count_layer(layers, l as usize, layers.len() as int)
    &&& forall|l: int, j: int|
        0 <= l < b.len() && 0 <= j < b[l].len() ==> #[trigger] b[l]@[j] < layers.len()
            && layers[b[l]@[j] as int] == l
}

/// Largest layer (0 when there are none).
fn max_layer_of(layers: &Vec<usize>) -> (m: usize)
    ensures
        forall|i: int| 0 <= i < layers.len() ==> #[trigger] layers@[i] <= m,
        m == 0 || exists|i: int| 0 <= i < layers.len() && layers@[i] == m,
{
    let mut m: usize = 0;
    let mut i: usize = 0;
    while i < layers.len()
        invariant
            i <= layers.len(),
            forall|k: int| 0 <= k < i ==> #[trigger] layers@[k] <= m,
            m == 0 || exists|k: int| 0 <= k < layers.len() && layers@[k] == m,
        decreases layers.len() - i,
    {
        if layers[i] > m {
            m = layers[i];
        }
        i += 1;
    }
    m
}

proof fn lemma_count_le(layers: Seq<usize>, l: usize, a: int, b: int)
    requires
        0 <= a <= b <= layers.len(),
    ensures
        count_layer(layers, l, a) <= count_layer(layers, l, b),
    decreases b - a,
{
    if a < b {
        lemma_count_le(layers, l, a, b - 1);
    }
}

/// Items grouped by layer, each group in increasing id order.
fn build_buckets(layers: &Vec<usize>, max: usize) -> (b: Vec<Vec<usize>>)
    requires
        max < usize::MAX,
        forall|i: int| 0 <= i < layers.len() ==> #[trigger] layers@[i] <= max,
    ensures
        buckets_ok(b@, layers@, max),
        forall|k: int| 0 <= k < b.len() ==> (#[trigger] b@[k])@.no_duplicates(),
        forall|i: int| 0 <= i < layers.len() ==> (#[trigger] b@[layers@[i] as int])@.contains(i as usize),
{
    let mut b: Vec<Vec<usize>> = Vec::new();
    let mut l: usize = 0;
    while l <= max
        invariant
            l <= max + 1,
            max < usize::MAX,
            b.len() == l,
            forall|k: int| 0 <= k < l ==> (#[trigger] b@[k]).len() == 0,
        decreases max + 1 - l,
    {
        b.push(Vec::new());
        l += 1;
    }
    let mut i: usize = 0;
    while i < layers.len()
        invariant
            i <= layers.len(),
            b.len() == max + 1,
            forall|k: int| 0 <= k < layers.len() ==> #[trigger] layers@[k] <= max,
            forall|k: int| 0 <= k < b.len() ==> (#[trigger] b@[k]).len() == count_layer(layers@, k as usize, i as int),
            forall|k: int, j: int|
                0 <= k < b.len() && 0 <= j < b@[k].len() ==> #[trigger] b@[k]@[j] < i
                    && layers@[b@[k]@[j] as int] == k,
            forall|k: int, j1: int, j2: int| 0 <= k < b.len() && 0 <= j1 < j2 < b@[k].len() ==> #[trigger] b@[k]@[j1] < #[trigger] b@[k]@[j2],
            forall|q: int| 0 <= q < i ==> (#[trigger] b@[layers@[q] as int])@.contains(q as usize),
        decreases layers.len() - i,
    {
        let li = layers[i];
        let ghost bb = b@;
        b[li].push(i);
        proof {
            assert(b@[li as int]@ == bb[li as int]@.push(i));
            assert forall|k: int| 0 <= k < b.len() && k != li implies #[trigger] b@[k] == bb[k] by {}
            assert forall|q: int| 0 <= q < i + 1 implies (#[trigger] b@[layers@[q] as int])@.contains(q as usize) by {
                if q < i {
                    assert(bb[layers@[q] as int]@.contains(q as usize));
                    let j = choose|j: int| 0 <= j < bb[layers@[q] as int]@.len() && bb[layers@[q] as int]@[j] == q as usize;
                    assert(b@[layers@[q] as int]@[j] == q as usize);
                } else {
                    assert(b@[li as int]@[bb[li as int]@.len() as int] == i);
                }
            }
        }
        i += 1;
    }
    proof {
        assert forall|k: int| 0 <= k < b.len() implies (#[trigger] b@[k])@.no_duplicates() by {
            assert forall|j1: int, j2: int| 0 <= j1 < b@[k].len() && 0 <= j2 < b@[k].len() && j1 != j2 implies b@[k]@[j1] != b@[k]@[j2] by {
                if j1 < j2 {
                    assert(b@[k]@[j1] < b@[k]@[j2]);
                } else {
                    assert(b@[k]@[j2] < b@[k]@[j1]);
                }
            }
        }
    }
    b
}

// ---------------------------------------------------------------------------
// Crossing reduction by barycenters.
/// Saturating sum of the orders of `ns[..k]`.
pub open spec fn order_sum(orders: Seq<usize>, ns: Seq<usize>, k: int) -> usize
    decreases k,
{
    if k <= 0 {
        0
    } else {
        order_sum(orders, ns, k - 1).saturating_add(orders[ns[k - 1] as int])
    }
}

/// Barycenter of an item as a fraction (numerator, denominator): the mean
/// order of its neighbours, or its own order when it has none.
pub open spec fn bary(orders: Seq<usize>, ns: Seq<usize>, id: int) -> (usize, usize) {
    if ns.len() == 0 {
        (orders[id], 1)
    } else {
        (order_sum(orders, ns, ns.len() as int), ns.len() as usize)
    }
}

/// `a < b` as fractions with positive denominators.
pub open spec fn frac_lt(a: (usize, usize), b: (usize, usize)) -> bool {
    a.0 * b.1 < b.0 * a.1
}

fn barycenter_scope(id: usize, neighbors: &Vec<Vec<usize>>, scope: &Scope) -> (r: (usize, usize))
    requires
        id < neighbors.len(),
        id < scope.orders.len(),
        forall|a: int, b: int|
            0 <= a < neighbors.len() && 0 <= b < neighbors@[a].len() ==> #[trigger] neighbors@[a]@[b]
                < scope.orders.len(),
    ensures
        r == bary(scope.orders@, neighbors@[id as int]@, id as int),
        r.1 >= 1,
{
    let ns = &neighbors[id];
    if ns.len() == 0 {
        (scope.orders[id], 1)
    } else {
        let mut sum: usize = 0;
        let mut k: usize = 0;
        while k < ns.len()
            invariant
                k <= ns.len(),
                ns@ == neighbors@[id as int]@,
                forall|b: int| 0 <= b < ns.len() ==> #[trigger] ns@[b] < scope.orders.len(),
                sum == order_sum(scope.orders@, ns@, k as int),
            decreases ns.len() - k,
        {
            sum = sum.saturating_add(scope.orders[ns[k]]);
            k += 1;
        }
        (sum, ns.len())
    }
}

fn frac_lt_exec(a: (usize, usize), b: (usize, usize)) -> (r: bool)
    ensures
        r == frac_lt(a, b),
{
    proof {
        lemma_mul_fits(a.0, b.1);
        lemma_mul_fits(b.0, a.1);
    }
    (a.0 as u128) * (b.1 as u128) < (b.0 as u128) * (a.1 as u128)
}

proof fn lemma_mul_fits(a: usize, b: usize)
    ensures
        (a as int) * (b as int) <= u128::MAX,
{
    assert((a as int) * (b as int) <= (usize::MAX as int) * (usize::MAX as int)) by (nonlinear_arith)
        requires
            0 <= a <= usize::MAX,
            0 <= b <= usize::MAX,
    ;
    assert((usize::MAX as int) * (usize::MAX as int) <= u128::MAX) by (nonlinear_arith)
        requires
            usize::MAX <= 0xffff_ffff_ffff_ffffint,
    ;
}

/// Every key has a positive denominator.
pub open spec fn pos_dens(keys: Seq<(usize, usize)>) -> bool {
    forall|k: int| 0 <= k < keys.len() ==> #[trigger] keys[k].1 > 0
}

/// Two keys are the same fraction.
pub open spec fn eq_key(a: (usize, usize), b: (usize, usize)) -> bool {
    !frac_lt(a, b) && !frac_lt(b, a)
}

/// `out` takes its entries from the positions `perm` of `src`, and
/// entries with the same key keep the order they had in `src`.
pub open spec fn stable_from(src: Seq<usize>, out: Seq<usize>, perm: Seq<int>, keys: Seq<(usize, usize)>) -> bool {
    &&& perm.len() == out.len()
    &&& forall|j: int| 0 <= j < out.len() ==> 0 <= #[trigger] perm[j] < src.len() && out[j] == src[perm[j]]
    &&& forall|j: int, k: int|
        0 <= j < k < out.len() && eq_key(keys[out[j] as int], keys[out[k] as int]) ==> #[trigger] perm[j] < #[trigger] perm[k]
}

proof fn lemma_frac_lt_le(a: (usize, usize), b: (usize, usize), c: (usize, usize))
    requires
        frac_lt(a, b),
        !frac_lt(c, b),
        a.1 > 0,
        b.1 > 0,
        c.1 > 0,
    ensures
        frac_lt(a, c),
{
    let (a0, a1, b0, b1, c0, c1) = (a.0 as int, a.1 as int, b.0 as int, b.1 as int, c.0 as int, c.1 as int);
    assert(a0 * c1 < c0 * a1) by (nonlinear_arith)
        requires
            a0 * b1 < b0 * a1,
            c0 * b1 >= b0 * c1,
            a1 > 0,
            b1 > 0,
            c1 > 0,
            a0 >= 0,
            b0 >= 0,
            c0 >= 0,
    ;
}

/// Past the first entry of a sorted run whose key exceeds `kx`, every key
/// exceeds it.
proof fn lemma_after_insert_point(keys: Seq<(usize, usize)>, out: Seq<usize>, kx: (usize, usize), p: int)
    requires
        pos_dens(keys),
        kx.1 > 0,
        forall|j: int| 0 <= j < out.len() ==> #[trigger] out[j] < keys.len(),
        forall|j: int| 0 <= j < out.len() - 1 ==> !frac_lt(keys[out[j + 1] as int], keys[#[trigger] out[j] as int]),
        0 <= p < out.len(),
        frac_lt(kx, keys[out[p] as int]),
    ensures
        forall|q: int| p <= q < out.len() ==> frac_lt(kx, #[trigger] keys[out[q] as int]),
{
    assert forall|q: int| p <= q < out.len() implies frac_lt(kx, #[trigger] keys[out[q] as int]) by {
        lemma_after_insert_point_to(keys, out, kx, p, q);
    }
}

proof fn lemma_after_insert_point_to(keys: Seq<(usize, usize)>, out: Seq<usize>, kx: (usize, usize), p: int, q: int)
    requires
        pos_dens(keys),
        kx.1 > 0,
        forall|j: int| 0 <= j < out.len() ==> #[trigger] out[j] < keys.len(),
        forall|j: int| 0 <= j < out.len() - 1 ==> !frac_lt(keys[out[j + 1] as int], keys[#[trigger] out[j] as int]),
        0 <= p <= q < out.len(),
        frac_lt(kx, keys[out[p] as int]),
    ensures
        frac_lt(kx, keys[out[q] as int]),
    decreases q - p,
{
    if q > p {
        lemma_after_insert_point_to(keys, out, kx, p, q - 1);
        assert(!frac_lt(keys[out[q] as int], keys[out[q - 1] as int]));
        assert(keys[out[q - 1] as int].1 > 0 && keys[out[q] as int].1 > 0);
        lemma_frac_lt_le(kx, keys[out[q - 1] as int], keys[out[q] as int]);
    }
}

/// Stable insertion sort of item ids by their keys (fractions): each id
/// goes after every id already placed whose key is not larger.
pub(crate) fn sort_by_keys(layer: &mut Vec<usize>, keys: &Vec<(usize, usize)>)
    requires
        forall|j: int| 0 <= j < old(layer).len() ==> #[trigger] old(layer)@[j] < keys.len(),
    ensures
        final(layer)@.to_multiset() == old(layer)@.to_multiset(),
        final(layer).len() == old(layer).len(),
        forall|j: int| 0 <= j < final(layer).len() ==> #[trigger] final(layer)@[j] < keys.len(),
        forall|j: int|
            0 <= j < final(layer).len() - 1 ==> !frac_lt(
                keys@[final(layer)@[j + 1] as int],
                keys@[#[trigger] final(layer)@[j] as int],
            ),
        pos_dens(keys@) ==> exists|perm: Seq<int>| #[trigger] stable_from(old(layer)@, final(layer)@, perm, keys@),
{
    broadcast use vstd::seq_lib::group_to_multiset_ensures;

    let mut out: Vec<usize> = Vec::new();
    let ghost mut perm: Seq<int> = Seq::empty();
    let mut i: usize = 0;
    while i < layer.len()
        invariant
            i <= layer.len(),
            layer@ == old(layer)@,
            out@.to_multiset() == layer@.take(i as int).to_multiset(),
            out.len() == i,
            forall|j: int| 0 <= j < layer.len() ==> #[trigger] layer@[j] < keys.len(),
            forall|j: int| 0 <= j < out.len() ==> #[trigger] out@[j] < keys.len(),
            forall|j: int|
                0 <= j < out.len() - 1 ==> !frac_lt(
                    keys@[out@[j + 1] as int],
                    keys@[#[trigger] out@[j] as int],
                ),
            perm.len() == out.len(),
            forall|j: int| 0 <= j < out.len() ==> 0 <= #[trigger] perm[j] < i && out@[j] == layer@[perm[j]],
            pos_dens(keys@) ==> forall|j: int, k: int|
                0 <= j < k < out.len() && eq_key(keys@[out@[j] as int], keys@[out@[k] as int]) ==> #[trigger] perm[j] < #[trigger] perm[k],
        decreases layer.len() - i,
    {
        let x = layer[i];
        let kx = keys[x];
        let mut p: usize = 0;
        while p < out.len() && !frac_lt_exec(kx, keys[out[p]])
            invariant
                p <= out.len(),
                x < keys.len(),
                kx == keys@[x as int],
                forall|j: int| 0 <= j < out.len() ==> #[trigger] out@[j] < keys.len(),
                forall|j: int| 0 <= j < p ==> !frac_lt(kx, keys@[#[trigger] out@[j] as int]),
            decreases out.len() - p,
        {
            p += 1;
        }
        let ghost old_out = out@;
        let ghost old_perm = perm;
        out.insert(p, x);
        proof {
            perm = old_perm.insert(p as int, i as int);
            assert forall|j: int| 0 <= j < out.len() implies 0 <= #[trigger] perm[j] < i + 1 && out@[j] == layer@[perm[j]] by {
                if j < p {
                    assert(out@[j] == old_out[j]);
                } else if j > p {
                    assert(out@[j] == old_out[j - 1]);
                }
            }
            if pos_dens(keys@) {
                if p < old_out.len() {
                    lemma_after_insert_point(keys@, old_out, kx, p as int);
                }
                assert forall|j: int, k: int|
                    0 <= j < k < out.len() && eq_key(keys@[out@[j] as int], keys@[out@[k] as int]) implies #[trigger] perm[j] < #[trigger] perm[k] by {
                    if k < p {
                        assert(out@[j] == old_out[j] && out@[k] == old_out[k]);
                    } else if k == p {
                    } else if j < p {
                        assert(out@[j] == old_out[j] && out@[k] == old_out[k - 1]);
                    } else if j == p {
                        assert(out@[k] == old_out[k - 1]);
                        assert(frac_lt(kx, keys@[old_out[k - 1] as int]));
                    } else {
                        assert(out@[j] == old_out[j - 1] && out@[k] == old_out[k - 1]);
                    }
                }
            }
            vstd::seq_lib::to_multiset_insert(old_out, p as int, x);
            assert(layer@.take(i + 1) == layer@.take(i as int).push(x));
            vstd::seq_lib::to_multiset_build(layer@.take(i as int), x);
            assert(out@.to_multiset() == layer@.take(i + 1).to_multiset());
            assert forall|j: int| 0 <= j < out.len() - 1 implies !frac_lt(
                keys@[out@[j + 1] as int],
                keys@[#[trigger] out@[j] as int],
            ) by {
                if j + 1 < p {
                    assert(out@[j] == old_out[j]);
                    assert(out@[j + 1] == old_out[j + 1]);
                } else if j + 1 == p {
                    assert(out@[j] == old_out[j]);
                    assert(out@[j + 1] == x);
                } else if j == p {
                    assert(out@[j] == x);
                    assert(out@[j + 1] == old_out[p as int]);
                } else {
                    assert(out@[j] == old_out[j - 1]);
                    assert(out@[j + 1] == old_out[j]);
                }
            }
        }
        i += 1;
    }
    assert(layer@.take(layer.len() as int) == layer@);
    proof {
        if pos_dens(keys@) {
            assert(stable_from(layer@, out@, perm, keys@));
        }
    }
    *layer = out;
}

/// Stable sort of a layer by barycenter.
fn sort_layer_by_neighbors_scope(layer: &mut Vec<usize>, neighbors: &Vec<Vec<usize>>, scope: &Scope)
    requires
        neighbors.len() == scope.orders.len(),
        forall|j: int| 0 <= j < old(layer).len() ==> #[trigger] old(layer)@[j] < scope.orders.len(),
        forall|a: int, b: int|
            0 <= a < neighbors.len() && 0 <= b < neighbors@[a].len() ==> #[trigger] neighbors@[a]@[b]
                < scope.orders.len(),
    ensures
        final(layer)@.to_multiset() == old(layer)@.to_multiset(),
        final(layer).len() == old(layer).len(),
        forall|j: int| 0 <= j < final(layer).len() ==> #[trigger] final(layer)@[j] < scope.orders.len(),
        forall|j: int|
            0 <= j < final(layer).len() - 1 ==> !frac_lt(
                bary(scope.orders@, neighbors@[final(layer)@[j + 1] as int]@, final(layer)@[j + 1] as int),
                bary(scope.orders@, neighbors@[#[trigger] final(layer)@[j] as int]@, final(layer)@[j] as int),
            ),
{
    let n = scope.orders.len();
    let mut keys: Vec<(usize, usize)> = Vec::new();
    let mut k: usize = 0;
    while k < n
        invariant
            k <= n,
            n == scope.orders.len(),
            neighbors.len() == n,
            keys.len() == k,
            forall|a: int, b: int|
                0 <= a < neighbors.len() && 0 <= b < neighbors@[a].len() ==> #[trigger] neighbors@[a]@[b]
                    < n,
            forall|j: int| 0 <= j < k ==> #[trigger] keys@[j] == bary(scope.orders@, neighbors@[j]@, j),
        decreases n - k,
    {
        keys.push(barycenter_scope(k, neighbors, scope));
        k += 1;
    }
    sort_by_keys(layer, &keys);
}


/// Every layer index is below `usize::MAX`.
pub open spec fn layers_capped(scope: Scope) -> bool {
    forall|i: int| 0 <= i < scope.layers.len() ==> #[trigger] scope.layers@[i] < usize::MAX
}

proof fn lemma_count_self(layers: Seq<usize>, i: int, n: int)
    requires
        0 <= i < n <= layers.len(),
    ensures
        count_layer(layers, layers[i], n) >= 1,
    decreases n,
{
    if i < n - 1 {
        lemma_count_self(layers, i, n - 1);
    }
}

/// Predecessor and successor lists of every item.
fn neighbor_lists(scope: &Scope) -> (r: (Vec<Vec<usize>>, Vec<Vec<usize>>))
    requires
        scope.wf(),
    ensures
        r.0.len() == scope.items.len(),
        r.1.len() == scope.items.len(),
        forall|a: int, b: int|
            0 <= a < r.0.len() && 0 <= b < r.0@[a].len() ==> #[trigger] r.0@[a]@[b] < scope.items.len(),
        forall|a: int, b: int|
            0 <= a < r.1.len() && 0 <= b < r.1@[a].len() ==> #[trigger] r.1@[a]@[b] < scope.items.len(),
        forall|a: int| 0 <= a < r.1.len() ==> (#[trigger] r.1@[a])@ == succs_of(scope.edges@, a, scope.edges.len() as int),
{
    let n = scope.len();
    let mut preds: Vec<Vec<usize>> = Vec::new();
    let mut succs: Vec<Vec<usize>> = Vec::new();
    let mut k: usize = 0;
    while k < n
        invariant
            k <= n,
            preds.len() == k,
            succs.len() == k,
            forall|a: int, b: int| 0 <= a < preds.len() && 0 <= b < preds@[a].len() ==> #[trigger] preds@[a]@[b] < n,
            forall|a: int, b: int| 0 <= a < succs.len() && 0 <= b < succs@[a].len() ==> #[trigger] succs@[a]@[b] < n,
            forall|a: int| 0 <= a < succs.len() ==> (#[trigger] succs@[a])@ == Seq::<usize>::empty(),
        decreases n - k,
    {
        preds.push(Vec::new());
        succs.push(Vec::new());
        k += 1;
    }
    let mut e: usize = 0;
    while e < scope.edges.len()
        invariant
            scope.wf(),
            n == scope.items.len(),
            preds.len() == n,
            succs.len() == n,
            forall|a: int, b: int| 0 <= a < preds.len() && 0 <= b < preds@[a].len() ==> #[trigger] preds@[a]@[b] < n,
            forall|a: int, b: int| 0 <= a < succs.len() && 0 <= b < succs@[a].len() ==> #[trigger] succs@[a]@[b] < n,
            e <= scope.edges.len(),
            forall|a: int| 0 <= a < succs.len() ==> (#[trigger] succs@[a])@ == succs_of(scope.edges@, a, e as int),
        decreases scope.edges.len() - e,
    {
        let from = scope.edges[e].from;
        let to = scope.edges[e].to;
        let ghost sb = succs@;
        succs[from].push(to);
        preds[to].push(from);
        proof {
            assert forall|a: int| 0 <= a < succs.len() implies (#[trigger] succs@[a])@ == succs_of(scope.edges@, a, e + 1) by {
                if a != from {
                    assert(succs@[a] == sb[a]);
                }
            }
        }
        e += 1;
    }
    (preds, succs)
}

/// Writes each bucket position into `orders`.
fn renumber(scope: &mut Scope, bucket: &Vec<usize>, l: usize)
    requires
        old(scope).wf(),
        forall|j: int| 0 <= j < bucket.len() ==> #[trigger] bucket@[j] < old(scope).items.len()
            && old(scope).layers@[bucket@[j] as int] == l,
        bucket.len() == count_layer(old(scope).layers@, l, old(scope).items.len() as int),
        orders_ok(*old(scope)),
    ensures
        final(scope).wf(),
        orders_ok(*final(scope)),
        final(scope).items@ == old(scope).items@,
        final(scope).edges@ == old(scope).edges@,
        final(scope).layers@ == old(scope).layers@,
        final(scope).widths@ == old(scope).widths@,
        final(scope).heights@ == old(scope).heights@,
        final(scope).xs@ == old(scope).xs@,
        final(scope).ys@ == old(scope).ys@,
        forall|j: int|
            0 <= j < bucket.len() && (forall|k: int| j < k < bucket.len() ==> bucket@[k] != bucket@[j])
                ==> #[trigger] final(scope).orders@[bucket@[j] as int] == j,
        forall|i: int|
            0 <= i < old(scope).items.len() && !bucket@.contains(i as usize) ==> #[trigger] final(scope).orders@[i]
                == old(scope).orders@[i],
{
    let mut j: usize = 0;
    while j < bucket.len()
        invariant
            j <= bucket.len(),
            forall|q: int|
                0 <= q < j && (forall|k: int| q < k < j ==> bucket@[k] != bucket@[q]) ==> #[trigger] scope.orders@[bucket@[q] as int] == q,
            forall|i: int|
                0 <= i < old(scope).items.len() && !bucket@.take(j as int).contains(i as usize) ==> #[trigger] scope.orders@[i]
                    == old(scope).orders@[i],
            scope.wf(),
            orders_ok(*scope),
            scope.items@ == old(scope).items@,
            scope.edges@ == old(scope).edges@,
            scope.layers@ == old(scope).layers@,
            scope.widths@ == old(scope).widths@,
            scope.heights@ == old(scope).heights@,
            scope.xs@ == old(scope).xs@,
            scope.ys@ == old(scope).ys@,
            forall|k: int| 0 <= k < bucket.len() ==> #[trigger] bucket@[k] < old(scope).items.len()
                && old(scope).layers@[bucket@[k] as int] == l,
            bucket.len() == count_layer(old(scope).layers@, l, old(scope).items.len() as int),
        decreases bucket.len() - j,
    {
        let id = bucket[j];
        let ghost before = scope.orders@;
        scope.orders.set(id, j);
        proof {
            assert(bucket@.take(j + 1) =~= bucket@.take(j as int).push(id));
            assert forall|i: int|
                0 <= i < old(scope).items.len() && !bucket@.take(j + 1).contains(i as usize) implies #[trigger] scope.orders@[i]
                    == old(scope).orders@[i] by {
                assert(bucket@.take(j + 1)[j as int] == id);
                assert(i != id);
                if bucket@.take(j as int).contains(i as usize) {
                    let q = choose|q: int| 0 <= q < j && bucket@.take(j as int)[q] == i as usize;
                    assert(bucket@.take(j + 1)[q] == i as usize);
                }
            }
            assert forall|q: int|
                0 <= q < j + 1 && (forall|k: int| q < k < j + 1 ==> bucket@[k] != bucket@[q]) implies #[trigger] scope.orders@[bucket@[q] as int] == q by {
                if q < j {
                    assert(bucket@[j as int] != bucket@[q]);
                    assert(before[bucket@[q] as int] == q);
                }
            }
        }
        j += 1;
    }
    proof {
        assert(bucket@.take(bucket.len() as int) =~= bucket@);
    }
}

proof fn lemma_bucket_sorted_ok(old_b: Seq<usize>, new_b: Seq<usize>, layers: Seq<usize>, l: usize)
    requires
        new_b.to_multiset() == old_b.to_multiset(),
        forall|j: int| 0 <= j < old_b.len() ==> #[trigger] old_b[j] < layers.len() && layers[old_b[j] as int] == l,
    ensures
        forall|j: int| 0 <= j < new_b.len() ==> #[trigger] new_b[j] < layers.len() && layers[new_b[j] as int] == l,
{
    broadcast use vstd::seq_lib::group_to_multiset_ensures;

    assert forall|j: int| 0 <= j < new_b.len() implies #[trigger] new_b[j] < layers.len() && layers[new_b[j] as int] == l by {
        assert(new_b.to_multiset().count(new_b[j]) > 0);
        assert(old_b.contains(new_b[j]));
        let k = choose|k: int| 0 <= k < old_b.len() && old_b[k] == new_b[j];
        assert(old_b[k] == new_b[j]);
    }
}

/// The buckets hold each item once, in its own layer's bucket, and the
/// items of the first `upto` buckets are numbered by their position.
pub open spec fn orders_match(scope: Scope, b: Seq<Vec<usize>>, upto: int) -> bool {
    &&& forall|l: int| 0 <= l < b.len() ==> (#[trigger] b[l])@.no_duplicates()
    &&& forall|i: int| 0 <= i < scope.layers.len() ==> (#[trigger] b[scope.layers@[i] as int])@.contains(i as usize)
    &&& forall|l: int, j: int| 0 <= l < upto && 0 <= j < b[l].len() ==> #[trigger] scope.orders@[b[l]@[j] as int] == j
}

/// Within a layer no two items share an order.
pub open spec fn orders_distinct(scope: Scope) -> bool {
    forall|a: int, b: int|
        0 <= a < scope.items.len() && 0 <= b < scope.items.len() && scope.layers@[a] == scope.layers@[b]
            && #[trigger] scope.orders@[a] == #[trigger] scope.orders@[b] ==> a == b
}

proof fn lemma_match_distinct(scope: Scope, b: Seq<Vec<usize>>, max: usize)
    requires
        scope.wf(),
        forall|i: int| 0 <= i < scope.layers.len() ==> #[trigger] scope.layers@[i] <= max,
        buckets_ok(b, scope.layers@, max),
        orders_match(scope, b, b.len() as int),
    ensures
        orders_distinct(scope),
{
    assert forall|a: int, c: int|
        0 <= a < scope.items.len() && 0 <= c < scope.items.len() && scope.layers@[a] == scope.layers@[c]
            && #[trigger] scope.orders@[a] == #[trigger] scope.orders@[c] implies a == c by {
        let L = scope.layers@[a] as int;
        assert(b[L]@.contains(a as usize));
        assert(b[L]@.contains(c as usize));
        let p = choose|p: int| 0 <= p < b[L]@.len() && b[L]@[p] == a as usize;
        let q = choose|q: int| 0 <= q < b[L]@.len() && b[L]@[q] == c as usize;
        assert(scope.orders@[b[L]@[p] as int] == p);
        assert(scope.orders@[b[L]@[q] as int] == q);
    }
}

proof fn lemma_match_renumber(s0: Scope, s1: Scope, b: Seq<Vec<usize>>, l: int, max: usize)
    requires
        s0.wf(),
        s1.wf(),
        s1.layers@ == s0.layers@,
        buckets_ok(b, s0.layers@, max),
        0 <= l < b.len(),
        orders_match(s0, b, l),
        forall|j: int|
            0 <= j < b[l].len() && (forall|k: int| j < k < b[l].len() ==> b[l]@[k] != b[l]@[j])
                ==> #[trigger] s1.orders@[b[l]@[j] as int] == j,
        forall|i: int|
            0 <= i < s0.items.len() && !b[l]@.contains(i as usize) ==> #[trigger] s1.orders@[i] == s0.orders@[i],
    ensures
        orders_match(s1, b, l + 1),
{
    assert forall|l2: int, j: int| 0 <= l2 < l + 1 && 0 <= j < b[l2].len() implies #[trigger] s1.orders@[b[l2]@[j] as int] == j by {
        if l2 == l {
            assert(b[l]@.no_duplicates());
            assert forall|k: int| j < k < b[l].len() implies b[l]@[k] != b[l]@[j] by {}
        } else {
            let it = b[l2]@[j];
            assert(s0.layers@[it as int] == l2);
            if b[l]@.contains(it) {
                let p = choose|p: int| 0 <= p < b[l]@.len() && b[l]@[p] == it;
                assert(s0.layers@[b[l]@[p] as int] == l);
            }
            assert(s1.orders@[it as int] == s0.orders@[it as int]);
        }
    }
}

proof fn lemma_match_sorted(s0: Scope, s1: Scope, b0: Seq<Vec<usize>>, b1: Seq<Vec<usize>>, l: int, max: usize)
    requires
        s0.wf(),
        forall|i: int| 0 <= i < s0.layers.len() ==> #[trigger] s0.layers@[i] <= max,
        s1.wf(),
        s1.layers@ == s0.layers@,
        buckets_ok(b0, s0.layers@, max),
        buckets_ok(b1, s1.layers@, max),
        orders_match(s0, b0, b0.len() as int),
        0 <= l < b0.len(),
        b1.len() == b0.len(),
        b1[l]@.to_multiset() == b0[l]@.to_multiset(),
        forall|k: int| 0 <= k < b0.len() && k != l ==> #[trigger] b1[k] == b0[k],
        forall|j: int|
            0 <= j < b1[l].len() && (forall|k: int| j < k < b1[l].len() ==> b1[l]@[k] != b1[l]@[j])
                ==> #[trigger] s1.orders@[b1[l]@[j] as int] == j,
        forall|i: int| 0 <= i < s0.items.len() && s0.layers@[i] != l ==> #[trigger] s1.orders@[i] == s0.orders@[i],
    ensures
        orders_match(s1, b1, b1.len() as int),
{
    broadcast use vstd::seq_lib::group_to_multiset_ensures;
    b0[l]@.lemma_multiset_has_no_duplicates();
    b1[l]@.lemma_multiset_has_no_duplicates_conv();
    assert forall|k: int| 0 <= k < b1.len() implies (#[trigger] b1[k])@.no_duplicates() by {
        if k != l {
            assert(b1[k] == b0[k]);
        }
    }
    assert forall|i: int| 0 <= i < s1.layers.len() implies (#[trigger] b1[s1.layers@[i] as int])@.contains(i as usize) by {
        let L = s1.layers@[i] as int;
        assert(b0[L]@.contains(i as usize));
        if L != l {
            assert(b1[L] == b0[L]);
        } else {
            assert(b0[l]@.to_multiset().count(i as usize) > 0);
        }
    }
    assert forall|l2: int, j: int| 0 <= l2 < b1.len() && 0 <= j < b1[l2].len() implies #[trigger] s1.orders@[b1[l2]@[j] as int] == j by {
        if l2 == l {
            assert forall|k: int| j < k < b1[l].len() implies b1[l]@[k] != b1[l]@[j] by {}
        } else {
            assert(b1[l2] == b0[l2]);
            let it = b1[l2]@[j];
            assert(s0.layers@[it as int] == l2);
            assert(s0.orders@[b0[l2]@[j] as int] == j);
        }
    }
}

/// Crossing reduction: alternate down sweeps (order by predecessors) and
/// up sweeps (order by successors), renumbering orders after each layer.
/// The targets of the edges among the first `m` that leave item `a`, in
/// edge order.
pub open spec fn succs_of(edges: Seq<SliceEdge>, a: int, m: int) -> Seq<usize>
    decreases m,
{
    if m <= 0 {
        Seq::empty()
    } else if edges[m - 1].from == a {
        succs_of(edges, a, m - 1).push(edges[m - 1].to)
    } else {
        succs_of(edges, a, m - 1)
    }
}

/// Item `a` has successors, and all of them lie in the next layer.
pub open spec fn fwd_item(s: Scope, a: int) -> bool {
    let ns = succs_of(s.edges@, a, s.edges.len() as int);
    &&& ns.len() > 0
    &&& forall|j: int| 0 <= j < ns.len() ==> #[trigger] ns[j] < s.items.len() && s.layers@[ns[j] as int] == s.layers@[a] + 1
}

/// Along layer `k`, items whose successors all lie in the next layer come
/// in order of the barycenter of their successors' orders.
pub open spec fn sorted_fwd(s: Scope, k: int) -> bool {
    forall|a: int, b: int|
        0 <= a < s.items.len() && 0 <= b < s.items.len() && s.layers@[a] == k && s.layers@[b] == k && #[trigger] fwd_item(s, a)
            && #[trigger] fwd_item(s, b) && s.orders@[a] < s.orders@[b] ==> !frac_lt(
            bary(s.orders@, succs_of(s.edges@, b, s.edges.len() as int), b),
            bary(s.orders@, succs_of(s.edges@, a, s.edges.len() as int), a),
        )
}

proof fn lemma_frac_le_trans(a: (usize, usize), b: (usize, usize), c: (usize, usize))
    requires
        !frac_lt(b, a),
        !frac_lt(c, b),
        a.1 > 0,
        b.1 > 0,
        c.1 > 0,
    ensures
        !frac_lt(c, a),
{
    let (a0, a1, b0, b1, c0, c1) = (a.0 as int, a.1 as int, b.0 as int, b.1 as int, c.0 as int, c.1 as int);
    assert(a0 * c1 <= c0 * a1) by (nonlinear_arith)
        requires
            a0 * b1 <= b0 * a1,
            b0 * c1 <= c0 * b1,
            a1 > 0,
            b1 > 0,
            c1 > 0,
            a0 >= 0,
            b0 >= 0,
            c0 >= 0,
    ;
}

/// Along a chain of keys that never drop, a later key is never below an
/// earlier one.
proof fn lemma_frac_chain(keys: Seq<(usize, usize)>, p: int, q: int)
    requires
        forall|j: int| 0 <= j < keys.len() ==> #[trigger] keys[j].1 > 0,
        forall|j: int| 0 <= j < keys.len() - 1 ==> !frac_lt(keys[j + 1], #[trigger] keys[j]),
        0 <= p <= q < keys.len(),
    ensures
        !frac_lt(keys[q], keys[p]),
    decreases q - p,
{
    if p < q {
        lemma_frac_chain(keys, p, q - 1);
        assert(!frac_lt(keys[q], keys[q - 1]));
        lemma_frac_le_trans(keys[p], keys[q - 1], keys[q]);
    }
}

proof fn lemma_order_sum_same(o1: Seq<usize>, o2: Seq<usize>, ns: Seq<usize>, k: int)
    requires
        0 <= k <= ns.len(),
        forall|j: int| 0 <= j < ns.len() ==> o1[#[trigger] ns[j] as int] == o2[ns[j] as int],
    ensures
        order_sum(o1, ns, k) == order_sum(o2, ns, k),
    decreases k,
{
    if k > 0 {
        lemma_order_sum_same(o1, o2, ns, k - 1);
        assert(o1[ns[k - 1] as int] == o2[ns[k - 1] as int]);
    }
}

/// A forward item's barycenter depends only on its successors' orders.
proof fn lemma_bary_fwd_same(s1: Scope, s2: Scope, a: int)
    requires
        fwd_item(s1, a),
        s2.edges@ == s1.edges@,
        s2.layers@ == s1.layers@,
        s2.items@ == s1.items@,
        0 <= a < s1.items.len(),
        forall|i: int| 0 <= i < s1.items.len() && s1.layers@[i] == s1.layers@[a] + 1 ==> #[trigger] s2.orders@[i] == s1.orders@[i],
    ensures
        fwd_item(s2, a),
        bary(s2.orders@, succs_of(s2.edges@, a, s2.edges.len() as int), a) == bary(s1.orders@, succs_of(s1.edges@, a, s1.edges.len() as int), a),
{
    let ns = succs_of(s1.edges@, a, s1.edges.len() as int);
    assert forall|j: int| 0 <= j < ns.len() implies s1.orders@[#[trigger] ns[j] as int] == s2.orders@[ns[j] as int] by {
        assert(ns[j] < s1.items.len() && s1.layers@[ns[j] as int] == s1.layers@[a] + 1);
    }
    lemma_order_sum_same(s1.orders@, s2.orders@, ns, ns.len() as int);
}

/// Sorting other layers keeps layer `k` ordered by its successors, as
/// long as the orders of layers `k` and `k + 1` stay.
proof fn lemma_sorted_fwd_keep(s1: Scope, s2: Scope, k: int)
    requires
        sorted_fwd(s1, k),
        s2.edges@ == s1.edges@,
        s2.layers@ == s1.layers@,
        s2.items@ == s1.items@,
        s1.items.len() == s1.layers.len(),
        forall|i: int| 0 <= i < s1.items.len() && (s1.layers@[i] == k || s1.layers@[i] == k + 1) ==> #[trigger] s2.orders@[i] == s1.orders@[i],
    ensures
        sorted_fwd(s2, k),
{
    assert forall|a: int, b: int|
        0 <= a < s2.items.len() && 0 <= b < s2.items.len() && s2.layers@[a] == k && s2.layers@[b] == k && #[trigger] fwd_item(s2, a)
            && #[trigger] fwd_item(s2, b) && s2.orders@[a] < s2.orders@[b] implies !frac_lt(
            bary(s2.orders@, succs_of(s2.edges@, b, s2.edges.len() as int), b),
            bary(s2.orders@, succs_of(s2.edges@, a, s2.edges.len() as int), a),
        ) by {
        assert(fwd_item(s1, a));
        assert(fwd_item(s1, b));
        lemma_bary_fwd_same(s1, s2, a);
        lemma_bary_fwd_same(s1, s2, b);
    }
}

/// Once layer `k`'s bucket is sorted by barycenter over the successor
/// lists and renumbered, the layer is ordered by its successors.
proof fn lemma_sorted_fwd_after_sort(s0: Scope, s1: Scope, bk: Seq<usize>, succs: Seq<Vec<usize>>, k: int)
    requires
        s1.edges@ == s0.edges@,
        s1.layers@ == s0.layers@,
        s1.items@ == s0.items@,
        s0.items.len() == s0.layers.len(),
        succs.len() == s0.items.len(),
        forall|a: int| 0 <= a < succs.len() ==> (#[trigger] succs[a])@ == succs_of(s0.edges@, a, s0.edges.len() as int),
        forall|j: int| 0 <= j < bk.len() ==> #[trigger] bk[j] < s0.items.len() && s0.layers@[bk[j] as int] == k,
        bk.no_duplicates(),
        forall|i: int| 0 <= i < s0.items.len() && s0.layers@[i] == k ==> bk.contains(i as usize),
        forall|j: int| 0 <= j < bk.len() ==> #[trigger] s1.orders@[bk[j] as int] == j,
        forall|i: int| 0 <= i < s0.items.len() && s0.layers@[i] != k ==> #[trigger] s1.orders@[i] == s0.orders@[i],
        forall|j: int|
            0 <= j < bk.len() - 1 ==> !frac_lt(
                bary(s0.orders@, succs[bk[j + 1] as int]@, bk[j + 1] as int),
                bary(s0.orders@, succs[#[trigger] bk[j] as int]@, bk[j] as int),
            ),
    ensures
        sorted_fwd(s1, k),
{
    let keys = Seq::new(bk.len(), |j: int| bary(s0.orders@, succs[bk[j] as int]@, bk[j] as int));
    assert forall|j: int| 0 <= j < keys.len() implies #[trigger] keys[j].1 > 0 by {
        let v = succs[bk[j] as int];
        assert(v@.len() == v.len());
    }
    assert forall|j: int| 0 <= j < keys.len() - 1 implies !frac_lt(keys[j + 1], #[trigger] keys[j]) by {
        assert(!frac_lt(
            bary(s0.orders@, succs[bk[j + 1] as int]@, bk[j + 1] as int),
            bary(s0.orders@, succs[bk[j] as int]@, bk[j] as int),
        ));
    }
    assert forall|a: int, b: int|
        0 <= a < s1.items.len() && 0 <= b < s1.items.len() && s1.layers@[a] == k && s1.layers@[b] == k && #[trigger] fwd_item(s1, a)
            && #[trigger] fwd_item(s1, b) && s1.orders@[a] < s1.orders@[b] implies !frac_lt(
            bary(s1.orders@, succs_of(s1.edges@, b, s1.edges.len() as int), b),
            bary(s1.orders@, succs_of(s1.edges@, a, s1.edges.len() as int), a),
        ) by {
        assert(bk.contains(a as usize));
        assert(bk.contains(b as usize));
        let p = choose|p: int| 0 <= p < bk.len() && bk[p] == a as usize;
        let q = choose|q: int| 0 <= q < bk.len() && bk[q] == b as usize;
        assert(s1.orders@[bk[p] as int] == p);
        assert(s1.orders@[bk[q] as int] == q);
        lemma_frac_chain(keys, p, q);
        assert forall|i: int| 0 <= i < s1.items.len() && s1.layers@[i] == s1.layers@[a] + 1 implies #[trigger] s0.orders@[i] == s1.orders@[i] by {}
        lemma_bary_fwd_same(s1, s0, a);
        lemma_bary_fwd_same(s1, s0, b);
        assert(keys[p] == bary(s0.orders@, succs_of(s0.edges@, a, s0.edges.len() as int), a));
        assert(keys[q] == bary(s0.orders@, succs_of(s0.edges@, b, s0.edges.len() as int), b));
    }
}

/// In a layer ordered by its successors, edges out of items with a single
/// successor in the next layer never cross: the successors come in the
/// same order as the items.
pub proof fn law_single_successors_uncrossed(s: Scope, k: int)
    requires
        sorted_fwd(s, k),
    ensures
        forall|a: int, b: int|
            0 <= a < s.items.len() && 0 <= b < s.items.len() && s.layers@[a] == k && s.layers@[b] == k && #[trigger] fwd_item(s, a)
                && #[trigger] fwd_item(s, b) && succs_of(s.edges@, a, s.edges.len() as int).len() == 1 && succs_of(
                s.edges@,
                b,
                s.edges.len() as int,
            ).len() == 1 && s.orders@[a] < s.orders@[b] ==> s.orders@[succs_of(s.edges@, a, s.edges.len() as int)[0] as int]
                <= s.orders@[succs_of(s.edges@, b, s.edges.len() as int)[0] as int],
{
    assert forall|a: int, b: int|
        0 <= a < s.items.len() && 0 <= b < s.items.len() && s.layers@[a] == k && s.layers@[b] == k && #[trigger] fwd_item(s, a)
            && #[trigger] fwd_item(s, b) && succs_of(s.edges@, a, s.edges.len() as int).len() == 1 && succs_of(
            s.edges@,
            b,
            s.edges.len() as int,
        ).len() == 1 && s.orders@[a] < s.orders@[b] implies s.orders@[succs_of(s.edges@, a, s.edges.len() as int)[0] as int]
            <= s.orders@[succs_of(s.edges@, b, s.edges.len() as int)[0] as int] by {
        let na = succs_of(s.edges@, a, s.edges.len() as int);
        let nb = succs_of(s.edges@, b, s.edges.len() as int);
        assert(order_sum(s.orders@, na, 0) == 0);
        assert(order_sum(s.orders@, nb, 0) == 0);
        assert(order_sum(s.orders@, na, 1) == s.orders@[na[0] as int]);
        assert(order_sum(s.orders@, nb, 1) == s.orders@[nb[0] as int]);
        let ka = bary(s.orders@, na, a);
        let kb = bary(s.orders@, nb, b);
        assert(ka == (s.orders@[na[0] as int], 1usize));
        assert(kb == (s.orders@[nb[0] as int], 1usize));
        assert(!frac_lt(kb, ka));
        assert(kb.0 * ka.1 == kb.0 && ka.0 * kb.1 == ka.0) by (nonlinear_arith)
            requires
                ka.1 == 1usize,
                kb.1 == 1usize,
        ;
    }
}

/// No item of the last layer (or above) has all its successors one layer
/// further, so such layers are trivially ordered by their successors.
proof fn lemma_no_fwd_top(s: Scope, m: usize)
    requires
        forall|i: int| 0 <= i < s.layers.len() ==> #[trigger] s.layers@[i] <= m,
        s.items.len() == s.layers.len(),
    ensures
        forall|k: int| m <= k ==> #[trigger] sorted_fwd(s, k),
{
    assert forall|k: int| m <= k implies #[trigger] sorted_fwd(s, k) by {
        assert forall|a: int, b: int|
            0 <= a < s.items.len() && 0 <= b < s.items.len() && s.layers@[a] == k && s.layers@[b] == k && #[trigger] fwd_item(s, a)
                && #[trigger] fwd_item(s, b) && s.orders@[a] < s.orders@[b] implies !frac_lt(
                bary(s.orders@, succs_of(s.edges@, b, s.edges.len() as int), b),
                bary(s.orders@, succs_of(s.edges@, a, s.edges.len() as int), a),
            ) by {
            let ns = succs_of(s.edges@, a, s.edges.len() as int);
            assert(ns[0] < s.items.len() && s.layers@[ns[0] as int] == s.layers@[a] + 1);
            assert(s.layers@[ns[0] as int] <= m);
        }
    }
}

fn order_layers_scope(scope: &mut Scope)
    requires
        old(scope).wf(),
        layers_capped(*old(scope)),
    ensures
        final(scope).wf(),
        layers_capped(*final(scope)),
        orders_ok(*final(scope)),
        orders_distinct(*final(scope)),
        final(scope).items@ == old(scope).items@,
        final(scope).edges@ == old(scope).edges@,
        final(scope).layers@ == old(scope).layers@,
        final(scope).widths@ == old(scope).widths@,
        final(scope).heights@ == old(scope).heights@,
        final(scope).xs@ == old(scope).xs@,
        final(scope).ys@ == old(scope).ys@,
        forall|k: int| #[trigger] sorted_fwd(*final(scope), k),
{
    let iterations: usize = 8;
    let max_layer = max_layer_of(&scope.layers);
    let n = scope.len();
    // Every layer is renumbered below; start from zero.
    let mut i: usize = 0;
    while i < n
        invariant
            n == scope.items.len(),
            i <= n,
            scope.wf(),
            forall|t: int| 0 <= t < i ==> #[trigger] scope.orders@[t] == 0,
            scope.items@ == old(scope).items@,
            scope.edges@ == old(scope).edges@,
            scope.layers@ == old(scope).layers@,
            scope.widths@ == old(scope).widths@,
            scope.heights@ == old(scope).heights@,
            scope.xs@ == old(scope).xs@,
            scope.ys@ == old(scope).ys@,
        decreases n - i,
    {
        scope.orders.set(i, 0);
        i += 1;
    }
    proof {
        if max_layer != 0 {
            let k = choose|k: int| 0 <= k < scope.layers.len() && scope.layers@[k] == max_layer;
            assert(scope.layers@[k] < usize::MAX);
        }
        assert forall|i: int| 0 <= i < n implies #[trigger] scope.orders@[i] < count_layer(scope.layers@, scope.layers@[i], n as int) by {
            lemma_count_self(scope.layers@, i, n as int);
        }
    }
    let mut layers = build_buckets(&scope.layers, max_layer);
    let mut l: usize = 0;
    while l < layers.len()
        invariant
            scope.wf(),
            orders_ok(*scope),
            l <= layers.len(),
            orders_match(*scope, layers@, l as int),
            buckets_ok(layers@, scope.layers@, max_layer),
            n == scope.items.len(),
            scope.items@ == old(scope).items@,
            scope.edges@ == old(scope).edges@,
            scope.layers@ == old(scope).layers@,
            scope.widths@ == old(scope).widths@,
            scope.heights@ == old(scope).heights@,
            scope.xs@ == old(scope).xs@,
            scope.ys@ == old(scope).ys@,
        decreases layers.len() - l,
    {
        let ghost s0 = *scope;
        renumber(scope, &layers[l], l);
        proof {
            lemma_match_renumber(s0, *scope, layers@, l as int, max_layer);
        }
        l += 1;
    }
    let (preds, succs) = neighbor_lists(scope);
    assert(orders_match(*scope, layers@, layers.len() as int));
    let mut it: usize = 0;
    while it < iterations
        invariant
            iterations == 8,
            forall|a: int| 0 <= a < succs.len() ==> (#[trigger] succs@[a])@ == succs_of(scope.edges@, a, scope.edges.len() as int),
            it > 0 ==> forall|k: int| #[trigger] sorted_fwd(*scope, k),
            max_layer < usize::MAX,
            scope.wf(),
            orders_ok(*scope),
            buckets_ok(layers@, scope.layers@, max_layer),
            orders_match(*scope, layers@, layers.len() as int),
            forall|i: int| 0 <= i < scope.layers.len() ==> #[trigger] scope.layers@[i] <= max_layer,
            n == scope.items.len(),
            preds.len() == n,
            succs.len() == n,
            forall|a: int, b: int|
                0 <= a < preds.len() && 0 <= b < preds@[a].len() ==> #[trigger] preds@[a]@[b] < n,
            forall|a: int, b: int|
                0 <= a < succs.len() && 0 <= b < succs@[a].len() ==> #[trigger] succs@[a]@[b] < n,
            scope.items@ == old(scope).items@,
            scope.edges@ == old(scope).edges@,
            scope.layers@ == old(scope).layers@,
            scope.widths@ == old(scope).widths@,
            scope.heights@ == old(scope).heights@,
            scope.xs@ == old(scope).xs@,
            scope.ys@ == old(scope).ys@,
        decreases iterations - it,
    {
        let mut l: usize = 1;
        while l <= max_layer
            invariant
                1 <= l,
                max_layer < usize::MAX,
                scope.wf(),
                orders_ok(*scope),
                buckets_ok(layers@, scope.layers@, max_layer),
                orders_match(*scope, layers@, layers.len() as int),
            forall|i: int| 0 <= i < scope.layers.len() ==> #[trigger] scope.layers@[i] <= max_layer,
                n == scope.items.len(),
                preds.len() == n,
                forall|a: int, b: int|
                    0 <= a < preds.len() && 0 <= b < preds@[a].len() ==> #[trigger] preds@[a]@[b] < n,
                scope.items@ == old(scope).items@,
                scope.edges@ == old(scope).edges@,
                scope.layers@ == old(scope).layers@,
                scope.widths@ == old(scope).widths@,
                scope.heights@ == old(scope).heights@,
                scope.xs@ == old(scope).xs@,
                scope.ys@ == old(scope).ys@,
            decreases max_layer + 1 - l,
        {
            let ghost s0 = *scope;
            let ghost b0 = layers@;
            sort_one_layer(scope, &mut layers, l, &preds, max_layer);
            proof {
                lemma_match_sorted(s0, *scope, b0, layers@, l as int, max_layer);
            }
            l += 1;
        }
        proof {
            lemma_no_fwd_top(*scope, max_layer);
        }
        let mut l: usize = max_layer;
        while l > 0
            invariant
                l <= max_layer,
                forall|a: int| 0 <= a < succs.len() ==> (#[trigger] succs@[a])@ == succs_of(scope.edges@, a, scope.edges.len() as int),
                forall|k: int| l <= k ==> #[trigger] sorted_fwd(*scope, k),
                max_layer < usize::MAX,
                scope.wf(),
                orders_ok(*scope),
                buckets_ok(layers@, scope.layers@, max_layer),
                orders_match(*scope, layers@, layers.len() as int),
            forall|i: int| 0 <= i < scope.layers.len() ==> #[trigger] scope.layers@[i] <= max_layer,
                n == scope.items.len(),
                succs.len() == n,
                forall|a: int, b: int|
                    0 <= a < succs.len() && 0 <= b < succs@[a].len() ==> #[trigger] succs@[a]@[b] < n,
                scope.items@ == old(scope).items@,
                scope.edges@ == old(scope).edges@,
                scope.layers@ == old(scope).layers@,
                scope.widths@ == old(scope).widths@,
                scope.heights@ == old(scope).heights@,
                scope.xs@ == old(scope).xs@,
                scope.ys@ == old(scope).ys@,
            decreases l,
        {
            let ghost s0 = *scope;
            let ghost b0 = layers@;
            sort_one_layer(scope, &mut layers, l - 1, &succs, max_layer);
            proof {
                lemma_match_sorted(s0, *scope, b0, layers@, l - 1, max_layer);
                let k0 = l - 1;
                let bk = layers@[k0 as int]@;
                assert forall|j: int| 0 <= j < bk.len() implies #[trigger] scope.orders@[bk[j] as int] == j by {}
                assert forall|i: int| 0 <= i < s0.items.len() && s0.layers@[i] == k0 implies bk.contains(i as usize) by {
                    assert(layers@[scope.layers@[i] as int]@.contains(i as usize));
                }
                lemma_sorted_fwd_after_sort(s0, *scope, bk, succs@, k0 as int);
                assert forall|k: int| l - 1 <= k implies #[trigger] sorted_fwd(*scope, k) by {
                    if k >= l {
                        assert(sorted_fwd(s0, k));
                        lemma_sorted_fwd_keep(s0, *scope, k);
                    }
                }
            }
            l -= 1;
        }
        it += 1;
    }
    proof {
        lemma_match_distinct(*scope, layers@, max_layer);
    }
}

/// Sorts bucket `l` by barycenter over `neighbors` and renumbers it.
fn sort_one_layer(
    scope: &mut Scope,
    layers: &mut Vec<Vec<usize>>,
    l: usize,
    neighbors: &Vec<Vec<usize>>,
    max_layer: usize,
)
    requires
        old(scope).wf(),
        orders_ok(*old(scope)),
        buckets_ok(old(layers)@, old(scope).layers@, max_layer),
        l <= max_layer,
        neighbors.len() == old(scope).items.len(),
        forall|a: int, b: int|
            0 <= a < neighbors.len() && 0 <= b < neighbors@[a].len() ==> #[trigger] neighbors@[a]@[b]
                < old(scope).items.len(),
    ensures
        final(scope).wf(),
        orders_ok(*final(scope)),
        buckets_ok(final(layers)@, final(scope).layers@, max_layer),
        final(scope).items@ == old(scope).items@,
        final(scope).edges@ == old(scope).edges@,
        final(scope).layers@ == old(scope).layers@,
        final(scope).widths@ == old(scope).widths@,
        final(scope).heights@ == old(scope).heights@,
        final(scope).xs@ == old(scope).xs@,
        final(scope).ys@ == old(scope).ys@,
        final(layers)@[l as int]@.to_multiset() == old(layers)@[l as int]@.to_multiset(),
        forall|k: int| 0 <= k < old(layers).len() && k != l ==> #[trigger] final(layers)@[k] == old(layers)@[k],
        forall|j: int|
            0 <= j < final(layers)@[l as int].len() - 1 ==> !frac_lt(
                bary(old(scope).orders@, neighbors@[final(layers)@[l as int]@[j + 1] as int]@, final(layers)@[l as int]@[j + 1] as int),
                bary(old(scope).orders@, neighbors@[#[trigger] final(layers)@[l as int]@[j] as int]@, final(layers)@[l as int]@[j] as int),
            ),
        forall|j: int|
            0 <= j < final(layers)@[l as int].len() && (forall|k: int|
                j < k < final(layers)@[l as int].len() ==> final(layers)@[l as int]@[k] != final(layers)@[l as int]@[j])
                ==> #[trigger] final(scope).orders@[final(layers)@[l as int]@[j] as int] == j,
        forall|i: int|
            0 <= i < old(scope).items.len() && old(scope).layers@[i] != l ==> #[trigger] final(scope).orders@[i]
                == old(scope).orders@[i],
{
    let mut bucket: Vec<usize> = Vec::new();
    std::mem::swap(&mut bucket, &mut layers[l]);
    let ghost old_b = bucket@;
    assert(old_b == old(layers)@[l as int]@);
    sort_layer_by_neighbors_scope(&mut bucket, neighbors, scope);
    proof {
        lemma_bucket_sorted_ok(old_b, bucket@, scope.layers@, l);
    }
    let ghost sorted_b = bucket@;
    let ghost s0 = *scope;
    renumber(scope, &bucket, l);
    proof {
        assert forall|i: int| 0 <= i < s0.items.len() && s0.layers@[i] != l implies #[trigger] scope.orders@[i] == s0.orders@[i] by {
            if bucket@.contains(i as usize) {
                let q = choose|q: int| 0 <= q < bucket.len() && bucket@[q] == i as usize;
                assert(s0.layers@[bucket@[q] as int] == l);
            }
        }
    }
    std::mem::swap(&mut bucket, &mut layers[l]);
    assert(layers@[l as int]@ == sorted_b);
    proof {
        assert forall|k: int| 0 <= k < layers.len() implies (#[trigger] layers@[k]).len() == count_layer(scope.layers@, k as usize, scope.layers.len() as int) by {
            if k != l {
                assert(layers@[k] == old(layers)@[k]);
            }
        }
        assert forall|k: int, j: int|
            0 <= k < layers.len() && 0 <= j < layers@[k].len() implies #[trigger] layers@[k]@[j] < scope.layers.len()
                && scope.layers@[layers@[k]@[j] as int] == k by {
            if k != l {
                assert(layers@[k] == old(layers)@[k]);
            }
        }
    }
}


// ---------------------------------------------------------------------------
// Coordinate assignment along the minor axis.
/// Per-layer positions line up with the layer buckets.
pub open spec fn lx_ok(lx: Seq<Vec<usize>>, b: Seq<Vec<usize>>) -> bool {
    &&& lx.len() == b.len()
    &&& forall|l: int| 0 <= l < lx.len() ==> (#[trigger] lx[l]).len() == b[l].len()
}

/// The neighbours in `ns` can be looked up in the position table.
pub open spec fn lookups_ok(ns: Seq<usize>, lx: Seq<Vec<usize>>, scope: Scope) -> bool {
    forall|k: int|
        0 <= k < ns.len() ==> #[trigger] ns[k] < scope.items.len() && scope.layers@[ns[k] as int]
            < lx.len() && scope.orders@[ns[k] as int] < lx[scope.layers@[ns[k] as int] as int].len()
}

/// Position of item `ni` in the table.
pub open spec fn pos_of(lx: Seq<Vec<usize>>, scope: Scope, ni: usize) -> usize {
    lx[scope.layers@[ni as int] as int]@[scope.orders@[ni as int] as int]
}

/// Twice the sum of the neighbours' centers (saturating): sum of
/// `2 * x + width`.
pub open spec fn center2_sum(lx: Seq<Vec<usize>>, scope: Scope, ns: Seq<usize>, k: int) -> u128
    decreases k,
{
    if k <= 0 {
        0
    } else {
        let ni = ns[k - 1];
        center2_sum(lx, scope, ns, k - 1).saturating_add(
            (2 * pos_of(lx, scope, ni) + scope.widths@[ni as int]) as u128,
        )
    }
}

/// Where item `id` goes to sit centered under the mean center of its
/// neighbours: the mean center minus half its width, rounded half up,
/// never below 0. `None` without neighbours.
pub open spec fn target_x(lx: Seq<Vec<usize>>, scope: Scope, id: usize, ns: Seq<usize>) -> Option<
    usize,
> {
    if ns.len() == 0 {
        None
    } else {
        let k = ns.len() as u128;
        let s2 = center2_sum(lx, scope, ns, ns.len() as int);
        let kw = (k * scope.widths@[id as int]) as u128;
        if s2 < kw {
            Some(0)
        } else {
            let q = ((s2 - kw) as u128).saturating_add(k) / (2 * k) as u128;
            Some(
                if q > usize::MAX {
                    usize::MAX
                } else {
                    q as usize
                },
            )
        }
    }
}

fn neighbor_target_x_scope(
    id: usize,
    neighbors: &Vec<usize>,
    layer_x: &Vec<Vec<usize>>,
    scope: &Scope,
) -> (r: Option<usize>)
    requires
        scope.wf(),
        id < scope.items.len(),
        lookups_ok(neighbors@, layer_x@, *scope),
    ensures
        r == target_x(layer_x@, *scope, id, neighbors@),
{
    if neighbors.len() == 0 {
        return None;
    }
    let mut s2: u128 = 0;
    let mut k: usize = 0;
    while k < neighbors.len()
        invariant
            k <= neighbors.len(),
            scope.wf(),
            lookups_ok(neighbors@, layer_x@, *scope),
            s2 == center2_sum(layer_x@, *scope, neighbors@, k as int),
        decreases neighbors.len() - k,
    {
        let ni = neighbors[k];
        let x = layer_x[scope.layers[ni]][scope.orders[ni]];
        let term: u128 = 2 * (x as u128) + (scope.widths[ni] as u128);
        s2 = s2.saturating_add(term);
        k += 1;
    }
    let kk = neighbors.len() as u128;
    proof {
        lemma_mul_fits(neighbors.len(), scope.widths@[id as int]);
    }
    let kw = kk * (scope.widths[id] as u128);
    if s2 < kw {
        Some(0)
    } else {
        let q = (s2 - kw).saturating_add(kk) / (2 * kk);
        Some(
            if q > usize::MAX as u128 {
                usize::MAX
            } else {
                q as usize
            },
        )
    }
}

/// Where the next item may start after one at `x` of width `w`: past its
/// end and the gap (saturating).
pub open spec fn next_start(x: usize, w: usize, gap: usize) -> usize {
    sat_add(sat_add(x as nat, w as nat) as nat, gap as nat)
}

/// Along a layer, each item starts at or after the end of the one before
/// it plus the gap (saturating).
pub open spec fn spaced(row: Seq<usize>, ids: Seq<usize>, widths: Seq<usize>, gap: usize) -> bool {
    forall|j: int| 0 < j < row.len() ==> #[trigger] row[j] >= next_start(row[j - 1], widths[ids[j - 1] as int], gap)
}

proof fn lemma_next_start_mono(a: usize, b: usize, w: usize, gap: usize)
    requires
        a <= b,
    ensures
        next_start(a, w, gap) <= next_start(b, w, gap),
{
}

proof fn lemma_below_ub(v: usize, x1: usize, w: usize, gap: usize)
    requires
        x1 >= next_start(0, w, gap),
        v <= (if x1 >= sat_add(w as nat, gap as nat) { (x1 - sat_add(w as nat, gap as nat)) as usize } else { 0usize }),
    ensures
        x1 >= next_start(v, w, gap),
{
}

#[verifier::loop_isolation(false)]
/// Re-place layer `l` against its neighbours: each item goes to its target
/// (or stays), pushed right past its left neighbour, then a right-to-left
/// pass pulls items back under the item to their right.
fn align_layer_scope(
    layers: &Vec<Vec<usize>>,
    layer_x: &mut Vec<Vec<usize>>,
    l: usize,
    neighbors: &Vec<Vec<usize>>,
    scope: &Scope,
    gap: usize,
)
    requires
        scope.wf(),
        lx_ok(old(layer_x)@, layers@),
        l < layers.len(),
        forall|j: int| 0 <= j < layers@[l as int].len() ==> #[trigger] layers@[l as int]@[j] < scope.items.len(),
        neighbors.len() == scope.items.len(),
        forall|a: int| 0 <= a < neighbors.len() ==> lookups_ok(#[trigger] neighbors@[a]@, old(layer_x)@, *scope),
    ensures
        lx_ok(final(layer_x)@, layers@),
        forall|k: int| 0 <= k < layers.len() && k != l ==> final(layer_x)@[k] == old(layer_x)@[k],
        spaced(final(layer_x)@[l as int]@, layers@[l as int]@, scope.widths@, gap),
{
    let n = layers[l].len();
    if n == 0 {
        return ;
    }
    let mut targets: Vec<Option<usize>> = Vec::new();
    let mut i: usize = 0;
    while i < n
        invariant
            i <= n,
            n == layers@[l as int].len(),
            targets.len() == i,
        decreases n - i,
    {
        let id = layers[l][i];
        targets.push(neighbor_target_x_scope(id, &neighbors[id], layer_x, scope));
        i += 1;
    }
    let mut new_x: Vec<usize> = Vec::new();
    let mut i: usize = 0;
    while i < n
        invariant
            i <= n,
            n == layers@[l as int].len(),
            targets.len() == n,
            new_x.len() == i,
            layer_x@[l as int].len() == n,
            forall|j: int| 0 <= j < n ==> #[trigger] layers@[l as int]@[j] < scope.items.len(),
            scope.wf(),
            forall|j: int| 0 < j < i ==> #[trigger] new_x@[j] >= next_start(new_x@[j - 1], scope.widths@[layers@[l as int]@[j - 1] as int], gap),
        decreases n - i,
    {
        let target = match targets[i] {
            Some(t) => t,
            None => layer_x[l][i],
        };
        let lb = if i == 0 {
            0
        } else {
            let prev_id = layers[l][i - 1];
            new_x[i - 1].saturating_add(scope.widths[prev_id]).saturating_add(gap)
        };
        new_x.push(if target > lb {
            target
        } else {
            lb
        });
        i += 1;
    }
    pull_back(&mut new_x, &targets, &layers[l], &scope.widths, gap);
    layer_x.set(l, new_x);
}

/// The right-to-left pass of `align_layer_scope`: each item goes to its
/// target (or stays), no further right than the gap before the item to
/// its right and no further left than the gap after the item to its left.
fn pull_back(new_x: &mut Vec<usize>, targets: &Vec<Option<usize>>, ids: &Vec<usize>, widths: &Vec<usize>, gap: usize)
    requires
        old(new_x).len() == targets.len(),
        old(new_x).len() == ids.len(),
        forall|j: int| 0 <= j < ids.len() ==> #[trigger] ids@[j] < widths.len(),
        forall|j: int| 0 < j < old(new_x).len() ==> #[trigger] old(new_x)@[j] >= next_start(old(new_x)@[j - 1], widths@[ids@[j - 1] as int], gap),
    ensures
        final(new_x).len() == old(new_x).len(),
        spaced(final(new_x)@, ids@, widths@, gap),
{
    let n = new_x.len();
    let ghost fwd = new_x@;
    let mut i: usize = n;
    while i > 0
        invariant
            i <= n,
            fwd.len() == n,
            forall|j: int| 0 < j < n ==> #[trigger] fwd[j] >= next_start(fwd[j - 1], widths@[ids@[j - 1] as int], gap),
            forall|j: int| 0 <= j < i ==> #[trigger] new_x@[j] == fwd[j],
            forall|j: int| i <= j < n && j > 0 ==> #[trigger] new_x@[j] >= next_start(fwd[j - 1], widths@[ids@[j - 1] as int], gap),
            forall|j: int| i <= j < n - 1 ==> #[trigger] new_x@[j + 1] >= next_start(new_x@[j], widths@[ids@[j] as int], gap),
            n == ids.len(),
            targets.len() == n,
            new_x.len() == n,
            forall|j: int| 0 <= j < ids.len() ==> #[trigger] ids@[j] < widths.len(),
            n == ids.len(),
        decreases i,
    {
        let k = i - 1;
        let target = match targets[k] {
            Some(t) => t,
            None => new_x[k],
        };
        let id = ids[k];
        let ub = if k == n - 1 {
            usize::MAX
        } else {
            new_x[k + 1].saturating_sub(widths[id].saturating_add(gap))
        };
        let lb = if k == 0 {
            0
        } else {
            let prev_id = ids[k - 1];
            new_x[k - 1].saturating_add(widths[prev_id]).saturating_add(gap)
        };
        let t = if target < ub {
            target
        } else {
            ub
        };
        let ghost before = new_x@;
        new_x.set(k, if t > lb {
            t
        } else {
            lb
        });
        proof {
            let v = new_x@[k as int];
            let w = widths@[ids@[k as int] as int];
            if k + 1 < n {
                let x1 = before[k + 1];
                assert(x1 >= next_start(fwd[k as int], w, gap));
                if v <= ub {
                    lemma_next_start_mono(0, fwd[k as int], w, gap);
                    lemma_below_ub(v, x1, w, gap);
                } else {
                    assert(v == lb);
                    assert(lb <= fwd[k as int]);
                    lemma_next_start_mono(v, fwd[k as int], w, gap);
                }
            }
        }
        i -= 1;
    }
    proof {
        assert(spaced(new_x@, ids@, widths@, gap)) by {
            assert forall|j: int| 0 < j < new_x@.len() implies #[trigger] new_x@[j] >= next_start(
                new_x@[j - 1],
                widths@[ids@[j - 1] as int],
                gap,
            ) by {
                assert(new_x@[(j - 1) + 1] >= next_start(new_x@[j - 1], widths@[ids@[j - 1] as int], gap));
            }
        }
    }
}

/// `v` capped at the largest `u128`.
pub open spec fn sat128(v: int) -> int {
    if v > u128::MAX {
        u128::MAX as int
    } else {
        v
    }
}

/// Over the first `j` items of layer `l`: the total distance from items
/// left of their targets, the total from items right of them, and how
/// many have a target.
pub open spec fn pulls(lx: Seq<Vec<usize>>, ids: Seq<usize>, neighbors: Seq<Vec<usize>>, scope: Scope, l: int, j: int) -> (nat, nat, nat)
    decreases j,
{
    if j <= 0 {
        (0, 0, 0)
    } else {
        let p = pulls(lx, ids, neighbors, scope, l, j - 1);
        let x = lx[l]@[j - 1];
        match target_x(lx, scope, ids[j - 1], neighbors[ids[j - 1] as int]@) {
            None => p,
            Some(t) => if t >= x {
                ((p.0 + (t - x)) as nat, p.1, p.2 + 1)
            } else {
                (p.0, (p.1 + (x - t)) as nat, p.2 + 1)
            },
        }
    }
}

/// The shift of a layer: rightwards or not, and by how much: the mean
/// pull rounded half away from zero (kept within `u128`, then `usize`).
pub open spec fn shift_of(p: (nat, nat, nat)) -> (bool, usize) {
    let right = p.0 >= p.1;
    let diff: int = if right { p.0 - p.1 } else { p.1 - p.0 };
    let mag: int = if p.2 == 0 { 0 } else { sat128(sat128(diff + diff) + p.2) / (2 * p.2 as int) };
    (right, if mag > usize::MAX { usize::MAX } else { mag as usize })
}

/// `m` is the least entry of `row`.
pub open spec fn row_min_is(row: Seq<usize>, m: usize) -> bool {
    &&& forall|q: int| 0 <= q < row.len() ==> m <= #[trigger] row[q]
    &&& exists|q: int| 0 <= q < row.len() && row[q] == m
}

proof fn lemma_pull_bound(a: nat, j: nat)
    requires
        a <= j * (usize::MAX as nat),
        j <= usize::MAX,
    ensures
        a <= u128::MAX,
{
    assert(j * (usize::MAX as nat) <= (usize::MAX as nat) * (usize::MAX as nat)) by (nonlinear_arith)
        requires j <= usize::MAX;
}

#[verifier::loop_isolation(false)]
/// Shift the whole of layer `l` by the rounded mean distance to its
/// neighbours' targets, never past 0.
fn block_shift_layer_scope(
    layers: &Vec<Vec<usize>>,
    layer_x: &mut Vec<Vec<usize>>,
    l: usize,
    neighbors: &Vec<Vec<usize>>,
    scope: &Scope,
)
    requires
        scope.wf(),
        lx_ok(old(layer_x)@, layers@),
        l < layers.len(),
        forall|j: int| 0 <= j < layers@[l as int].len() ==> #[trigger] layers@[l as int]@[j] < scope.items.len(),
        neighbors.len() == scope.items.len(),
        forall|a: int| 0 <= a < neighbors.len() ==> lookups_ok(#[trigger] neighbors@[a]@, old(layer_x)@, *scope),
    ensures
        lx_ok(final(layer_x)@, layers@),
        forall|k: int| 0 <= k < layers.len() && k != l ==> final(layer_x)@[k] == old(layer_x)@[k],
        ({
            let row = old(layer_x)@[l as int]@;
            let sh = shift_of(pulls(old(layer_x)@, layers@[l as int]@, neighbors@, *scope, l as int, row.len() as int));
            &&& sh.1 == 0 ==> final(layer_x)@[l as int]@ == row
            &&& sh.1 > 0 && sh.0 ==> forall|j: int| 0 <= j < row.len() ==> #[trigger] final(layer_x)@[l as int]@[j]
                == sat_add(row[j] as nat, sh.1 as nat)
            &&& sh.1 > 0 && !sh.0 ==> exists|m: usize|
                row_min_is(row, m) && forall|j: int| 0 <= j < row.len() ==> #[trigger] final(layer_x)@[l as int]@[j]
                    == row[j] - (if sh.1 < m { sh.1 } else { m })
        }),
{
    let n = layers[l].len();
    if n == 0 {
        return ;
    }
    // The signed sum of (target - x) over items with a target, kept as its
    // positive and negative parts.
    let mut pos_sum: u128 = 0;
    let mut neg_sum: u128 = 0;
    let mut count: usize = 0;
    let mut j: usize = 0;
    while j < n
        invariant
            j <= n,
            count <= j,
            n == layers@[l as int].len(),
            layer_x@[l as int].len() == n,
            layer_x@ == old(layer_x)@,
            (pos_sum as nat, neg_sum as nat, count as nat) == pulls(layer_x@, layers@[l as int]@, neighbors@, *scope, l as int, j as int),
            pos_sum <= j * (usize::MAX as nat),
            neg_sum <= j * (usize::MAX as nat),
        decreases n - j,
    {
        let id = layers[l][j];
        match neighbor_target_x_scope(id, &neighbors[id], layer_x, scope) {
            None => {},
            Some(target) => {
                let x = layer_x[l][j];
                proof {
                    assert((j + 1) * (usize::MAX as nat) == j * (usize::MAX as nat) + usize::MAX) by (nonlinear_arith);
                    lemma_pull_bound((pos_sum + usize::MAX) as nat, (j + 1) as nat);
                    lemma_pull_bound((neg_sum + usize::MAX) as nat, (j + 1) as nat);
                }
                if target >= x {
                    pos_sum = pos_sum.saturating_add((target - x) as u128);
                } else {
                    neg_sum = neg_sum.saturating_add((x - target) as u128);
                }
                count += 1;
            },
        }
        j += 1;
    }
    if count == 0 {
        return ;
    }
    let c2: u128 = 2 * (count as u128);
    // Mean rounded half away from zero, as a direction and a magnitude.
    let right = pos_sum >= neg_sum;
    let diff: u128 = if right {
        pos_sum - neg_sum
    } else {
        neg_sum - pos_sum
    };
    let mag: u128 = diff.saturating_add(diff).saturating_add(count as u128) / c2;
    if mag == 0 {
        return ;
    }
    let shift: usize = if mag > usize::MAX as u128 {
        usize::MAX
    } else {
        mag as usize
    };
    let mut row: Vec<usize> = Vec::new();
    std::mem::swap(&mut row, &mut layer_x[l]);
    let ghost orig = row@;
    assert(orig == old(layer_x)@[l as int]@);
    if right {
        let s: usize = shift;
        let mut k: usize = 0;
        while k < row.len()
            invariant
                k <= row.len(),
                row.len() == n,
                orig.len() == n,
                forall|q: int| 0 <= q < k ==> #[trigger] row@[q] == sat_add(orig[q] as nat, s as nat),
                forall|q: int| k <= q < n ==> #[trigger] row@[q] == orig[q],
            decreases row.len() - k,
        {
            row.set(k, row[k].saturating_add(s));
            k += 1;
        }
    } else {
        let s: usize = shift;
        let leftmost = min_of(&row);
        let actual = if s < leftmost {
            s
        } else {
            leftmost
        };
        proof {
            assert(row_min_is(orig, leftmost));
        }
        let mut k: usize = 0;
        while k < row.len()
            invariant
                k <= row.len(),
                row.len() == n,
                orig.len() == n,
                forall|q: int| k <= q < row.len() ==> actual <= #[trigger] row@[q],
                forall|q: int| 0 <= q < k ==> #[trigger] row@[q] == orig[q] - actual,
                forall|q: int| k <= q < n ==> #[trigger] row@[q] == orig[q],
            decreases row.len() - k,
        {
            row.set(k, row[k] - actual);
            k += 1;
        }
    }
    std::mem::swap(&mut row, &mut layer_x[l]);
}

/// Smallest entry (`usize::MAX` for an empty row).
fn min_of(v: &Vec<usize>) -> (m: usize)
    ensures
        forall|q: int| 0 <= q < v.len() ==> m <= #[trigger] v@[q],
        v.len() > 0 ==> exists|q: int| 0 <= q < v.len() && v@[q] == m,
{
    let mut m: usize = usize::MAX;
    let mut k: usize = 0;
    while k < v.len()
        invariant
            k <= v.len(),
            forall|q: int| 0 <= q < k ==> m <= #[trigger] v@[q],
            k > 0 ==> exists|q: int| 0 <= q < v.len() && v@[q] == m,
        decreases v.len() - k,
    {
        if k == 0 || v[k] < m {
            m = v[k];
        }
        k += 1;
    }
    m
}

/// Smallest position over all layers (0 when there is none).
pub open spec fn table_min_is(lx: Seq<Vec<usize>>, m: usize) -> bool {
    &&& forall|l: int, j: int| 0 <= l < lx.len() && 0 <= j < lx[l].len() ==> m <= #[trigger] lx[l]@[j]
    &&& (m == 0 || exists|l: int, j: int| 0 <= l < lx.len() && 0 <= j < lx[l].len() && lx[l]@[j] == m)
}

/// Where the table has an entry, some entry is `m`.
pub open spec fn table_attains(lx: Seq<Vec<usize>>, m: usize) -> bool {
    (exists|l: int| 0 <= l < lx.len() && (#[trigger] lx[l]).len() > 0) ==> exists|l: int, j: int|
        0 <= l < lx.len() && 0 <= j < lx[l].len() && #[trigger] lx[l]@[j] == m
}

/// Shift all positions left so that the smallest is 0.
fn normalize_x(layer_x: &mut Vec<Vec<usize>>)
    ensures
        final(layer_x).len() == old(layer_x).len(),
        forall|l: int| 0 <= l < final(layer_x).len() ==> (#[trigger] final(layer_x)@[l]).len() == old(layer_x)@[l].len(),
        exists|m: usize|
            table_min_is(old(layer_x)@, m) && table_attains(old(layer_x)@, m) && forall|l: int, j: int|
                0 <= l < final(layer_x).len() && 0 <= j < final(layer_x)@[l].len() ==> #[trigger] final(layer_x)@[l]@[j]
                    == old(layer_x)@[l]@[j] - m,
{
    let mut global_min: usize = usize::MAX;
    let mut any = false;
    let mut l: usize = 0;
    while l < layer_x.len()
        invariant
            l <= layer_x.len(),
            layer_x@ == old(layer_x)@,
            forall|a: int, j: int| 0 <= a < l && 0 <= j < layer_x@[a].len() ==> global_min <= #[trigger] layer_x@[a]@[j],
            any ==> exists|a: int, j: int| 0 <= a < layer_x.len() && 0 <= j < layer_x@[a].len() && layer_x@[a]@[j] == global_min,
            !any ==> forall|a: int| 0 <= a < l ==> (#[trigger] layer_x@[a]).len() == 0,
        decreases layer_x.len() - l,
    {
        let m = min_of(&layer_x[l]);
        if layer_x[l].len() > 0 {
            if !any || m < global_min {
                global_min = m;
            }
            any = true;
        }
        l += 1;
    }
    let global_min = if any {
        global_min
    } else {
        0
    };
    proof {
        assert(table_min_is(old(layer_x)@, global_min));
        if !any {
            assert forall|l2: int| 0 <= l2 < layer_x.len() implies (#[trigger] layer_x@[l2]).len() == 0 by {}
        }
        assert(table_attains(old(layer_x)@, global_min));
    }
    if global_min == 0 {
        return ;
    }
    let mut l: usize = 0;
    while l < layer_x.len()
        invariant
            l <= layer_x.len(),
            layer_x.len() == old(layer_x).len(),
            forall|a: int| 0 <= a < layer_x.len() ==> (#[trigger] layer_x@[a]).len() == old(layer_x)@[a].len(),
            table_min_is(old(layer_x)@, global_min),
            table_attains(old(layer_x)@, global_min),
            forall|a: int, j: int|
                0 <= a < l && 0 <= j < layer_x@[a].len() ==> #[trigger] layer_x@[a]@[j] == old(layer_x)@[a]@[j] - global_min,
            forall|a: int| l <= a < layer_x.len() ==> #[trigger] layer_x@[a] == old(layer_x)@[a],
        decreases layer_x.len() - l,
    {
        let mut row: Vec<usize> = Vec::new();
        std::mem::swap(&mut row, &mut layer_x[l]);
        let ghost orig = row@;
        assert(orig == old(layer_x)@[l as int]@);
        let mut k: usize = 0;
        while k < row.len()
            invariant
                k <= row.len(),
                row.len() == orig.len(),
                forall|j: int| 0 <= j < orig.len() ==> global_min <= #[trigger] orig[j],
                forall|j: int| 0 <= j < k ==> #[trigger] row@[j] == orig[j] - global_min,
                forall|j: int| k <= j < row.len() ==> #[trigger] row@[j] == orig[j],
            decreases row.len() - k,
        {
            row.set(k, row[k] - global_min);
            k += 1;
        }
        std::mem::swap(&mut row, &mut layer_x[l]);
        l += 1;
    }
}


proof fn lemma_lookups(
    neighbors: Seq<Vec<usize>>,
    lx: Seq<Vec<usize>>,
    scope: Scope,
    b: Seq<Vec<usize>>,
    max: usize,
)
    requires
        scope.wf(),
        orders_ok(scope),
        buckets_ok(b, scope.layers@, max),
        lx_ok(lx, b),
        forall|i: int| 0 <= i < scope.layers.len() ==> #[trigger] scope.layers@[i] <= max,
        forall|a: int, c: int|
            0 <= a < neighbors.len() && 0 <= c < neighbors[a].len() ==> #[trigger] neighbors[a]@[c]
                < scope.items.len(),
    ensures
        forall|a: int| 0 <= a < neighbors.len() ==> lookups_ok(#[trigger] neighbors[a]@, lx, scope),
{
    assert forall|a: int| 0 <= a < neighbors.len() implies lookups_ok(#[trigger] neighbors[a]@, lx, scope) by {
        assert forall|k: int| 0 <= k < neighbors[a]@.len() implies #[trigger] neighbors[a]@[k] < scope.items.len()
            && scope.layers@[neighbors[a]@[k] as int] < lx.len() && scope.orders@[neighbors[a]@[k] as int]
            < lx[scope.layers@[neighbors[a]@[k] as int] as int].len() by {
            let ni = neighbors[a]@[k] as int;
            assert(scope.orders@[ni] < count_layer(scope.layers@, scope.layers@[ni], scope.items.len() as int));
            assert(b[scope.layers@[ni] as int].len() == count_layer(scope.layers@, scope.layers@[ni], scope.layers.len() as int));
        }
    }
}

/// Key table `(orders[id], 1)`: sorting by it sorts by order.
fn order_keys(scope: &Scope) -> (keys: Vec<(usize, usize)>)
    ensures
        keys.len() == scope.orders.len(),
        forall|i: int| 0 <= i < keys.len() ==> #[trigger] keys@[i] == (scope.orders@[i], 1usize),
{
    let mut keys: Vec<(usize, usize)> = Vec::new();
    let mut i: usize = 0;
    while i < scope.orders.len()
        invariant
            i <= scope.orders.len(),
            keys.len() == i,
            forall|k: int| 0 <= k < i ==> #[trigger] keys@[k] == (scope.orders@[k], 1usize),
        decreases scope.orders.len() - i,
    {
        keys.push((scope.orders[i], 1));
        i += 1;
    }
    keys
}

/// Both endpoints' `preds ++ succs` neighbour list of `id`.
#[verifier::loop_isolation(false)]
fn both_neighbors(preds: &Vec<Vec<usize>>, succs: &Vec<Vec<usize>>, id: usize) -> (r: Vec<usize>)
    requires
        id < preds.len(),
        id < succs.len(),
    ensures
        r@ == preds@[id as int]@ + succs@[id as int]@,
{
    let mut r: Vec<usize> = Vec::new();
    let mut k: usize = 0;
    while k < preds[id].len()
        invariant
            k <= preds@[id as int].len(),
            r@ == preds@[id as int]@.take(k as int),
        decreases preds@[id as int].len() - k,
    {
        r.push(preds[id][k]);
        assert(preds@[id as int]@.take(k + 1) == preds@[id as int]@.take(k as int).push(preds@[id as int]@[k as int]));
        k += 1;
    }
    assert(preds@[id as int]@.take(k as int) == preds@[id as int]@);
    let mut k: usize = 0;
    while k < succs[id].len()
        invariant
            k <= succs@[id as int].len(),
            r@ == preds@[id as int]@ + succs@[id as int]@.take(k as int),
        decreases succs@[id as int].len() - k,
    {
        r.push(succs[id][k]);
        assert(succs@[id as int]@.take(k + 1) == succs@[id as int]@.take(k as int).push(succs@[id as int]@[k as int]));
        k += 1;
    }
    assert(succs@[id as int]@.take(k as int) == succs@[id as int]@);
    r
}

/// Along every layer row, positions never decrease.
pub open spec fn rows_sorted(lx: Seq<Vec<usize>>) -> bool {
    forall|l: int, j: int| 0 <= l < lx.len() && 0 < j < lx[l].len() ==> lx[l]@[j - 1] <= #[trigger] lx[l]@[j]
}

proof fn lemma_sorted_le(s: Seq<usize>, p: int, q: int)
    requires
        forall|j: int| 0 < j < s.len() ==> s[j - 1] <= #[trigger] s[j],
        0 <= p <= q < s.len(),
    ensures
        s[p] <= s[q],
    decreases q - p,
{
    if p < q {
        lemma_sorted_le(s, p, q - 1);
    }
}

proof fn lemma_spaced_sorted(row: Seq<usize>, ids: Seq<usize>, widths: Seq<usize>, gap: usize)
    requires
        spaced(row, ids, widths, gap),
    ensures
        forall|j: int| 0 < j < row.len() ==> row[j - 1] <= #[trigger] row[j],
{
    assert forall|j: int| 0 < j < row.len() implies row[j - 1] <= #[trigger] row[j] by {
        assert(row[j] >= next_start(row[j - 1], widths[ids[j - 1] as int], gap));
    }
}

proof fn lemma_sorted_keep_row(old_lx: Seq<Vec<usize>>, new_lx: Seq<Vec<usize>>, l: int)
    requires
        rows_sorted(old_lx),
        new_lx.len() == old_lx.len(),
        0 <= l < old_lx.len(),
        forall|k: int| 0 <= k < old_lx.len() && k != l ==> new_lx[k] == old_lx[k],
        forall|j: int| 0 < j < new_lx[l].len() ==> new_lx[l]@[j - 1] <= #[trigger] new_lx[l]@[j],
    ensures
        rows_sorted(new_lx),
{
    assert forall|k: int, j: int| 0 <= k < new_lx.len() && 0 < j < new_lx[k].len() implies new_lx[k]@[j - 1] <= #[trigger] new_lx[k]@[j] by {
        if k != l {
            assert(new_lx[k] == old_lx[k]);
        }
    }
}

proof fn lemma_shift_sorted(row: Seq<usize>, new_row: Seq<usize>, sh: (bool, usize))
    requires
        forall|j: int| 0 < j < row.len() ==> row[j - 1] <= #[trigger] row[j],
        new_row.len() == row.len(),
        sh.1 == 0 ==> new_row == row,
        sh.1 > 0 && sh.0 ==> forall|j: int| 0 <= j < row.len() ==> #[trigger] new_row[j] == sat_add(row[j] as nat, sh.1 as nat),
        sh.1 > 0 && !sh.0 ==> exists|m: usize|
            row_min_is(row, m) && forall|j: int| 0 <= j < row.len() ==> #[trigger] new_row[j] == row[j] - (if sh.1 < m { sh.1 } else { m }),
    ensures
        forall|j: int| 0 < j < new_row.len() ==> new_row[j - 1] <= #[trigger] new_row[j],
{
    if sh.1 > 0 && !sh.0 {
        let m = choose|m: usize|
            row_min_is(row, m) && forall|j: int| 0 <= j < row.len() ==> #[trigger] new_row[j] == row[j] - (if sh.1 < m { sh.1 } else { m });
        assert forall|j: int| 0 < j < new_row.len() implies new_row[j - 1] <= #[trigger] new_row[j] by {
            assert(new_row[j - 1] == row[j - 1] - (if sh.1 < m { sh.1 } else { m }));
        }
    } else if sh.1 > 0 {
        assert forall|j: int| 0 < j < new_row.len() implies new_row[j - 1] <= #[trigger] new_row[j] by {
            assert(new_row[j - 1] == sat_add(row[j - 1] as nat, sh.1 as nat));
        }
    }
}

proof fn lemma_normalize_sorted(old_lx: Seq<Vec<usize>>, new_lx: Seq<Vec<usize>>)
    requires
        rows_sorted(old_lx),
        new_lx.len() == old_lx.len(),
        forall|l: int| 0 <= l < new_lx.len() ==> (#[trigger] new_lx[l]).len() == old_lx[l].len(),
        exists|m: usize|
            table_min_is(old_lx, m) && forall|l: int, j: int|
                0 <= l < new_lx.len() && 0 <= j < new_lx[l].len() ==> #[trigger] new_lx[l]@[j] == old_lx[l]@[j] - m,
    ensures
        rows_sorted(new_lx),
{
    let m = choose|m: usize|
        table_min_is(old_lx, m) && forall|l: int, j: int|
            0 <= l < new_lx.len() && 0 <= j < new_lx[l].len() ==> #[trigger] new_lx[l]@[j] == old_lx[l]@[j] - m;
    assert forall|l: int, j: int| 0 <= l < new_lx.len() && 0 < j < new_lx[l].len() implies new_lx[l]@[j - 1] <= #[trigger] new_lx[l]@[j] by {
        assert(new_lx[l]@[j - 1] == old_lx[l]@[j - 1] - m);
        assert(old_lx[l]@[j - 1] <= old_lx[l]@[j]);
    }
}

/// Push each item of a row right, where needed, so that it starts at or
/// after the end of its left neighbour plus `gap`; first items stay put.
fn reopen_gaps(layer_x: &mut Vec<Vec<usize>>, layers: &Vec<Vec<usize>>, widths: &Vec<usize>, gap: usize)
    requires
        lx_ok(old(layer_x)@, layers@),
        rows_sorted(old(layer_x)@),
        forall|k: int, j: int| 0 <= k < layers.len() && 0 <= j < layers@[k].len() ==> #[trigger] layers@[k]@[j] < widths.len(),
    ensures
        lx_ok(final(layer_x)@, layers@),
        rows_sorted(final(layer_x)@),
        forall|k: int| 0 <= k < final(layer_x).len() && final(layer_x)@[k].len() > 0 ==> (#[trigger] final(layer_x)@[k])@[0] == old(layer_x)@[k]@[0],
        forall|k: int| 0 <= k < final(layer_x).len() ==> spaced((#[trigger] final(layer_x)@[k])@, layers@[k]@, widths@, gap),
{
    let ghost ln = layer_x@;
    let mut l: usize = 0;
    while l < layer_x.len()
        invariant
            lx_ok(layer_x@, layers@),
            rows_sorted(layer_x@),
            forall|k: int, j: int| 0 <= k < layers.len() && 0 <= j < layers@[k].len() ==> #[trigger] layers@[k]@[j] < widths.len(),
            l <= layer_x.len(),
            layer_x.len() == ln.len(),
            forall|k: int| 0 <= k < layer_x.len() && layer_x@[k].len() > 0 ==> (#[trigger] layer_x@[k])@[0] == ln[k]@[0],
            forall|k: int| 0 <= k < l ==> spaced((#[trigger] layer_x@[k])@, layers@[k]@, widths@, gap),
        decreases layer_x.len() - l,
    {
        let ghost lb2 = layer_x@;
        let mut row: Vec<usize> = Vec::new();
        std::mem::swap(&mut row, &mut layer_x[l]);
        let ghost orig = row@;
        assert(orig == lb2[l as int]@);
        let mut j: usize = 1;
        while j < row.len()
            invariant
                1 <= j,
                row.len() == orig.len(),
                orig.len() == layers@[l as int].len(),
                l < layers.len(),
                forall|k: int, j: int| 0 <= k < layers.len() && 0 <= j < layers@[k].len() ==> #[trigger] layers@[k]@[j] < widths.len(),
                orig.len() > 0 ==> row@[0] == orig[0],
                forall|q: int| 0 < q < j && q < row.len() ==> #[trigger] row@[q] >= next_start(row@[q - 1], widths@[layers@[l as int]@[q - 1] as int], gap),
            decreases row.len() - j,
        {
            assert(layers@[l as int]@[j - 1] < widths.len());
            let need = row[j - 1].saturating_add(widths[layers[l][j - 1]]).saturating_add(gap);
            assert(need == next_start(row@[j - 1], widths@[layers@[l as int]@[j - 1] as int], gap));
            if row[j] < need {
                row.set(j, need);
            }
            j += 1;
        }
        let ghost fixed = row@;
        proof {
            assert(spaced(fixed, layers@[l as int]@, widths@, gap));
            lemma_spaced_sorted(fixed, layers@[l as int]@, widths@, gap);
        }
        std::mem::swap(&mut row, &mut layer_x[l]);
        proof {
            assert(layer_x@[l as int]@ == fixed);
            lemma_sorted_keep_row(lb2, layer_x@, l as int);
            assert forall|k: int| 0 <= k < layer_x.len() && layer_x@[k].len() > 0 implies (#[trigger] layer_x@[k])@[0] == ln[k]@[0] by {
                if k != l {
                    assert(layer_x@[k] == lb2[k]);
                }
            }
            assert forall|k: int| 0 <= k < l + 1 implies spaced((#[trigger] layer_x@[k])@, layers@[k]@, widths@, gap) by {
                if k != l {
                    assert(layer_x@[k] == lb2[k]);
                }
            }
            assert forall|k: int| 0 <= k < layer_x.len() implies (#[trigger] layer_x@[k]).len() == layers@[k].len() by {
                if k != l {
                    assert(layer_x@[k] == lb2[k]);
                }
            }
        }
        l += 1;
    }
}

/// An increasing sequence of `n` values below `n` counts 0, 1, 2, ...
proof fn lemma_strict_positions(s: Seq<int>, j: int)
    requires
        forall|q: int| 0 < q < s.len() ==> s[q - 1] < #[trigger] s[q],
        forall|q: int| 0 <= q < s.len() ==> 0 <= #[trigger] s[q] < s.len(),
        0 <= j < s.len(),
    ensures
        s[j] == j,
{
    lemma_strict_lower(s, j);
    lemma_strict_upper(s, j);
}

proof fn lemma_strict_lower(s: Seq<int>, j: int)
    requires
        forall|q: int| 0 < q < s.len() ==> s[q - 1] < #[trigger] s[q],
        forall|q: int| 0 <= q < s.len() ==> 0 <= #[trigger] s[q] < s.len(),
        0 <= j < s.len(),
    ensures
        s[j] >= j,
    decreases j,
{
    if j > 0 {
        lemma_strict_lower(s, j - 1);
    }
}

proof fn lemma_strict_upper(s: Seq<int>, j: int)
    requires
        forall|q: int| 0 < q < s.len() ==> s[q - 1] < #[trigger] s[q],
        forall|q: int| 0 <= q < s.len() ==> 0 <= #[trigger] s[q] < s.len(),
        0 <= j < s.len(),
    ensures
        s[j] <= j,
    decreases s.len() - j,
{
    if j < s.len() - 1 {
        lemma_strict_upper(s, j + 1);
    }
}

/// Once each bucket is sorted by order, an item's order is its position.
proof fn lemma_bucket_orders(scope: Scope, b: Seq<Vec<usize>>, max: usize)
    requires
        scope.wf(),
        buckets_ok(b, scope.layers@, max),
        orders_ok(scope),
        orders_distinct(scope),
        forall|k: int| 0 <= k < b.len() ==> (#[trigger] b[k])@.no_duplicates(),
        forall|k: int, j: int| 0 <= k < b.len() && 0 < j < b[k].len() ==> scope.orders@[b[k]@[j - 1] as int] <= #[trigger] scope.orders@[b[k]@[j] as int],
    ensures
        forall|k: int, j: int| 0 <= k < b.len() && 0 <= j < b[k].len() ==> #[trigger] scope.orders@[b[k]@[j] as int] == j,
{
    assert forall|k: int, j: int| 0 <= k < b.len() && 0 <= j < b[k].len() implies #[trigger] scope.orders@[b[k]@[j] as int] == j by {
        let bk = b[k]@;
        let s = Seq::new(bk.len(), |q: int| scope.orders@[bk[q] as int] as int);
        assert forall|q: int| 0 < q < s.len() implies s[q - 1] < #[trigger] s[q] by {
            assert(scope.orders@[b[k]@[q - 1] as int] <= scope.orders@[b[k]@[q] as int]);
            assert(bk[q - 1] != bk[q]);
            assert(bk[q - 1] < scope.layers.len() && scope.layers@[bk[q - 1] as int] == k);
            assert(bk[q] < scope.layers.len() && scope.layers@[bk[q] as int] == k);
        }
        assert forall|q: int| 0 <= q < s.len() implies 0 <= #[trigger] s[q] < s.len() by {
            assert(bk[q] < scope.layers.len() && scope.layers@[bk[q] as int] == k);
            assert(scope.orders@[bk[q] as int] < count_layer(scope.layers@, scope.layers@[bk[q] as int], scope.items.len() as int));
        }
        lemma_strict_positions(s, j);
    }
}

/// Positions copied from sorted, spaced rows keep the within-layer order and
/// the gap between neighbours.
proof fn lemma_xs_from_rows(scope: Scope, layers: Seq<Vec<usize>>, layer_x: Seq<Vec<usize>>, max_layer: usize, gap: usize)
    requires
        scope.wf(),
        buckets_ok(layers, scope.layers@, max_layer),
        forall|i: int| 0 <= i < scope.layers.len() ==> #[trigger] scope.layers@[i] <= max_layer,
        lx_ok(layer_x, layers),
        rows_sorted(layer_x),
        forall|k: int| 0 <= k < layer_x.len() ==> spaced((#[trigger] layer_x[k])@, layers[k]@, scope.widths@, gap),
        forall|i: int| 0 <= i < scope.layers.len() ==> (#[trigger] layers[scope.layers@[i] as int])@.contains(i as usize),
        forall|k: int, j: int| 0 <= k < layers.len() && 0 <= j < layers[k].len() ==> #[trigger] scope.orders@[layers[k]@[j] as int] == j,
        forall|k: int, q: int| 0 <= k < layers.len() && 0 <= q < layers[k].len() ==> #[trigger] scope.xs@[layers[k]@[q] as int] == layer_x[k]@[q],
    ensures
        forall|a: int, b: int|
            0 <= a < scope.items.len() && 0 <= b < scope.items.len() && scope.layers@[a] == scope.layers@[b]
                && scope.orders@[a] < scope.orders@[b] ==> #[trigger] scope.xs@[a] <= #[trigger] scope.xs@[b],
        forall|a: int, b: int|
            0 <= a < scope.items.len() && 0 <= b < scope.items.len() && scope.layers@[a] == scope.layers@[b]
                && scope.orders@[a] < scope.orders@[b] ==> #[trigger] scope.xs@[b] >= next_start(#[trigger] scope.xs@[a], scope.widths@[a], gap),
{
    assert forall|a: int, b: int|
        0 <= a < scope.items.len() && 0 <= b < scope.items.len() && scope.layers@[a] == scope.layers@[b]
            && scope.orders@[a] < scope.orders@[b] implies #[trigger] scope.xs@[a] <= #[trigger] scope.xs@[b] by {
        let L = scope.layers@[a] as int;
        let bk = layers[L]@;
        assert(bk.contains(a as usize));
        assert(bk.contains(b as usize));
        let p = choose|p: int| 0 <= p < bk.len() && bk[p] == a as usize;
        let q = choose|q: int| 0 <= q < bk.len() && bk[q] == b as usize;
        assert(scope.orders@[layers[L]@[p] as int] == p);
        assert(scope.orders@[layers[L]@[q] as int] == q);
        lemma_sorted_le(layer_x[L]@, p, q);
        assert(scope.xs@[layers[L]@[p] as int] == layer_x[L]@[p]);
        assert(scope.xs@[layers[L]@[q] as int] == layer_x[L]@[q]);
    }
    assert forall|a: int, b: int|
        0 <= a < scope.items.len() && 0 <= b < scope.items.len() && scope.layers@[a] == scope.layers@[b]
            && scope.orders@[a] < scope.orders@[b] implies #[trigger] scope.xs@[b] >= next_start(#[trigger] scope.xs@[a], scope.widths@[a], gap) by {
        let L = scope.layers@[a] as int;
        let bk = layers[L]@;
        assert(bk.contains(a as usize));
        assert(bk.contains(b as usize));
        let p = choose|p: int| 0 <= p < bk.len() && bk[p] == a as usize;
        let q = choose|q: int| 0 <= q < bk.len() && bk[q] == b as usize;
        assert(scope.orders@[layers[L]@[p] as int] == p);
        assert(scope.orders@[layers[L]@[q] as int] == q);
        assert(p < q);
        assert(spaced(layer_x[L]@, layers[L]@, scope.widths@, gap));
        assert(layer_x[L]@[p + 1] >= next_start(layer_x[L]@[p], scope.widths@[layers[L]@[p] as int], gap));
        lemma_sorted_le(layer_x[L]@, p + 1, q);
        assert(scope.xs@[layers[L]@[p] as int] == layer_x[L]@[p]);
        assert(scope.xs@[layers[L]@[q] as int] == layer_x[L]@[q]);
    }
}

/// Sorts every bucket by the items' current orders.
fn sort_buckets_by_order(layers: &mut Vec<Vec<usize>>, keys: &Vec<(usize, usize)>, scope: &Scope, max_layer: usize)
    requires
        buckets_ok(old(layers)@, scope.layers@, max_layer),
        keys.len() == scope.items.len(),
        forall|i: int| 0 <= i < keys.len() ==> #[trigger] keys@[i] == (scope.orders@[i], 1usize),
        scope.wf(),
        forall|i: int| 0 <= i < scope.layers.len() ==> #[trigger] scope.layers@[i] <= max_layer,
        forall|k: int| 0 <= k < old(layers).len() ==> (#[trigger] old(layers)@[k])@.no_duplicates(),
        forall|i: int| 0 <= i < scope.layers.len() ==> (#[trigger] old(layers)@[scope.layers@[i] as int])@.contains(i as usize),
    ensures
        buckets_ok(final(layers)@, scope.layers@, max_layer),
        forall|k: int| 0 <= k < final(layers).len() ==> (#[trigger] final(layers)@[k])@.no_duplicates(),
        forall|i: int| 0 <= i < scope.layers.len() ==> (#[trigger] final(layers)@[scope.layers@[i] as int])@.contains(i as usize),
        forall|k: int, j: int|
            0 <= k < final(layers).len() && 0 < j < final(layers)@[k].len() ==> scope.orders@[final(layers)@[k]@[j - 1] as int]
                <= #[trigger] scope.orders@[final(layers)@[k]@[j] as int],
{
    let mut l: usize = 0;
    while l < layers.len()
        invariant
            buckets_ok(layers@, scope.layers@, max_layer),
            keys.len() == scope.items.len(),
            forall|i: int| 0 <= i < keys.len() ==> #[trigger] keys@[i] == (scope.orders@[i], 1usize),
            scope.wf(),
            forall|i: int| 0 <= i < scope.layers.len() ==> #[trigger] scope.layers@[i] <= max_layer,
            forall|k: int| 0 <= k < layers.len() ==> (#[trigger] layers@[k])@.no_duplicates(),
            forall|i: int| 0 <= i < scope.layers.len() ==> (#[trigger] layers@[scope.layers@[i] as int])@.contains(i as usize),
            forall|k: int, j: int| 0 <= k < l && 0 < j < layers@[k].len() ==> scope.orders@[layers@[k]@[j - 1] as int] <= #[trigger] scope.orders@[layers@[k]@[j] as int],
            l <= layers.len(),
        decreases layers.len() - l,
    {
        let ghost start = layers@;
        let mut bucket: Vec<usize> = Vec::new();
        std::mem::swap(&mut bucket, &mut layers[l]);
        let ghost old_b = bucket@;
        assert(old_b == start[l as int]@);
        sort_by_keys(&mut bucket, &keys);
        proof {
            broadcast use vstd::seq_lib::group_to_multiset_ensures;
            lemma_bucket_sorted_ok(old_b, bucket@, scope.layers@, l);
            old_b.lemma_multiset_has_no_duplicates();
            bucket@.lemma_multiset_has_no_duplicates_conv();
            assert forall|j: int| 0 < j < bucket.len() implies scope.orders@[bucket@[j - 1] as int] <= #[trigger] scope.orders@[bucket@[j] as int] by {
                let j0 = j - 1;
                assert(0 <= j0 < bucket.len() - 1);
                assert(!frac_lt(keys@[bucket@[j0 + 1] as int], keys@[bucket@[j0] as int]));
                assert(j0 + 1 == j);
                let ka = keys@[bucket@[j] as int];
                let kb = keys@[bucket@[j0] as int];
                assert(ka == (scope.orders@[bucket@[j] as int], 1usize));
                assert(kb == (scope.orders@[bucket@[j0] as int], 1usize));
                assert(ka.0 * kb.1 == ka.0) by (nonlinear_arith)
                    requires
                        kb.1 == 1usize,
                ;
                assert(kb.0 * ka.1 == kb.0) by (nonlinear_arith)
                    requires
                        ka.1 == 1usize,
                ;
            }
        }
        let ghost mid = layers@;
        let ghost bucket_sorted = bucket@;
        std::mem::swap(&mut bucket, &mut layers[l]);
        proof {
            assert forall|k: int| 0 <= k < layers.len() implies (#[trigger] layers@[k]).len() == count_layer(scope.layers@, k as usize, scope.layers.len() as int) by {
                if k != l {
                    assert(layers@[k] == mid[k]);
                }
            }
            assert forall|k: int, j: int|
                0 <= k < layers.len() && 0 <= j < layers@[k].len() implies #[trigger] layers@[k]@[j] < scope.layers.len()
                    && scope.layers@[layers@[k]@[j] as int] == k by {
                if k != l {
                    assert(layers@[k] == mid[k]);
                }
            }
            assert(layers@[l as int]@ == bucket_sorted);
            assert forall|k: int| 0 <= k < layers.len() implies (#[trigger] layers@[k])@.no_duplicates() by {
                if k != l {
                    assert(layers@[k] == mid[k]);
                    assert(mid[k] == start[k]);
                }
            }
            assert forall|i: int| 0 <= i < scope.layers.len() implies (#[trigger] layers@[scope.layers@[i] as int])@.contains(i as usize) by {
                let L = scope.layers@[i] as int;
                assert(start[L]@.contains(i as usize));
                if L != l {
                    assert(layers@[L] == mid[L]);
                    assert(mid[L] == start[L]);
                } else {
                    assert(old_b.to_multiset().count(i as usize) > 0);
                    assert(bucket_sorted.to_multiset().count(i as usize) > 0);
                }
            }
            assert forall|k: int, j: int| 0 <= k < l + 1 && 0 < j < layers@[k].len() implies scope.orders@[layers@[k]@[j - 1] as int] <= #[trigger] scope.orders@[layers@[k]@[j] as int] by {
                if k != l {
                    assert(layers@[k] == mid[k]);
                    assert(mid[k] == start[k]);
                }
            }
        }
        l += 1;
    }
}

/// Writes each item's position from its bucket's row into `xs`.
fn store_xs(scope: &mut Scope, layers: &Vec<Vec<usize>>, layer_x: &Vec<Vec<usize>>, max_layer: usize)
    requires
        old(scope).wf(),
        lx_ok(layer_x@, layers@),
        buckets_ok(layers@, old(scope).layers@, max_layer),
        forall|k: int| 0 <= k < layers.len() ==> (#[trigger] layers@[k])@.no_duplicates(),
    ensures
        final(scope).wf(),
        final(scope).items@ == old(scope).items@,
        final(scope).edges@ == old(scope).edges@,
        final(scope).layers@ == old(scope).layers@,
        final(scope).orders@ == old(scope).orders@,
        final(scope).widths@ == old(scope).widths@,
        final(scope).heights@ == old(scope).heights@,
        final(scope).ys@ == old(scope).ys@,
        forall|k: int, q: int| 0 <= k < layers.len() && 0 <= q < layers@[k].len() ==> #[trigger] final(scope).xs@[layers@[k]@[q] as int] == layer_x@[k]@[q],
{
    let mut l: usize = 0;
    while l < layers.len()
        invariant
            lx_ok(layer_x@, layers@),
            forall|k: int| 0 <= k < layers.len() ==> (#[trigger] layers@[k])@.no_duplicates(),
            scope.wf(),
            buckets_ok(layers@, scope.layers@, max_layer),
            scope.items@ == old(scope).items@,
            scope.edges@ == old(scope).edges@,
            scope.layers@ == old(scope).layers@,
            scope.orders@ == old(scope).orders@,
            scope.widths@ == old(scope).widths@,
            scope.heights@ == old(scope).heights@,
            scope.ys@ == old(scope).ys@,
            forall|k: int, q: int| 0 <= k < l && 0 <= q < layers@[k].len() ==> #[trigger] scope.xs@[layers@[k]@[q] as int] == layer_x@[k]@[q],
        decreases layers.len() - l,
    {
        let mut j: usize = 0;
        while j < layers[l].len()
            invariant
                l < layers.len(),
                j <= layers@[l as int].len(),
                lx_ok(layer_x@, layers@),
                forall|k: int| 0 <= k < layers.len() ==> (#[trigger] layers@[k])@.no_duplicates(),
                scope.wf(),
                buckets_ok(layers@, scope.layers@, max_layer),
                scope.items@ == old(scope).items@,
                scope.edges@ == old(scope).edges@,
                scope.layers@ == old(scope).layers@,
                scope.orders@ == old(scope).orders@,
                scope.widths@ == old(scope).widths@,
                scope.heights@ == old(scope).heights@,
                scope.ys@ == old(scope).ys@,
                forall|k: int, q: int| 0 <= k < l && 0 <= q < layers@[k].len() ==> #[trigger] scope.xs@[layers@[k]@[q] as int] == layer_x@[k]@[q],
                forall|q: int| 0 <= q < j ==> #[trigger] scope.xs@[layers@[l as int]@[q] as int] == layer_x@[l as int]@[q],
            decreases layers@[l as int].len() - j,
        {
            let id = layers[l][j];
            let ghost xb = scope.xs@;
            scope.xs.set(id, layer_x[l][j]);
            proof {
                assert forall|k: int, q: int| 0 <= k < l && 0 <= q < layers@[k].len() implies #[trigger] scope.xs@[layers@[k]@[q] as int] == layer_x@[k]@[q] by {
                    assert(scope.layers@[layers@[k]@[q] as int] == k);
                    assert(scope.layers@[id as int] == l);
                    assert(xb[layers@[k]@[q] as int] == layer_x@[k]@[q]);
                }
                assert forall|q: int| 0 <= q < j + 1 implies #[trigger] scope.xs@[layers@[l as int]@[q] as int] == layer_x@[l as int]@[q] by {
                    if q < j {
                        assert(layers@[l as int]@.no_duplicates());
                        assert(layers@[l as int]@[q] != layers@[l as int]@[j as int]);
                        assert(xb[layers@[l as int]@[q] as int] == layer_x@[l as int]@[q]);
                    }
                }
            }
            j += 1;
        }
        l += 1;
    }
}

/// Minor-axis positions: pack each layer left to right, then alternate
/// barycentric alignment passes (down: per item to predecessors; up: whole
/// layer to successors), center lone items between their neighbours, and
/// give straight chains of single-item layers a common center.
#[verifier::loop_isolation(false)]
#[verifier::spinoff_prover]
#[verifier::rlimit(100)]
fn assign_x_scope(scope: &mut Scope, gap: usize)
    requires
        old(scope).wf(),
        layers_capped(*old(scope)),
        orders_ok(*old(scope)),
        orders_distinct(*old(scope)),
    ensures
        final(scope).wf(),
        layers_capped(*final(scope)),
        orders_ok(*final(scope)),
        final(scope).items@ == old(scope).items@,
        final(scope).edges@ == old(scope).edges@,
        final(scope).layers@ == old(scope).layers@,
        final(scope).orders@ == old(scope).orders@,
        final(scope).widths@ == old(scope).widths@,
        final(scope).heights@ == old(scope).heights@,
        final(scope).ys@ == old(scope).ys@,
        forall|a: int, b: int|
            0 <= a < final(scope).items.len() && 0 <= b < final(scope).items.len() && final(scope).layers@[a]
                == final(scope).layers@[b] && final(scope).orders@[a] < final(scope).orders@[b]
                ==> #[trigger] final(scope).xs@[a] <= #[trigger] final(scope).xs@[b],
        final(scope).items.len() > 0 ==> exists|i: int| 0 <= i < final(scope).items.len() && #[trigger] final(scope).xs@[i] == 0,
        forall|a: int, b: int|
            0 <= a < final(scope).items.len() && 0 <= b < final(scope).items.len() && final(scope).layers@[a]
                == final(scope).layers@[b] && final(scope).orders@[a] < final(scope).orders@[b]
                ==> #[trigger] final(scope).xs@[b] >= next_start(#[trigger] final(scope).xs@[a], final(scope).widths@[a], gap),
{
    let max_layer = max_layer_of(&scope.layers);
    proof {
        if max_layer != 0 {
            let k = choose|k: int| 0 <= k < scope.layers.len() && scope.layers@[k] == max_layer;
            assert(scope.layers@[k] < usize::MAX);
        }
    }
    let mut layers = build_buckets(&scope.layers, max_layer);
    let keys = order_keys(scope);
    sort_buckets_by_order(&mut layers, &keys, scope, max_layer);
    let mut layer_x: Vec<Vec<usize>> = Vec::new();
    let mut l: usize = 0;
    while l < layers.len()
        invariant
            l <= layers.len(),
            layer_x.len() == l,
            forall|k: int| 0 <= k < l ==> (#[trigger] layer_x@[k]).len() == layers@[k].len(),
            buckets_ok(layers@, scope.layers@, max_layer),
            scope.wf(),
            rows_sorted(layer_x@),
        decreases layers.len() - l,
    {
        let mut row: Vec<usize> = Vec::new();
        let mut x: usize = 0;
        let mut j: usize = 0;
        while j < layers[l].len()
            invariant
                j <= layers@[l as int].len(),
                row.len() == j,
                l < layers.len(),
                buckets_ok(layers@, scope.layers@, max_layer),
                scope.wf(),
                forall|q: int| 0 < q < row.len() ==> row@[q - 1] <= #[trigger] row@[q],
                row.len() > 0 ==> row@[row.len() - 1] <= x,
            decreases layers@[l as int].len() - j,
        {
            let id = layers[l][j];
            row.push(x);
            x = x.saturating_add(scope.widths[id]).saturating_add(gap);
            j += 1;
        }
        let ghost lb = layer_x@;
        layer_x.push(row);
        proof {
            assert forall|k: int, q: int| 0 <= k < layer_x@.len() && 0 < q < layer_x@[k].len() implies layer_x@[k]@[q - 1] <= #[trigger] layer_x@[k]@[q] by {
                if k < lb.len() {
                    assert(layer_x@[k] == lb[k]);
                }
            }
        }
        l += 1;
    }
    let (preds, succs) = neighbor_lists(scope);
    proof {
        lemma_lookups(preds@, layer_x@, *scope, layers@, max_layer);
        lemma_lookups(succs@, layer_x@, *scope, layers@, max_layer);
    }
    // Down passes align per-node to preds; up passes block-shift whole layer.
    let mut pass: usize = 0;
    while pass < 4
        invariant
            lx_ok(layer_x@, layers@),
            buckets_ok(layers@, scope.layers@, max_layer),
            scope.wf(),
            rows_sorted(layer_x@),
        decreases 4 - pass,
    {
        let mut l: usize = 1;
        while l <= max_layer
            invariant
                1 <= l,
                lx_ok(layer_x@, layers@),
                rows_sorted(layer_x@),
            decreases max_layer + 1 - l,
        {
            proof {
                lemma_lookups(preds@, layer_x@, *scope, layers@, max_layer);
            }
            let ghost lb = layer_x@;
            align_layer_scope(&layers, &mut layer_x, l, &preds, scope, gap);
            proof {
                lemma_spaced_sorted(layer_x@[l as int]@, layers@[l as int]@, scope.widths@, gap);
                lemma_sorted_keep_row(lb, layer_x@, l as int);
            }
            l += 1;
        }
        let mut l: usize = max_layer;
        while l > 0
            invariant
                l <= max_layer,
                lx_ok(layer_x@, layers@),
                rows_sorted(layer_x@),
            decreases l,
        {
            proof {
                lemma_lookups(succs@, layer_x@, *scope, layers@, max_layer);
            }
            let ghost lb = layer_x@;
            block_shift_layer_scope(&layers, &mut layer_x, l - 1, &succs, scope);
            proof {
                let row = lb[l - 1]@;
                lemma_shift_sorted(row, layer_x@[l - 1]@, shift_of(pulls(lb, layers@[l - 1]@, succs@, *scope, l - 1, row.len() as int)));
                lemma_sorted_keep_row(lb, layer_x@, l - 1);
            }
            l -= 1;
        }
        let ghost lb = layer_x@;
        normalize_x(&mut layer_x);
        proof {
            lemma_normalize_sorted(lb, layer_x@);
        }
        pass += 1;
    }
    // Solitary-layer symmetry: center a lone node over/under its neighbors.
    let mut l: usize = 0;
    while l <= max_layer
        invariant
            lx_ok(layer_x@, layers@),
            rows_sorted(layer_x@),
        decreases max_layer + 1 - l,
    {
        if layers[l].len() == 1 {
            let id = layers[l][0];
            let ns = both_neighbors(&preds, &succs, id);
            if ns.len() > 0 {
                proof {
                    lemma_lookups(preds@, layer_x@, *scope, layers@, max_layer);
                    lemma_lookups(succs@, layer_x@, *scope, layers@, max_layer);
                    assert(lookups_ok(preds@[id as int]@, layer_x@, *scope));
                    assert(lookups_ok(succs@[id as int]@, layer_x@, *scope));
                    assert forall|k: int| 0 <= k < ns@.len() implies #[trigger] ns@[k] < scope.items.len()
                        && scope.layers@[ns@[k] as int] < layer_x@.len() && scope.orders@[ns@[k] as int]
                        < layer_x@[scope.layers@[ns@[k] as int] as int].len() by {
                        if k < preds@[id as int]@.len() {
                            assert(ns@[k] == preds@[id as int]@[k]);
                        } else {
                            assert(ns@[k] == succs@[id as int]@[k - preds@[id as int]@.len()]);
                        }
                    }
                }
                let target = neighbor_target_x_scope(id, &ns, &layer_x, scope);
                match target {
                    Some(t) => {
                        let ghost lb = layer_x@;
                        let mut row: Vec<usize> = Vec::new();
                        std::mem::swap(&mut row, &mut layer_x[l]);
                        row.set(0, t);
                        std::mem::swap(&mut row, &mut layer_x[l]);
                        proof {
                            assert(layer_x@[l as int].len() == 1);
                            lemma_sorted_keep_row(lb, layer_x@, l as int);
                        }
                    },
                    None => {},
                }
            }
        }
        if l == max_layer {
            break ;
        }
        l += 1;
    }
    // Chain alignment: a maximal run of single-node layers linked 1:1 shares
    // a common center, the largest of their current centers.
    let mut l: usize = 0;
    while l <= max_layer
        invariant
            lx_ok(layer_x@, layers@),
            rows_sorted(layer_x@),
        decreases max_layer + 1 - l,
    {
        if layers[l].len() != 1 || succs[layers[l][0]].len() != 1 {
            l += 1;
            continue ;
        }
        let mut end = l;
        while end < max_layer && layers[end + 1].len() == 1
            invariant
                l <= end <= max_layer,
                lx_ok(layer_x@, layers@),
                rows_sorted(layer_x@),
                forall|k: int| l <= k <= end ==> (#[trigger] layers@[k]).len() == 1,
            decreases max_layer - end,
        {
            let next_id = layers[end + 1][0];
            if preds[next_id].len() == 1 && succs[next_id].len() == 1 {
                end += 1;
                continue ;
            }
            if preds[next_id].len() == 1 {
                end += 1;
            }
            break ;
        }
        if end > l {
            let mut shared_center: usize = 0;
            let mut k = l;
            while k <= end
                invariant
                    l <= k <= end + 1,
                    end <= max_layer,
                    lx_ok(layer_x@, layers@),
                    forall|q: int| l <= q <= end ==> (#[trigger] layers@[q]).len() == 1,
                    rows_sorted(layer_x@),
                decreases end + 1 - k,
            {
                let c = layer_x[k][0].saturating_add(scope.widths[layers[k][0]] / 2);
                if c > shared_center {
                    shared_center = c;
                }
                k += 1;
            }
            let mut k = l;
            while k <= end
                invariant
                    l <= k <= end + 1,
                    end <= max_layer,
                    lx_ok(layer_x@, layers@),
                    forall|q: int| l <= q <= end ==> (#[trigger] layers@[q]).len() == 1,
                    rows_sorted(layer_x@),
                decreases end + 1 - k,
            {
                let w2 = scope.widths[layers[k][0]] / 2;
                let ghost lb = layer_x@;
                let mut row: Vec<usize> = Vec::new();
                std::mem::swap(&mut row, &mut layer_x[k]);
                row.set(0, shared_center.saturating_sub(w2));
                std::mem::swap(&mut row, &mut layer_x[k]);
                proof {
                    assert(layers@[k as int].len() == 1);
                    assert(layer_x@[k as int].len() == 1);
                    lemma_sorted_keep_row(lb, layer_x@, k as int);
                }
                k += 1;
            }
        }
        l = end + 1;
    }
    let ghost lb = layer_x@;
    normalize_x(&mut layer_x);
    proof {
        lemma_normalize_sorted(lb, layer_x@);
    }
    let ghost zero_at: (int, int) = (-1, -1);
    proof {
        if scope.items.len() > 0 {
            let L = scope.layers@[0] as int;
            assert(layers@[L]@.contains(0usize));
            assert(layer_x@[L].len() == layers@[L].len());
            assert(0 < lb[L].len());
            assert(exists|l: int| 0 <= l < lb.len() && (#[trigger] lb[l]).len() > 0);
            let m = choose|m: usize|
                table_min_is(lb, m) && table_attains(lb, m) && forall|l: int, j: int|
                    0 <= l < layer_x@.len() && 0 <= j < layer_x@[l].len() ==> #[trigger] layer_x@[l]@[j] == lb[l]@[j] - m;
            let (l0, j0) = choose|l0: int, j0: int| 0 <= l0 < lb.len() && 0 <= j0 < lb[l0].len() && #[trigger] lb[l0]@[j0] == m;
            assert(layer_x@[l0]@[j0] == 0);
            assert forall|j: int| 0 < j < layer_x@[l0]@.len() implies layer_x@[l0]@[j - 1] <= #[trigger] layer_x@[l0]@[j] by {}
            lemma_sorted_le(layer_x@[l0]@, 0, j0);
            zero_at = (l0, 0);
        }
    }
    // Where a position reached `usize::MAX` a later shift can close the gap
    // between neighbours; reopen it (nothing changes when every row fits).
    proof {
        assert forall|k: int, j: int| 0 <= k < layers.len() && 0 <= j < layers@[k].len() implies #[trigger] layers@[k]@[j] < scope.widths.len() by {}
    }
    reopen_gaps(&mut layer_x, &layers, &scope.widths, gap);
    store_xs(scope, &layers, &layer_x, max_layer);
    proof {
        lemma_bucket_orders(*old(scope), layers@, max_layer);
        lemma_xs_from_rows(*scope, layers@, layer_x@, max_layer, gap);
    }
    proof {
        if scope.items.len() > 0 {
            let (l0, j0) = zero_at;
            let i = layers@[l0]@[j0] as int;
            assert(scope.xs@[layers@[l0]@[j0] as int] == layer_x@[l0]@[j0]);
            assert(0 <= i < scope.items.len());
            assert(scope.xs@[i] == 0);
        }
    }
}


// ---------------------------------------------------------------------------
// Coordinate assignment along the major axis.
/// Minor-axis range where an edge may attach: a dummy's single column, the
/// inside of a box of width 3 or more, else the whole box.
pub open spec fn inner_range_of(x: usize, w: usize, dummy: bool) -> (usize, usize) {
    if dummy {
        (x, x)
    } else if w >= 3 {
        (x.saturating_add(1), x.saturating_add((w - 2) as usize))
    } else {
        (x, x.saturating_add(w.saturating_sub(1)))
    }
}

fn item_inner_range_scope(scope: &Scope, id: usize) -> (r: (usize, usize))
    requires
        scope.wf(),
        id < scope.items.len(),
    ensures
        r == inner_range_of(scope.xs@[id as int], scope.widths@[id as int], scope.items@[id as int] is Dummy),
{
    let x = scope.xs[id];
    let w = scope.widths[id];
    if scope.is_dummy(id) {
        (x, x)
    } else if w >= 3 {
        (x.saturating_add(1), x.saturating_add(w - 2))
    } else {
        (x, x.saturating_add(w.saturating_sub(1)))
    }
}

/// Edge `e` runs from layer `l` to layer `l + 1`.
pub open spec fn crosses(scope: Scope, l: int, e: int) -> bool {
    scope.layers@[scope.edges@[e].from as int] == l && scope.layers@[scope.edges@[e].to as int] == l + 1
}

/// Some edge before `e` crosses the channel from item `v`.
pub open spec fn has_from(scope: Scope, l: int, e: int, v: int) -> bool {
    exists|e1: int| 0 <= e1 < e && #[trigger] crosses(scope, l, e1) && scope.edges@[e1].from == v
}

/// Two edges before `e` cross the channel from item `v`.
pub open spec fn two_from(scope: Scope, l: int, e: int, v: int) -> bool {
    exists|e1: int, e2: int|
        0 <= e1 < e2 < e && #[trigger] crosses(scope, l, e1) && #[trigger] crosses(scope, l, e2)
            && scope.edges@[e1].from == v && scope.edges@[e2].from == v
}

/// Some edge before `e` crosses the channel into item `v`.
pub open spec fn has_to(scope: Scope, l: int, e: int, v: int) -> bool {
    exists|e1: int| 0 <= e1 < e && #[trigger] crosses(scope, l, e1) && scope.edges@[e1].to == v
}

/// Two edges before `e` cross the channel into item `v`.
pub open spec fn two_to(scope: Scope, l: int, e: int, v: int) -> bool {
    exists|e1: int, e2: int|
        0 <= e1 < e2 < e && #[trigger] crosses(scope, l, e1) && #[trigger] crosses(scope, l, e2)
            && scope.edges@[e1].to == v && scope.edges@[e2].to == v
}

/// Some edge before `hi` crosses the channel between the items of `p`.
pub open spec fn edge_listed(scope: Scope, l: int, hi: int, p: (usize, usize)) -> bool {
    exists|e1: int|
        0 <= e1 < hi && #[trigger] crosses(scope, l, e1) && p == (scope.edges@[e1].from, scope.edges@[e1].to)
}

/// The attach ranges of items `p.0` and `p.1` overlap.
pub open spec fn pair_straight(scope: Scope, p: (usize, usize)) -> bool {
    let f = p.0 as int;
    let t = p.1 as int;
    let sr = inner_range_of(scope.xs@[f], scope.widths@[f], scope.items@[f] is Dummy);
    let dr = inner_range_of(scope.xs@[t], scope.widths@[t], scope.items@[t] is Dummy);
    (if sr.0 > dr.0 { sr.0 } else { dr.0 }) <= (if sr.1 < dr.1 { sr.1 } else { dr.1 })
}

/// The attach ranges of the ends of edge `e` overlap.
pub open spec fn straight(scope: Scope, e: int) -> bool {
    pair_straight(scope, (scope.edges@[e].from, scope.edges@[e].to))
}

/// The channel between layers `l` and `l + 1` is tight: no edge across it
/// touches a meta-node, no two edges across it share a source or a target,
/// and every edge across it is straight.
pub open spec fn channel_tight(scope: Scope, l: int) -> bool {
    &&& forall|e: int|
        0 <= e < scope.edges.len() && #[trigger] crosses(scope, l, e) ==> !(scope.items@[scope.edges@[e].from as int] is Meta)
            && !(scope.items@[scope.edges@[e].to as int] is Meta)
    &&& forall|v: int| 0 <= v < scope.items.len() ==> !#[trigger] two_from(scope, l, scope.edges.len() as int, v)
    &&& forall|v: int| 0 <= v < scope.items.len() ==> !#[trigger] two_to(scope, l, scope.edges.len() as int, v)
    &&& forall|e: int| 0 <= e < scope.edges.len() && #[trigger] crosses(scope, l, e) ==> straight(scope, e)
}

/// A channel between layer `l` and `l+1` is tight if it contains only
/// straight 1:1 edges: no meta-node endpoint, every source and target used
/// once across it, and each pair's attach ranges overlap.
fn channel_is_tight_scope(scope: &Scope, l: usize) -> (r: bool)
    requires
        scope.wf(),
        l < usize::MAX,
    ensures
        r == channel_tight(*scope, l as int),
{
    let n = scope.len();
    let ne = scope.edges.len();
    let mut src_out: Vec<usize> = Vec::new();
    let mut dst_in: Vec<usize> = Vec::new();
    let mut k: usize = 0;
    while k < n
        invariant
            k <= n,
            src_out.len() == k,
            dst_in.len() == k,
            forall|v: int| 0 <= v < k ==> #[trigger] src_out@[v] == 0,
            forall|v: int| 0 <= v < k ==> #[trigger] dst_in@[v] == 0,
        decreases n - k,
    {
        src_out.push(0);
        dst_in.push(0);
        k += 1;
    }
    let mut edges: Vec<(usize, usize)> = Vec::new();
    let mut e: usize = 0;
    while e < ne
        invariant
            scope.wf(),
            l < usize::MAX,
            e <= ne,
            ne == scope.edges.len(),
            n == scope.items.len(),
            src_out.len() == n,
            dst_in.len() == n,
            forall|q: int| 0 <= q < edges.len() ==> (#[trigger] edges@[q]).0 < n && edges@[q].1 < n,
            forall|q: int| 0 <= q < edges.len() ==> edge_listed(*scope, l as int, e as int, #[trigger] edges@[q]),
            forall|e1: int|
                0 <= e1 < e && #[trigger] crosses(*scope, l as int, e1) ==> exists|q: int|
                    0 <= q < edges.len() && edges@[q] == (scope.edges@[e1].from, scope.edges@[e1].to),
            forall|e1: int|
                0 <= e1 < e && #[trigger] crosses(*scope, l as int, e1) ==> !(scope.items@[scope.edges@[e1].from as int] is Meta)
                    && !(scope.items@[scope.edges@[e1].to as int] is Meta),
            forall|v: int| 0 <= v < n ==> (#[trigger] src_out@[v] >= 1) == has_from(*scope, l as int, e as int, v),
            forall|v: int| 0 <= v < n ==> (src_out@[v] >= 2) == #[trigger] two_from(*scope, l as int, e as int, v),
            forall|v: int| 0 <= v < n ==> (#[trigger] dst_in@[v] >= 1) == has_to(*scope, l as int, e as int, v),
            forall|v: int| 0 <= v < n ==> (dst_in@[v] >= 2) == #[trigger] two_to(*scope, l as int, e as int, v),
        decreases ne - e,
    {
        let from = scope.edges[e].from;
        let to = scope.edges[e].to;
        let ghost so = src_out@;
        let ghost di = dst_in@;
        let ghost ed = edges@;
        if scope.layers[from] == l && scope.layers[to] == l + 1 {
            assert(crosses(*scope, l as int, e as int));
            match scope.items[from] {
                Item::Meta { .. } => {
                    return false;
                },
                _ => {},
            }
            match scope.items[to] {
                Item::Meta { .. } => {
                    return false;
                },
                _ => {},
            }
            src_out.set(from, src_out[from].saturating_add(1));
            dst_in.set(to, dst_in[to].saturating_add(1));
            edges.push((from, to));
            proof {
                assert(edges@[ed.len() as int] == (from, to));
                assert forall|q: int| 0 <= q < edges.len() implies edge_listed(*scope, l as int, e + 1, #[trigger] edges@[q]) by {
                    if q < ed.len() {
                        assert(edges@[q] == ed[q]);
                    }
                }
                assert forall|e1: int| 0 <= e1 < e + 1 && #[trigger] crosses(*scope, l as int, e1) implies exists|q: int|
                    0 <= q < edges.len() && edges@[q] == (scope.edges@[e1].from, scope.edges@[e1].to) by {
                    if e1 < e {
                        let q = choose|q: int| 0 <= q < ed.len() && ed[q] == (scope.edges@[e1].from, scope.edges@[e1].to);
                        assert(edges@[q] == ed[q]);
                    } else {
                        assert(edges@[ed.len() as int] == (from, to));
                    }
                }
                assert forall|v: int| 0 <= v < n implies (#[trigger] src_out@[v] >= 1) == has_from(*scope, l as int, e + 1, v) by {
                    if v == from {
                        assert(has_from(*scope, l as int, e + 1, v)) by {
                            assert(crosses(*scope, l as int, e as int) && scope.edges@[e as int].from == v);
                        }
                    } else if has_from(*scope, l as int, e + 1, v) {
                        let e1 = choose|e1: int| 0 <= e1 < e + 1 && #[trigger] crosses(*scope, l as int, e1) && scope.edges@[e1].from == v;
                        assert(e1 < e);
                        assert(has_from(*scope, l as int, e as int, v));
                    }
                }
                assert forall|v: int| 0 <= v < n implies (src_out@[v] >= 2) == #[trigger] two_from(*scope, l as int, e + 1, v) by {
                    if v == from {
                        if so[v] >= 1 {
                            let e1 = choose|e1: int| 0 <= e1 < e && #[trigger] crosses(*scope, l as int, e1) && scope.edges@[e1].from == v;
                            assert(crosses(*scope, l as int, e as int));
                            assert(two_from(*scope, l as int, e + 1, v));
                        } else {
                            assert(!has_from(*scope, l as int, e as int, v));
                            if two_from(*scope, l as int, e + 1, v) {
                                let (e1, e2) = choose|e1: int, e2: int|
                                    0 <= e1 < e2 < e + 1 && #[trigger] crosses(*scope, l as int, e1) && #[trigger] crosses(*scope, l as int, e2)
                                        && scope.edges@[e1].from == v && scope.edges@[e2].from == v;
                                assert(has_from(*scope, l as int, e as int, v));
                            }
                        }
                    } else {
                        if two_from(*scope, l as int, e + 1, v) {
                            let (e1, e2) = choose|e1: int, e2: int|
                                0 <= e1 < e2 < e + 1 && #[trigger] crosses(*scope, l as int, e1) && #[trigger] crosses(*scope, l as int, e2)
                                    && scope.edges@[e1].from == v && scope.edges@[e2].from == v;
                            assert(two_from(*scope, l as int, e as int, v));
                        }
                        if two_from(*scope, l as int, e as int, v) {
                            let (e1, e2) = choose|e1: int, e2: int|
                                0 <= e1 < e2 < e && #[trigger] crosses(*scope, l as int, e1) && #[trigger] crosses(*scope, l as int, e2)
                                    && scope.edges@[e1].from == v && scope.edges@[e2].from == v;
                            assert(two_from(*scope, l as int, e + 1, v));
                        }
                    }
                }
                assert forall|v: int| 0 <= v < n implies (#[trigger] dst_in@[v] >= 1) == has_to(*scope, l as int, e + 1, v) by {
                    if v == to {
                        assert(has_to(*scope, l as int, e + 1, v)) by {
                            assert(crosses(*scope, l as int, e as int) && scope.edges@[e as int].to == v);
                        }
                    } else if has_to(*scope, l as int, e + 1, v) {
                        let e1 = choose|e1: int| 0 <= e1 < e + 1 && #[trigger] crosses(*scope, l as int, e1) && scope.edges@[e1].to == v;
                        assert(e1 < e);
                        assert(has_to(*scope, l as int, e as int, v));
                    }
                }
                assert forall|v: int| 0 <= v < n implies (dst_in@[v] >= 2) == #[trigger] two_to(*scope, l as int, e + 1, v) by {
                    if v == to {
                        if di[v] >= 1 {
                            let e1 = choose|e1: int| 0 <= e1 < e && #[trigger] crosses(*scope, l as int, e1) && scope.edges@[e1].to == v;
                            assert(crosses(*scope, l as int, e as int));
                            assert(two_to(*scope, l as int, e + 1, v));
                        } else {
                            assert(!has_to(*scope, l as int, e as int, v));
                            if two_to(*scope, l as int, e + 1, v) {
                                let (e1, e2) = choose|e1: int, e2: int|
                                    0 <= e1 < e2 < e + 1 && #[trigger] crosses(*scope, l as int, e1) && #[trigger] crosses(*scope, l as int, e2)
                                        && scope.edges@[e1].to == v && scope.edges@[e2].to == v;
                                assert(has_to(*scope, l as int, e as int, v));
                            }
                        }
                    } else {
                        if two_to(*scope, l as int, e + 1, v) {
                            let (e1, e2) = choose|e1: int, e2: int|
                                0 <= e1 < e2 < e + 1 && #[trigger] crosses(*scope, l as int, e1) && #[trigger] crosses(*scope, l as int, e2)
                                    && scope.edges@[e1].to == v && scope.edges@[e2].to == v;
                            assert(two_to(*scope, l as int, e as int, v));
                        }
                        if two_to(*scope, l as int, e as int, v) {
                            let (e1, e2) = choose|e1: int, e2: int|
                                0 <= e1 < e2 < e && #[trigger] crosses(*scope, l as int, e1) && #[trigger] crosses(*scope, l as int, e2)
                                    && scope.edges@[e1].to == v && scope.edges@[e2].to == v;
                            assert(two_to(*scope, l as int, e + 1, v));
                        }
                    }
                }
            }
        } else {
            proof {
                assert(!crosses(*scope, l as int, e as int));
                assert forall|v: int| 0 <= v < n implies (#[trigger] src_out@[v] >= 1) == has_from(*scope, l as int, e + 1, v) by {
                    if has_from(*scope, l as int, e + 1, v) {
                        let e1 = choose|e1: int| 0 <= e1 < e + 1 && #[trigger] crosses(*scope, l as int, e1) && scope.edges@[e1].from == v;
                        assert(has_from(*scope, l as int, e as int, v));
                    }
                }
                assert forall|v: int| 0 <= v < n implies (src_out@[v] >= 2) == #[trigger] two_from(*scope, l as int, e + 1, v) by {
                    if two_from(*scope, l as int, e + 1, v) {
                        let (e1, e2) = choose|e1: int, e2: int|
                            0 <= e1 < e2 < e + 1 && #[trigger] crosses(*scope, l as int, e1) && #[trigger] crosses(*scope, l as int, e2)
                                && scope.edges@[e1].from == v && scope.edges@[e2].from == v;
                        assert(two_from(*scope, l as int, e as int, v));
                    }
                    if two_from(*scope, l as int, e as int, v) {
                        let (e1, e2) = choose|e1: int, e2: int|
                            0 <= e1 < e2 < e && #[trigger] crosses(*scope, l as int, e1) && #[trigger] crosses(*scope, l as int, e2)
                                && scope.edges@[e1].from == v && scope.edges@[e2].from == v;
                        assert(two_from(*scope, l as int, e + 1, v));
                    }
                }
                assert forall|v: int| 0 <= v < n implies (#[trigger] dst_in@[v] >= 1) == has_to(*scope, l as int, e + 1, v) by {
                    if has_to(*scope, l as int, e + 1, v) {
                        let e1 = choose|e1: int| 0 <= e1 < e + 1 && #[trigger] crosses(*scope, l as int, e1) && scope.edges@[e1].to == v;
                        assert(has_to(*scope, l as int, e as int, v));
                    }
                }
                assert forall|v: int| 0 <= v < n implies (dst_in@[v] >= 2) == #[trigger] two_to(*scope, l as int, e + 1, v) by {
                    if two_to(*scope, l as int, e + 1, v) {
                        let (e1, e2) = choose|e1: int, e2: int|
                            0 <= e1 < e2 < e + 1 && #[trigger] crosses(*scope, l as int, e1) && #[trigger] crosses(*scope, l as int, e2)
                                && scope.edges@[e1].to == v && scope.edges@[e2].to == v;
                        assert(two_to(*scope, l as int, e as int, v));
                    }
                    if two_to(*scope, l as int, e as int, v) {
                        let (e1, e2) = choose|e1: int, e2: int|
                            0 <= e1 < e2 < e && #[trigger] crosses(*scope, l as int, e1) && #[trigger] crosses(*scope, l as int, e2)
                                && scope.edges@[e1].to == v && scope.edges@[e2].to == v;
                        assert(two_to(*scope, l as int, e + 1, v));
                    }
                }
                assert forall|e1: int| 0 <= e1 < e + 1 && #[trigger] crosses(*scope, l as int, e1) implies exists|q: int|
                    0 <= q < edges.len() && edges@[q] == (scope.edges@[e1].from, scope.edges@[e1].to) by {
                    assert(e1 < e);
                }
            }
        }
        e += 1;
    }
    if edges.len() == 0 {
        proof {
            assert forall|e1: int| 0 <= e1 < ne implies !#[trigger] crosses(*scope, l as int, e1) by {
                if crosses(*scope, l as int, e1) {
                    let q = choose|q: int| 0 <= q < edges.len() && edges@[q] == (scope.edges@[e1].from, scope.edges@[e1].to);
                }
            }
            assert forall|v: int| 0 <= v < n implies !#[trigger] two_from(*scope, l as int, ne as int, v) by {
                if two_from(*scope, l as int, ne as int, v) {
                    let (e1, e2) = choose|e1: int, e2: int|
                        0 <= e1 < e2 < ne && #[trigger] crosses(*scope, l as int, e1) && #[trigger] crosses(*scope, l as int, e2)
                            && scope.edges@[e1].from == v && scope.edges@[e2].from == v;
                }
            }
            assert forall|v: int| 0 <= v < n implies !#[trigger] two_to(*scope, l as int, ne as int, v) by {
                if two_to(*scope, l as int, ne as int, v) {
                    let (e1, e2) = choose|e1: int, e2: int|
                        0 <= e1 < e2 < ne && #[trigger] crosses(*scope, l as int, e1) && #[trigger] crosses(*scope, l as int, e2)
                            && scope.edges@[e1].to == v && scope.edges@[e2].to == v;
                }
            }
        }
        return true;
    }
    let mut k: usize = 0;
    while k < n
        invariant
            k <= n,
            n == scope.items.len(),
            ne == scope.edges.len(),
            src_out.len() == n,
            dst_in.len() == n,
            forall|e1: int|
                0 <= e1 < ne && #[trigger] crosses(*scope, l as int, e1) ==> !(scope.items@[scope.edges@[e1].from as int] is Meta)
                    && !(scope.items@[scope.edges@[e1].to as int] is Meta),
            forall|v: int| 0 <= v < k ==> !#[trigger] two_from(*scope, l as int, ne as int, v),
            forall|v: int| 0 <= v < k ==> !#[trigger] two_to(*scope, l as int, ne as int, v),
            forall|v: int| 0 <= v < n ==> (src_out@[v] >= 2) == #[trigger] two_from(*scope, l as int, ne as int, v),
            forall|v: int| 0 <= v < n ==> (dst_in@[v] >= 2) == #[trigger] two_to(*scope, l as int, ne as int, v),
        decreases n - k,
    {
        if src_out[k] > 1 || dst_in[k] > 1 {
            proof {
                assert(two_from(*scope, l as int, ne as int, k as int) || two_to(*scope, l as int, ne as int, k as int));
            }
            return false;
        }
        proof {
            assert(!two_from(*scope, l as int, ne as int, k as int));
            assert(!two_to(*scope, l as int, ne as int, k as int));
        }
        k += 1;
    }
    let mut q: usize = 0;
    while q < edges.len()
        invariant
            scope.wf(),
            n == scope.items.len(),
            ne == scope.edges.len(),
            forall|t: int| 0 <= t < edges.len() ==> (#[trigger] edges@[t]).0 < n && edges@[t].1 < n,
            forall|t: int| 0 <= t < edges.len() ==> edge_listed(*scope, l as int, ne as int, #[trigger] edges@[t]),
            forall|e1: int|
                0 <= e1 < ne && #[trigger] crosses(*scope, l as int, e1) ==> exists|t: int|
                    0 <= t < edges.len() && edges@[t] == (scope.edges@[e1].from, scope.edges@[e1].to),
            forall|e1: int|
                0 <= e1 < ne && #[trigger] crosses(*scope, l as int, e1) ==> !(scope.items@[scope.edges@[e1].from as int] is Meta)
                    && !(scope.items@[scope.edges@[e1].to as int] is Meta),
            forall|v: int| 0 <= v < n ==> !#[trigger] two_from(*scope, l as int, ne as int, v),
            forall|v: int| 0 <= v < n ==> !#[trigger] two_to(*scope, l as int, ne as int, v),
            forall|t: int| 0 <= t < q ==> #[trigger] pair_straight(*scope, edges@[t]),
        decreases edges.len() - q,
    {
        let (src, dst) = edges[q];
        let (slo, shi) = item_inner_range_scope(scope, src);
        let (dlo, dhi) = item_inner_range_scope(scope, dst);
        let lo = if slo > dlo {
            slo
        } else {
            dlo
        };
        let hi = if shi < dhi {
            shi
        } else {
            dhi
        };
        if lo > hi {
            proof {
                assert(edge_listed(*scope, l as int, ne as int, edges@[q as int]));
                let e1 = choose|e1: int|
                    0 <= e1 < ne && #[trigger] crosses(*scope, l as int, e1) && edges@[q as int] == (
                        scope.edges@[e1].from,
                        scope.edges@[e1].to,
                    );
                assert(!straight(*scope, e1));
            }
            return false;
        }
        q += 1;
    }
    proof {
        assert forall|e1: int| 0 <= e1 < ne && #[trigger] crosses(*scope, l as int, e1) implies straight(*scope, e1) by {
            let t = choose|t: int| 0 <= t < edges.len() && edges@[t] == (scope.edges@[e1].from, scope.edges@[e1].to);
            assert(pair_straight(*scope, edges@[t]));
        }
    }
    true
}

/// Rows between layers `l` and `l + 1`: 2 for a tight channel, else 4;
/// labeled edges out of layer `l` widen it (LR: the label length plus
/// padding; TD: at least 4).
#[verifier::loop_isolation(false)]
fn assign_y_scope(scope: &mut Scope, dir: Direction)
    requires
        old(scope).wf(),
        layers_capped(*old(scope)),
    ensures
        final(scope).wf(),
        final(scope).items@ == old(scope).items@,
        final(scope).edges@ == old(scope).edges@,
        final(scope).layers@ == old(scope).layers@,
        final(scope).orders@ == old(scope).orders@,
        final(scope).widths@ == old(scope).widths@,
        final(scope).xs@ == old(scope).xs@,
        forall|i: int| 0 <= i < old(scope).items.len() && !(old(scope).items@[i] is Dummy) ==> #[trigger] final(scope).heights@[i] == old(scope).heights@[i],
        forall|i: int, j: int|
            0 <= i < final(scope).items.len() && 0 <= j < final(scope).items.len()
                && final(scope).layers@[i] == final(scope).layers@[j] ==> #[trigger] final(scope).ys@[i]
                == #[trigger] final(scope).ys@[j],
        forall|i: int| 0 <= i < final(scope).items.len() && final(scope).layers@[i] == 0 ==> #[trigger] final(scope).ys@[i] == 0,
        forall|i: int, j: int|
            0 <= i < final(scope).items.len() && 0 <= j < final(scope).items.len() && final(scope).layers@[i]
                == final(scope).layers@[j] && final(scope).items@[i] is Dummy ==> #[trigger] final(scope).heights@[j]
                <= #[trigger] final(scope).heights@[i],
        forall|i: int, j: int, k: int|
            0 <= i < final(scope).items.len() && 0 <= j < final(scope).items.len() && 0 <= k < final(scope).items.len()
                && final(scope).layers@[i] < final(scope).layers@[j] && final(scope).layers@[k] == final(scope).layers@[i]
                ==> #[trigger] final(scope).ys@[j] >= min_usize(#[trigger] final(scope).ys@[i] + #[trigger] final(scope).heights@[k] + 2),
        forall|e: int, i: int, j: int, k: int|
            0 <= e < final(scope).edges.len() && (#[trigger] final(scope).edges@[e]).label is Some && 0 <= i < final(scope).items.len()
                && 0 <= j < final(scope).items.len() && 0 <= k < final(scope).items.len() && final(scope).layers@[i]
                == final(scope).layers@[final(scope).edges@[e].from as int] && final(scope).layers@[i] < final(scope).layers@[j]
                && final(scope).layers@[k] == final(scope).layers@[i] ==> #[trigger] final(scope).ys@[j] >= min_usize(
                #[trigger] final(scope).ys@[i] + #[trigger] final(scope).heights@[k] + label_gap(final(scope).edges@[e], vertical(dir)),
            ),
        forall|i: int|
            0 <= i < final(scope).items.len() && final(scope).items@[i] is Dummy ==> exists|k: int|
                0 <= k < final(scope).items.len() && final(scope).layers@[k] == final(scope).layers@[i] && #[trigger] final(scope).heights@[i]
                    == (if old(scope).items@[k] is Dummy {
                    1
                } else {
                    old(scope).heights@[k]
                }),
{
    let max_layer = max_layer_of(&scope.layers);
    proof {
        if max_layer != 0 {
            let k = choose|k: int| 0 <= k < scope.layers.len() && scope.layers@[k] == max_layer;
            assert(scope.layers@[k] < usize::MAX);
        }
    }
    let n = scope.len();
    let mut layer_heights: Vec<usize> = Vec::new();
    let mut l: usize = 0;
    while l <= max_layer
        invariant
            l <= max_layer + 1,
            layer_heights.len() == l,
            forall|c: int| 0 <= c < l ==> #[trigger] layer_heights@[c] == 0,
        decreases max_layer + 1 - l,
    {
        layer_heights.push(0);
        l += 1;
    }
    let mut i: usize = 0;
    while i < n
        invariant
            i <= n,
            n == scope.items.len(),
            scope.wf(),
            forall|k: int| 0 <= k < n ==> #[trigger] scope.layers@[k] <= max_layer,
            layer_heights.len() == max_layer + 1,
            forall|k: int|
                0 <= k < i ==> (if scope.items@[k] is Dummy {
                    1
                } else {
                    scope.heights@[k]
                }) <= #[trigger] layer_heights@[scope.layers@[k] as int],
            forall|l2: int|
                0 <= l2 <= max_layer ==> #[trigger] layer_heights@[l2] == 0 || exists|k: int|
                    0 <= k < i && scope.layers@[k] == l2 && layer_heights@[l2] == (if scope.items@[k] is Dummy {
                        1
                    } else {
                        scope.heights@[k]
                    }),
        decreases n - i,
    {
        let h = if scope.is_dummy(i) {
            1
        } else {
            scope.heights[i]
        };
        let li = scope.layers[i];
        let ghost lh0 = layer_heights@;
        if h > layer_heights[li] {
            layer_heights.set(li, h);
        }
        proof {
            assert forall|k: int|
                0 <= k < i + 1 implies (if scope.items@[k] is Dummy {
                    1
                } else {
                    scope.heights@[k]
                }) <= #[trigger] layer_heights@[scope.layers@[k] as int] by {
                if k < i {
                    assert(lh0[scope.layers@[k] as int] <= layer_heights@[scope.layers@[k] as int]);
                }
            }
            assert forall|l2: int|
                0 <= l2 <= max_layer implies #[trigger] layer_heights@[l2] == 0 || exists|k: int|
                    0 <= k < i + 1 && scope.layers@[k] == l2 && layer_heights@[l2] == (if scope.items@[k] is Dummy {
                        1
                    } else {
                        scope.heights@[k]
                    }) by {
                if l2 == li && layer_heights@[l2] != lh0[l2] {
                    assert(scope.layers@[i as int] == l2);
                } else if lh0[l2] != 0 {
                    let k = choose|k: int|
                        0 <= k < i && scope.layers@[k] == l2 && lh0[l2] == (if scope.items@[k] is Dummy {
                            1
                        } else {
                            scope.heights@[k]
                        });
                    assert(0 <= k < i + 1);
                }
            }
        }
        i += 1;
    }
    // Channel size. Tight (2) when every edge crossing the channel is 1:1
    // and straight. Otherwise 4 rows so L-turn corners get breathing room.
    let mut channel_heights: Vec<usize> = Vec::new();
    let mut l: usize = 0;
    while l < max_layer
        invariant
            l <= max_layer,
            channel_heights.len() == l,
            forall|c: int| 0 <= c < l ==> #[trigger] channel_heights@[c] >= 2,
        decreases max_layer - l,
    {
        channel_heights.push(if channel_is_tight_scope(scope, l) {
            2
        } else {
            4
        });
        l += 1;
    }
    let horizontal = !dir.is_vertical();
    let mut e: usize = 0;
    while e < scope.edges.len()
        invariant
            channel_heights.len() == max_layer,
            forall|c: int| 0 <= c < max_layer ==> #[trigger] channel_heights@[c] >= 2,
            horizontal == !vertical(dir),
            forall|e2: int|
                0 <= e2 < e && (#[trigger] scope.edges@[e2]).label is Some && scope.layers@[scope.edges@[e2].from as int] < max_layer
                    ==> channel_heights@[scope.layers@[scope.edges@[e2].from as int] as int] >= label_gap(scope.edges@[e2], vertical(dir)),
        decreases scope.edges.len() - e,
    {
        let ghost ch0 = channel_heights@;
        match &scope.edges[e].label {
            None => {},
            Some(text) => {
                let l = scope.layers[scope.edges[e].from];
                if l < max_layer {
                    if horizontal {
                        let needed = char_count(text).saturating_add(2 * LR_LABEL_PAD + 1);
                        assert(needed == min_usize((text@.len() + 5) as int));
                        if needed > channel_heights[l] {
                            channel_heights.set(l, needed);
                        }
                    } else {
                        // Labels need their own row plus drop cells above and below.
                        if channel_heights[l] < 4 {
                            channel_heights.set(l, 4);
                        }
                    }
                }
            },
        }
        proof {
            assert forall|e2: int|
                0 <= e2 < e + 1 && (#[trigger] scope.edges@[e2]).label is Some && scope.layers@[scope.edges@[e2].from as int] < max_layer
                    implies channel_heights@[scope.layers@[scope.edges@[e2].from as int] as int] >= label_gap(scope.edges@[e2], vertical(dir)) by {
                let c = scope.layers@[scope.edges@[e2].from as int] as int;
                assert(channel_heights@[c] >= ch0[c]);
            }
        }
        e += 1;
    }
    let mut y: usize = 0;
    let mut l: usize = 0;
    while l <= max_layer
        invariant
            scope.wf(),
            n == scope.items.len(),
            layer_heights.len() == max_layer + 1,
            channel_heights.len() == max_layer,
            scope.items@ == old(scope).items@,
            scope.edges@ == old(scope).edges@,
            scope.layers@ == old(scope).layers@,
            scope.orders@ == old(scope).orders@,
            scope.widths@ == old(scope).widths@,
            scope.xs@ == old(scope).xs@,
            forall|i: int| 0 <= i < n && !(scope.items@[i] is Dummy) ==> #[trigger] scope.heights@[i] == old(scope).heights@[i],
            forall|i: int, j: int|
                0 <= i < n && 0 <= j < n && scope.layers@[i] == scope.layers@[j] && scope.layers@[i] < l
                    ==> #[trigger] scope.ys@[i] == #[trigger] scope.ys@[j],
            l <= max_layer,
            forall|k: int| 0 <= k < n ==> #[trigger] scope.layers@[k] <= max_layer,
            forall|c: int| 0 <= c < max_layer ==> #[trigger] channel_heights@[c] >= 2,
            forall|k: int|
                0 <= k < n && scope.layers@[k] >= l ==> (if scope.items@[k] is Dummy {
                    1
                } else {
                    scope.heights@[k]
                }) <= #[trigger] layer_heights@[scope.layers@[k] as int],
            l == 0 ==> y == 0,
            forall|i: int| 0 <= i < n && scope.layers@[i] == 0 && l > 0 ==> #[trigger] scope.ys@[i] == 0,
            forall|i: int|
                0 <= i < n && scope.layers@[i] < l && scope.items@[i] is Dummy ==> #[trigger] scope.heights@[i]
                    == layer_heights@[scope.layers@[i] as int],
            forall|i: int, j: int|
                0 <= i < n && 0 <= j < n && scope.layers@[i] == scope.layers@[j] && scope.layers@[i] < l
                    && scope.items@[i] is Dummy ==> #[trigger] scope.heights@[j] <= #[trigger] scope.heights@[i],
            forall|i: int, k: int|
                0 <= i < n && 0 <= k < n && scope.layers@[i] < l && scope.layers@[k] == scope.layers@[i]
                    ==> y >= min_usize(#[trigger] scope.ys@[i] + #[trigger] scope.heights@[k] + channel_heights@[scope.layers@[i] as int]),
            forall|i: int, j: int, k: int|
                0 <= i < n && 0 <= j < n && 0 <= k < n && scope.layers@[i] < scope.layers@[j] && scope.layers@[j] < l
                    && scope.layers@[k] == scope.layers@[i] ==> #[trigger] scope.ys@[j] >= min_usize(
                    #[trigger] scope.ys@[i] + #[trigger] scope.heights@[k] + channel_heights@[scope.layers@[i] as int],
                ),
        decreases max_layer + 1 - l,
    {
        let lh = layer_heights[l];
        let ghost ys0 = scope.ys@;
        let ghost h0 = scope.heights@;
        let mut i: usize = 0;
        while i < n
            invariant
                i <= n,
                l <= max_layer,
                scope.wf(),
                n == scope.items.len(),
                scope.items@ == old(scope).items@,
                scope.edges@ == old(scope).edges@,
                scope.layers@ == old(scope).layers@,
                scope.orders@ == old(scope).orders@,
                scope.widths@ == old(scope).widths@,
                scope.xs@ == old(scope).xs@,
                forall|k: int| 0 <= k < n && !(scope.items@[k] is Dummy) ==> #[trigger] scope.heights@[k] == old(scope).heights@[k],
                forall|a: int, b: int|
                    0 <= a < n && 0 <= b < n && scope.layers@[a] == scope.layers@[b] && scope.layers@[a] < l
                        ==> #[trigger] scope.ys@[a] == #[trigger] scope.ys@[b],
                forall|a: int| 0 <= a < i && scope.layers@[a] == l ==> #[trigger] scope.ys@[a] == y,
                scope.ys.len() == n,
                scope.heights.len() == n,
                lh == layer_heights@[l as int],
                forall|a: int| 0 <= a < n && (scope.layers@[a] != l || a >= i) ==> #[trigger] scope.ys@[a] == ys0[a],
                forall|a: int| 0 <= a < n && (scope.layers@[a] != l || a >= i) ==> #[trigger] scope.heights@[a] == h0[a],
                forall|a: int|
                    0 <= a < i && scope.layers@[a] == l && scope.items@[a] is Dummy ==> #[trigger] scope.heights@[a]
                        == lh,
            decreases n - i,
        {
            if scope.layers[i] == l {
                scope.ys.set(i, y);
                if scope.is_dummy(i) {
                    scope.heights.set(i, lh);
                }
            }
            i += 1;
        }
        proof {
            assert forall|k: int| 0 <= k < n && scope.layers@[k] == l implies #[trigger] scope.heights@[k] <= lh by {
                if !(scope.items@[k] is Dummy) {
                    assert(scope.heights@[k] == h0[k]);
                }
            }
        }
        let ghost y0 = y;
        y = y.saturating_add(lh);
        if l < max_layer {
            y = y.saturating_add(channel_heights[l]);
        }
        proof {
            assert forall|i2: int, k: int|
                0 <= i2 < n && 0 <= k < n && scope.layers@[i2] < l + 1 && scope.layers@[k] == scope.layers@[i2]
                    && l < max_layer implies y >= min_usize(#[trigger] scope.ys@[i2] + #[trigger] scope.heights@[k] + channel_heights@[scope.layers@[i2] as int]) by {
                if scope.layers@[i2] == l {
                    assert(scope.ys@[i2] == y0);
                    assert(scope.heights@[k] <= lh);
                    assert(y >= min_usize(y0 + lh + channel_heights@[l as int]));
                } else {
                    assert(scope.ys@[i2] == ys0[i2]);
                    assert(scope.heights@[k] == h0[k]);
                }
            }
            assert forall|i2: int, j: int, k: int|
                0 <= i2 < n && 0 <= j < n && 0 <= k < n && scope.layers@[i2] < scope.layers@[j] && scope.layers@[j] < l + 1
                    && scope.layers@[k] == scope.layers@[i2] implies #[trigger] scope.ys@[j] >= min_usize(
                    #[trigger] scope.ys@[i2] + #[trigger] scope.heights@[k] + channel_heights@[scope.layers@[i2] as int],
                ) by {
                assert(scope.ys@[i2] == ys0[i2]);
                assert(scope.heights@[k] == h0[k]);
                if scope.layers@[j] == l {
                    assert(scope.ys@[j] == y0);
                } else {
                    assert(scope.ys@[j] == ys0[j]);
                }
            }
            assert forall|i2: int|
                0 <= i2 < n && scope.layers@[i2] < l + 1 && scope.items@[i2] is Dummy implies #[trigger] scope.heights@[i2]
                    == layer_heights@[scope.layers@[i2] as int] by {
                if scope.layers@[i2] != l {
                    assert(scope.heights@[i2] == h0[i2]);
                }
            }
            assert forall|i2: int, j: int|
                0 <= i2 < n && 0 <= j < n && scope.layers@[i2] == scope.layers@[j] && scope.layers@[i2] < l + 1
                    && scope.items@[i2] is Dummy implies #[trigger] scope.heights@[j] <= #[trigger] scope.heights@[i2] by {
                if scope.layers@[i2] == l {
                    assert(scope.heights@[i2] == lh);
                } else {
                    assert(scope.heights@[i2] == h0[i2]);
                    assert(scope.heights@[j] == h0[j]);
                }
            }
        }
        if l == max_layer {
            break ;
        }
        l += 1;
    }
    proof {
        assert forall|i: int, j: int, k: int|
            0 <= i < n && 0 <= j < n && 0 <= k < n && scope.layers@[i] < scope.layers@[j] && scope.layers@[k] == scope.layers@[i]
                implies #[trigger] scope.ys@[j] >= min_usize(#[trigger] scope.ys@[i] + #[trigger] scope.heights@[k] + 2) by {
            assert(scope.ys@[j] >= min_usize(scope.ys@[i] + scope.heights@[k] + channel_heights@[scope.layers@[i] as int]));
        }
        assert forall|e: int, i: int, j: int, k: int|
            0 <= e < scope.edges.len() && (#[trigger] scope.edges@[e]).label is Some && 0 <= i < n && 0 <= j < n && 0 <= k < n
                && scope.layers@[i] == scope.layers@[scope.edges@[e].from as int] && scope.layers@[i] < scope.layers@[j]
                && scope.layers@[k] == scope.layers@[i] implies #[trigger] scope.ys@[j] >= min_usize(
                #[trigger] scope.ys@[i] + #[trigger] scope.heights@[k] + label_gap(scope.edges@[e], vertical(dir)),
            ) by {
            assert(scope.ys@[j] >= min_usize(scope.ys@[i] + scope.heights@[k] + channel_heights@[scope.layers@[i] as int]));
        }
        assert forall|i: int| 0 <= i < n && scope.items@[i] is Dummy implies exists|k: int|
            0 <= k < n && scope.layers@[k] == scope.layers@[i] && #[trigger] scope.heights@[i] == (if old(scope).items@[k] is Dummy {
                1
            } else {
                old(scope).heights@[k]
            }) by {
            let L = scope.layers@[i] as int;
            assert(scope.heights@[i] == layer_heights@[L]);
            assert(layer_heights@[L] >= 1);
            let k = choose|k: int|
                0 <= k < n && scope.layers@[k] == L && layer_heights@[L] == (if old(scope).items@[k] is Dummy {
                    1
                } else {
                    old(scope).heights@[k]
                });
        }
    }
}


// ---------------------------------------------------------------------------
// Levels.
/// Output of laying out a single context level.
pub struct LevelResult {
    /// Bounding box at this level, in this level's local coordinates
    /// (before container padding).
    pub w: usize,
    pub h: usize,
    /// Real nodes and dummies placed at this level, with local positions.
    pub real_pos: Vec<(NodeId, usize, usize)>,
    /// Meta-nodes placed at this level, with local positions.
    pub meta_pos: Vec<(SubgraphId, usize, usize)>,
}

/// `ctx` is the root or an ancestor-or-self of `cur`.
pub open spec fn reaches(subs: Seq<crate::graph::Subgraph>, cur: Option<usize>, ctx: Option<usize>) -> bool {
    match ctx {
        None => true,
        Some(c) => in_chain(subs, cur, c),
    }
}

/// The level's entries point at nodes among the first `n`, and its
/// meta-nodes are children of `ctx`.
pub open spec fn level_ok(r: LevelResult, n: int, subs: Seq<crate::graph::Subgraph>, ctx: Option<usize>) -> bool {
    &&& forall|k: int| 0 <= k < r.real_pos.len() ==> (#[trigger] r.real_pos@[k]).0 < n
    &&& forall|k: int|
        0 <= k < r.meta_pos.len() ==> (#[trigger] r.meta_pos@[k]).0 < subs.len() && subs[r.meta_pos@[k].0 as int].parent == ctx
}

pub proof fn lemma_in_chain_parent(subs: Seq<crate::graph::Subgraph>, cur: Option<usize>, s: usize)
    requires
        in_chain(subs, cur, s),
        s < subs.len(),
        forall|j: int| 0 <= j < subs.len() ==> ((#[trigger] subs[j]).parent matches Some(p) ==> p < j),
    ensures
        subs[s as int].parent matches Some(p) ==> in_chain(subs, cur, p),
    decreases (match cur {
        Some(c) => c + 1,
        None => 0,
    }),
{
    match cur {
        None => {},
        Some(c) => {
            if c == s {
                match subs[s as int].parent {
                    Some(p) => {
                        assert(in_chain(subs, Some(p), p));
                    },
                    None => {},
                }
            } else {
                let p = subs[c as int].parent->0;
                lemma_in_chain_parent(subs, Some(p), s);
            }
        },
    }
}

/// Deepest subgraph (or the root) that holds both `a` and `b`.
fn lowest_common_ancestor(g: &Graph, a: NodeId, b: NodeId) -> (r: Option<SubgraphId>)
    requires
        g.shape_ok(),
        a < g.nodes.len(),
        b < g.nodes.len(),
    ensures
        reaches(g.subgraphs@, g.nodes@[a as int].subgraph, r),
        reaches(g.subgraphs@, g.nodes@[b as int].subgraph, r),
        r matches Some(s) ==> s < g.subgraphs.len(),
        forall|s: usize|
            #[trigger] in_chain(g.subgraphs@, g.nodes@[a as int].subgraph, s) && in_chain(
                g.subgraphs@,
                g.nodes@[b as int].subgraph,
                s,
            ) ==> (r matches Some(t) && in_chain(g.subgraphs@, Some(t), s)),
{
    // a's ancestor chain (leaf to root, with None at the end).
    let ghost asub = g.nodes@[a as int].subgraph;
    let ghost bsub = g.nodes@[b as int].subgraph;
    let mut chain: Vec<Option<SubgraphId>> = Vec::new();
    let mut cur = g.nodes[a].subgraph;
    chain.push(cur);
    proof {
        if let Some(s) = cur {
            assert(in_chain(g.subgraphs@, asub, s));
        }
    }
    while cur.is_some()
        invariant
            g.shape_ok(),
            cur matches Some(s) ==> s < g.subgraphs.len() && in_chain(g.subgraphs@, asub, s),
            forall|k: int| 0 <= k < chain.len() ==> reaches(g.subgraphs@, asub, #[trigger] chain@[k])
                && (chain@[k] matches Some(s) ==> s < g.subgraphs.len()),
            chain.len() > 0 && chain@[chain.len() - 1] == cur,
            forall|s: usize| #[trigger] in_chain(g.subgraphs@, asub, s) ==> chain@.contains(Some(s)) || in_chain(g.subgraphs@, cur, s),
        decreases (match cur {
            Some(s) => s + 1,
            None => 0,
        }),
    {
        let s = cur.unwrap();
        let ghost c0 = chain@;
        proof {
            lemma_in_chain_parent(g.subgraphs@, asub, s);
        }
        cur = g.subgraphs[s].parent;
        chain.push(cur);
        proof {
            assert forall|t: usize| #[trigger] in_chain(g.subgraphs@, asub, t) implies chain@.contains(Some(t)) || in_chain(g.subgraphs@, cur, t) by {
                if c0.contains(Some(t)) {
                    let q = choose|q: int| 0 <= q < c0.len() && c0[q] == Some(t);
                    assert(chain@[q] == Some(t));
                } else if t == s {
                    assert(c0[c0.len() - 1] == Some(s));
                    assert(chain@[c0.len() - 1] == Some(t));
                } else {
                    assert(in_chain(g.subgraphs@, Some(s), t));
                }
            }
        }
    }
    // Walk b's chain until hitting something in `chain`.
    let mut cur = g.nodes[b].subgraph;
    proof {
        if let Some(s) = cur {
            assert(in_chain(g.subgraphs@, bsub, s));
        }
    }
    loop
        invariant
            g.shape_ok(),
            a < g.nodes.len(),
            b < g.nodes.len(),
            asub == g.nodes@[a as int].subgraph,
            bsub == g.nodes@[b as int].subgraph,
            cur matches Some(s) ==> s < g.subgraphs.len() && in_chain(g.subgraphs@, bsub, s),
            forall|k: int| 0 <= k < chain.len() ==> reaches(g.subgraphs@, asub, #[trigger] chain@[k])
                && (chain@[k] matches Some(s) ==> s < g.subgraphs.len()),
            forall|s: usize| #[trigger] in_chain(g.subgraphs@, asub, s) ==> chain@.contains(Some(s)),
            forall|s: usize| #[trigger] in_chain(g.subgraphs@, bsub, s) ==> in_chain(g.subgraphs@, cur, s) || !chain@.contains(Some(s)),
        decreases (match cur {
            Some(s) => s + 1,
            None => 0,
        }),
    {
        let mut k: usize = 0;
        while k < chain.len()
            invariant
                k <= chain.len(),
                g.shape_ok(),
                a < g.nodes.len(),
                b < g.nodes.len(),
                asub == g.nodes@[a as int].subgraph,
                bsub == g.nodes@[b as int].subgraph,
                cur matches Some(s) ==> s < g.subgraphs.len() && in_chain(g.subgraphs@, bsub, s),
                forall|s: usize| #[trigger] in_chain(g.subgraphs@, asub, s) ==> chain@.contains(Some(s)),
                forall|s: usize| #[trigger] in_chain(g.subgraphs@, bsub, s) ==> in_chain(g.subgraphs@, cur, s) || !chain@.contains(Some(s)),
                forall|j: int| 0 <= j < k ==> chain@[j] != cur,
                forall|k: int| 0 <= k < chain.len() ==> reaches(g.subgraphs@, asub, #[trigger] chain@[k])
                    && (chain@[k] matches Some(s) ==> s < g.subgraphs.len()),
            decreases chain.len() - k,
        {
            if chain[k] == cur {
                proof {
                    assert(reaches(g.subgraphs@, asub, chain@[k as int]));
                }
                return cur;
            }
            k += 1;
        }
        match cur {
            None => {
                return None;
            },
            Some(s) => {
                proof {
                    lemma_in_chain_parent(g.subgraphs@, bsub, s);
                    assert(!chain@.contains(Some(s))) by {
                        if chain@.contains(Some(s)) {
                            let q = choose|q: int| 0 <= q < chain.len() && chain@[q] == Some(s);
                            assert(chain@[q] != cur);
                        }
                    }
                }
                let ghost old_cur = cur;
                cur = g.subgraphs[s].parent;
                proof {
                    assert forall|t: usize| #[trigger] in_chain(g.subgraphs@, bsub, t) implies in_chain(g.subgraphs@, cur, t) || !chain@.contains(Some(t)) by {
                        if in_chain(g.subgraphs@, old_cur, t) && t != s {
                            assert(in_chain(g.subgraphs@, cur, t));
                        }
                    }
                }
            },
        }
    }
}

/// The slice item an edge endpoint maps to at level `context`: the node
/// itself when it lives directly in the context, else the meta-node of the
/// child subgraph that contains it.
fn map_endpoint_to_slice(
    g: &Graph,
    node: NodeId,
    context: Option<SubgraphId>,
    item_of_node: &Vec<Option<usize>>,
    item_of_meta: &Vec<Option<usize>>,
) -> (r: usize)
    requires
        g.shape_ok(),
        node < g.nodes.len(),
        item_of_node.len() == g.nodes.len(),
        item_of_meta.len() == g.subgraphs.len(),
        g.nodes@[node as int].subgraph == context ==> item_of_node@[node as int] is Some,
        reaches(g.subgraphs@, g.nodes@[node as int].subgraph, context),
        forall|c: int| 0 <= c < g.subgraphs.len() && (#[trigger] g.subgraphs@[c]).parent == context ==> item_of_meta@[c] is Some,
    ensures
        g.nodes@[node as int].subgraph == context ==> Some(r) == item_of_node@[node as int],
        g.nodes@[node as int].subgraph != context ==> exists|c: int| 0 <= c < g.subgraphs.len() && g.subgraphs@[c].parent == context && Some(r) == item_of_meta@[c],
{
    if g.nodes[node].subgraph == context {
        return item_of_node[node].unwrap();
    }
    // Walk up the node's subgraph chain until the one whose parent is the
    // context: that subgraph's meta-node wraps this node at this level.
    let mut cur: SubgraphId = match g.nodes[node].subgraph {
        Some(s) => s,
        None => {
            proof {
                assert(context is Some);
                assert(false);
            }
            0
        },
    };
    loop
        invariant
            g.shape_ok(),
            cur < g.subgraphs.len(),
            Some(cur) != context,
            node < g.nodes.len(),
            g.nodes@[node as int].subgraph != context,
            reaches(g.subgraphs@, Some(cur), context),
            forall|c: int| 0 <= c < g.subgraphs.len() && (#[trigger] g.subgraphs@[c]).parent == context ==> item_of_meta@[c] is Some,
            item_of_meta.len() == g.subgraphs.len(),
        decreases cur,
    {
        let parent = g.subgraphs[cur].parent;
        if parent == context {
            return item_of_meta[cur].unwrap();
        }
        match parent {
            Some(p) => {
                cur = p;
            },
            None => {
                proof {
                    assert(false);
                }
                return 0;
            },
        }
    }
}


// ---------------------------------------------------------------------------
// Writing a level back into the graph.
/// A dummy node as made for the slice dummies of a level: no label, round,
/// unstyled, named after its id.
pub open spec fn fresh_dummy(n: Node, i: int) -> bool {
    &&& n.id == i
    &&& n.is_dummy
    &&& n.name@ == "__dummy_"@ + crate::text::dec(i as nat)
    &&& n.label_lines.len() == 0
    &&& n.shape == Shape::Round
    &&& n.style == empty_style()
}

/// The edges of `a` live on in `b`: each keeps its source, label and style,
/// and its target or a dummy in its place; edges added after them are
/// unlabelled and start at a dummy.
pub open spec fn edges_kept(a: Seq<Edge>, b: Seq<Edge>, nodes: Seq<Node>) -> bool {
    &&& a.len() <= b.len()
    &&& forall|i: int|
        0 <= i < a.len() ==> (#[trigger] b[i]).from == a[i].from && opt_view(b[i].label) == opt_view(
            a[i].label,
        ) && b[i].style == a[i].style && (b[i].to == a[i].to || (b[i].to < nodes.len()
            && nodes[b[i].to as int].is_dummy))
    &&& forall|i: int|
        a.len() <= i < b.len() ==> (#[trigger] b[i]).label is None && b[i].from < nodes.len()
            && nodes[b[i].from as int].is_dummy
}

/// Appends one dummy node per slice dummy; returns, per slice item, the
/// node made for it.
fn materialize_dummies(scope: &Scope, g: &mut Graph, context: Option<SubgraphId>) -> (ids: Vec<
    Option<NodeId>,
>)
    requires
        old(g).shape_ok(),
        context matches Some(c) ==> c < old(g).subgraphs.len(),
    ensures
        final(g).shape_ok(),
        final(g).edges@ == old(g).edges@,
        final(g).subgraphs@ == old(g).subgraphs@,
        final(g).class_defs@ == old(g).class_defs@,
        final(g).dir == old(g).dir,
        final(g).nodes.len() >= old(g).nodes.len(),
        forall|i: int| 0 <= i < old(g).nodes.len() ==> final(g).nodes@[i] == old(g).nodes@[i],
        forall|i: int|
            old(g).nodes.len() <= i < final(g).nodes.len() ==> fresh_dummy(#[trigger] final(g).nodes@[i], i)
                && final(g).nodes@[i].width == 1 && final(g).nodes@[i].height == 1
                && final(g).nodes@[i].subgraph == context,
        ids.len() == scope.items.len(),
        forall|i: int|
            0 <= i < ids.len() ==> ((#[trigger] ids@[i]) is Some <==> scope.items@[i] is Dummy),
        forall|i: int|
            0 <= i < ids.len() ==> ((#[trigger] ids@[i]) matches Some(n) ==> old(g).nodes.len() <= n
                < final(g).nodes.len()),
        forall|n: int| old(g).nodes.len() <= n < final(g).nodes.len() ==> #[trigger] lists_node(ids@, ids.len() as int, n),
{
    let mut ids: Vec<Option<NodeId>> = Vec::new();
    let mut i: usize = 0;
    while i < scope.items.len()
        invariant
            i <= scope.items.len(),
            ids.len() == i,
            g.shape_ok(),
            context matches Some(c) ==> c < g.subgraphs.len(),
            g.edges@ == old(g).edges@,
            g.subgraphs@ == old(g).subgraphs@,
            g.class_defs@ == old(g).class_defs@,
            g.dir == old(g).dir,
            g.nodes.len() >= old(g).nodes.len(),
            forall|k: int| 0 <= k < old(g).nodes.len() ==> g.nodes@[k] == old(g).nodes@[k],
            forall|k: int|
                old(g).nodes.len() <= k < g.nodes.len() ==> fresh_dummy(#[trigger] g.nodes@[k], k)
                    && g.nodes@[k].width == 1 && g.nodes@[k].height == 1 && g.nodes@[k].subgraph
                    == context,
            forall|k: int| 0 <= k < i ==> ((#[trigger] ids@[k]) is Some <==> scope.items@[k] is Dummy),
            forall|k: int|
                0 <= k < i ==> ((#[trigger] ids@[k]) matches Some(n) ==> old(g).nodes.len() <= n
                    < g.nodes.len()),
            forall|n: int| old(g).nodes.len() <= n < g.nodes.len() ==> #[trigger] lists_node(ids@, i as int, n),
        decreases scope.items.len() - i,
    {
        if scope.is_dummy(i) {
            let nid = g.nodes.len();
            let mut name = String::from_str("__dummy_");
            push_dec(&mut name, nid);
            let ghost old_nodes = g.nodes@;
            g.nodes.push(
                Node {
                    id: nid,
                    name,
                    label_lines: Vec::new(),
                    is_dummy: true,
                    shape: Shape::Round,
                    width: 1,
                    height: 1,
                    x: 0,
                    y: 0,
                    style: Style::new(),
                    subgraph: context,
                },
            );
            proof {
                assert(g.nodes@[nid as int].id == nid);
                assert forall|a: int| 0 <= a < g.nodes.len() implies (#[trigger] g.nodes@[a]).id == a && (
                g.nodes@[a].subgraph matches Some(s) ==> s < g.subgraphs.len()) by {
                    if a < old_nodes.len() {
                        assert(g.nodes@[a] == old_nodes[a]);
                    }
                }
            }
            let ghost idb = ids@;
            ids.push(Some(nid));
            proof {
                assert forall|n: int| old(g).nodes.len() <= n < g.nodes.len() implies #[trigger] lists_node(ids@, i + 1, n) by {
                    if n == nid {
                        assert(ids@[i as int] == Some(n as usize));
                    } else {
                        assert(lists_node(idb, i as int, n));
                        let k = choose|k: int| 0 <= k < i && #[trigger] idb[k] == Some(n as usize);
                        assert(ids@[k] == idb[k]);
                    }
                }
            }
        } else {
            let ghost idb = ids@;
            ids.push(None);
            proof {
                assert forall|n: int| old(g).nodes.len() <= n < g.nodes.len() implies #[trigger] lists_node(ids@, i + 1, n) by {
                    assert(lists_node(idb, i as int, n));
                    let k = choose|k: int| 0 <= k < i && #[trigger] idb[k] == Some(n as usize);
                    assert(ids@[k] == idb[k]);
                }
            }
        }
        i += 1;
    }
    ids
}

/// Some entry among the first `hi` of `ids` is node `n`.
pub open spec fn lists_node(ids: Seq<Option<usize>>, hi: int, n: int) -> bool {
    exists|i: int| 0 <= i < hi && #[trigger] ids[i] == Some(n as usize)
}

/// Total number of dummies over the first `n` chains.
pub open spec fn chains_total(chains: Seq<(usize, Vec<usize>)>, n: int) -> nat
    decreases n,
{
    if n <= 0 {
        0
    } else {
        chains_total(chains, n - 1) + chains[n - 1].1@.len()
    }
}

/// Graph node of the `d`-th dummy of chain `ch`.
pub open spec fn hop(ids: Seq<Option<usize>>, ch: (usize, Vec<usize>), d: int) -> usize {
    ids[ch.1@[d] as int]->0
}

/// No two chains split the same graph edge.
pub open spec fn distinct_heads(chains: Seq<(usize, Vec<usize>)>) -> bool {
    forall|a: int, b: int| 0 <= a < chains.len() && 0 <= b < chains.len() && a != b ==> #[trigger] chains[a].0 != #[trigger] chains[b].0
}

/// Edge `start + w` leaves dummy `w` of chain `ch` and, but for the last,
/// enters dummy `w + 1` with no label.
pub open spec fn hop_ok(edges: Seq<Edge>, start: int, ids: Seq<Option<usize>>, ch: (usize, Vec<usize>), w: int, sty: EdgeStyle) -> bool {
    let e = edges[start + w];
    &&& e.from == hop(ids, ch, w)
    &&& e.label is None
    &&& e.style == sty
    &&& e.length == 1
    &&& (w + 1 < ch.1.len() ==> e.to == hop(ids, ch, w + 1) && e.tip_fwd == ArrowTip::NoTip && !e.tip_back)
}

/// The edges appended for chain `c` run from each of its dummies to the
/// next, the last one leaving the chain's final dummy.
pub open spec fn hops_at(edges: Seq<Edge>, base: int, chains: Seq<(usize, Vec<usize>)>, ids: Seq<Option<usize>>, c: int, old_edges: Seq<Edge>) -> bool {
    let start = base + chains_total(chains, c);
    forall|w: int| 0 <= w < chains[c].1.len() ==> #[trigger] hop_ok(edges, start, ids, chains[c], w, old_edges[chains[c].0 as int].style)
}

/// With distinct heads, chain `c`'s graph edge now enters its first dummy
/// and the chain's last hop reaches the edge's old target.
pub open spec fn chain_ends(old_edges: Seq<Edge>, edges: Seq<Edge>, chains: Seq<(usize, Vec<usize>)>, ids: Seq<Option<usize>>, c: int) -> bool {
    chains[c].1.len() > 0 ==> {
        &&& edges[chains[c].0 as int].to == hop(ids, chains[c], 0)
        &&& edges[chains[c].0 as int].tip_fwd == ArrowTip::NoTip
        &&& !edges[chains[c].0 as int].tip_back
        &&& edges[chains[c].0 as int].length == 1
        &&& edges[old_edges.len() + chains_total(chains, c + 1) - 1].to == old_edges[chains[c].0 as int].to
        &&& edges[old_edges.len() + chains_total(chains, c + 1) - 1].tip_fwd == old_edges[chains[c].0 as int].tip_fwd
        &&& edges[old_edges.len() + chains_total(chains, c + 1) - 1].tip_back == old_edges[chains[c].0 as int].tip_back
    }
}

proof fn lemma_chains_total_mono(chains: Seq<(usize, Vec<usize>)>, a: int, b: int)
    requires
        0 <= a <= b <= chains.len(),
    ensures
        chains_total(chains, a) <= chains_total(chains, b),
    decreases b - a,
{
    if a < b {
        lemma_chains_total_mono(chains, a, b - 1);
    }
}

/// Rewrites each graph edge that was split into a chain through dummies:
/// the edge itself becomes the chain's first hop, and the other hops are
/// appended.
#[verifier::spinoff_prover]
#[verifier::rlimit(40)]
fn rewrite_g_edges(g: &mut Graph, chains: &Vec<(usize, Vec<usize>)>, dummy_node_ids: &Vec<Option<NodeId>>)
    requires
        old(g).shape_ok(),
        forall|c: int| 0 <= c < chains.len() ==> (#[trigger] chains@[c]).0 < old(g).edges.len(),
        forall|c: int, d: int|
            0 <= c < chains.len() && 0 <= d < chains@[c].1.len() ==> #[trigger] chains@[c].1@[d]
                < dummy_node_ids.len(),
        forall|s: int|
            0 <= s < dummy_node_ids.len() ==> ((#[trigger] dummy_node_ids@[s]) matches Some(n) ==> n
                < old(g).nodes.len() && old(g).nodes@[n as int].is_dummy),
        forall|c: int, d: int|
            0 <= c < chains.len() && 0 <= d < chains@[c].1.len() ==> dummy_node_ids@[#[trigger] chains@[c].1@[d] as int] is Some,
    ensures
        final(g).shape_ok(),
        final(g).nodes@ == old(g).nodes@,
        final(g).subgraphs@ == old(g).subgraphs@,
        final(g).class_defs@ == old(g).class_defs@,
        final(g).dir == old(g).dir,
        edges_kept(old(g).edges@, final(g).edges@, final(g).nodes@),
        final(g).edges.len() == old(g).edges.len() + chains_total(chains@, chains.len() as int),
        forall|c: int| 0 <= c < chains.len() ==> #[trigger] hops_at(final(g).edges@, old(g).edges.len() as int, chains@, dummy_node_ids@, c, old(g).edges@),
        distinct_heads(chains@) ==> forall|c: int|
            0 <= c < chains.len() ==> #[trigger] chain_ends(old(g).edges@, final(g).edges@, chains@, dummy_node_ids@, c),
        forall|i: int|
            0 <= i < old(g).edges.len() && (forall|c: int| 0 <= c < chains.len() ==> (#[trigger] chains@[c]).0 != i || chains@[c].1.len() == 0)
                ==> #[trigger] final(g).edges@[i] == old(g).edges@[i],
{
    let mut c: usize = 0;
    while c < chains.len()
        invariant
            g.shape_ok(),
            g.nodes@ == old(g).nodes@,
            g.subgraphs@ == old(g).subgraphs@,
            g.class_defs@ == old(g).class_defs@,
            g.dir == old(g).dir,
            edges_kept(old(g).edges@, g.edges@, g.nodes@),
            c <= chains.len(),
            g.edges.len() == old(g).edges.len() + chains_total(chains@, c as int),
            forall|c2: int| 0 <= c2 < c ==> #[trigger] hops_at(g.edges@, old(g).edges.len() as int, chains@, dummy_node_ids@, c2, old(g).edges@),
            distinct_heads(chains@) ==> forall|c2: int|
                0 <= c2 < c ==> #[trigger] chain_ends(old(g).edges@, g.edges@, chains@, dummy_node_ids@, c2),
            distinct_heads(chains@) ==> forall|c2: int|
                c <= c2 < chains.len() ==> g.edges@[(#[trigger] chains@[c2]).0 as int] == old(g).edges@[chains@[c2].0 as int],
            forall|i: int|
                0 <= i < old(g).edges.len() && (forall|c2: int| 0 <= c2 < c ==> (#[trigger] chains@[c2]).0 != i || chains@[c2].1.len() == 0)
                    ==> #[trigger] g.edges@[i] == old(g).edges@[i],
            forall|c: int| 0 <= c < chains.len() ==> (#[trigger] chains@[c]).0 < old(g).edges.len(),
            forall|c: int, d: int|
                0 <= c < chains.len() && 0 <= d < chains@[c].1.len() ==> #[trigger] chains@[c].1@[d]
                    < dummy_node_ids.len(),
            forall|s: int|
                0 <= s < dummy_node_ids.len() ==> ((#[trigger] dummy_node_ids@[s]) matches Some(n) ==> n
                    < old(g).nodes.len() && old(g).nodes@[n as int].is_dummy),
            forall|c: int, d: int|
                0 <= c < chains.len() && 0 <= d < chains@[c].1.len() ==> dummy_node_ids@[#[trigger] chains@[c].1@[d] as int] is Some,
        decreases chains.len() - c,
    {
        let e_idx = chains[c].0;
        let slice_ids = &chains[c].1;
        proof {
            assert(chains_total(chains@, c + 1) == chains_total(chains@, c as int) + chains@[c as int].1@.len());
        }
        if slice_ids.len() > 0 {
            let mut g_ids: Vec<NodeId> = Vec::new();
            let mut d: usize = 0;
            while d < slice_ids.len()
                invariant
                    d <= slice_ids.len(),
                    g_ids.len() == d,
                    slice_ids@ == chains@[c as int].1@,
                    c < chains.len(),
                    forall|c: int, d: int|
                        0 <= c < chains.len() && 0 <= d < chains@[c].1.len() ==> #[trigger] chains@[c].1@[d]
                            < dummy_node_ids.len(),
                    forall|s: int|
                        0 <= s < dummy_node_ids.len() ==> ((#[trigger] dummy_node_ids@[s]) matches Some(n) ==> n
                            < old(g).nodes.len() && old(g).nodes@[n as int].is_dummy),
                    forall|c: int, d: int|
                        0 <= c < chains.len() && 0 <= d < chains@[c].1.len() ==> dummy_node_ids@[#[trigger] chains@[c].1@[d] as int] is Some,
                    forall|k: int| 0 <= k < d ==> #[trigger] g_ids@[k] < old(g).nodes.len() && old(g).nodes@[g_ids@[k] as int].is_dummy,
                    forall|k: int| 0 <= k < d ==> #[trigger] g_ids@[k] == hop(dummy_node_ids@, chains@[c as int], k),
                decreases slice_ids.len() - d,
            {
                let s = slice_ids[d];
                assert(chains@[c as int].1@[d as int] == s);
                let n = dummy_node_ids[s].unwrap();
                g_ids.push(n);
                d += 1;
            }
            let from = g.edges[e_idx].from;
            let to = g.edges[e_idx].to;
            let style = g.edges[e_idx].style;
            let tip_fwd = g.edges[e_idx].tip_fwd;
            let tip_back = g.edges[e_idx].tip_back;
            let label = match &g.edges[e_idx].label {
                Some(l) => Some(l.clone()),
                None => None,
            };
            proof {
                if distinct_heads(chains@) {
                    assert(g.edges@[chains@[c as int].0 as int] == old(g).edges@[chains@[c as int].0 as int]);
                    assert(to == old(g).edges@[e_idx as int].to);
                    assert(tip_fwd == old(g).edges@[e_idx as int].tip_fwd);
                    assert(tip_back == old(g).edges@[e_idx as int].tip_back);
                }
                assert(style == old(g).edges@[e_idx as int].style);
            }
            let ghost before = g.edges@;
            let ghost e_before_set = g.edges@;
            g.edges.set(
                e_idx,
                Edge { from, to: g_ids[0], label, style, tip_fwd: ArrowTip::NoTip, tip_back: false, length: 1 },
            );
            proof {
                assert forall|i: int| 0 <= i < g.edges.len() implies (#[trigger] g.edges@[i]).from < g.nodes.len()
                    && g.edges@[i].to < g.nodes.len() by {
                    if i != e_idx {
                        assert(g.edges@[i] == before[i]);
                    }
                }
                assert forall|i: int| 0 <= i < g.edges.len() && i != e_idx implies #[trigger] g.edges@[i] == before[i] by {}
            }
            let ghost len0 = g.edges.len();
            let ghost e_start = g.edges@;
            assert(len0 == old(g).edges.len() + chains_total(chains@, c as int));
            let mut w: usize = 0;
            while w + 1 < g_ids.len()
                invariant
                    w < g_ids.len(),
                    g.edges.len() == len0 + w,
                    g.shape_ok(),
                    g.nodes@ == old(g).nodes@,
                    g.subgraphs@ == old(g).subgraphs@,
                    g.class_defs@ == old(g).class_defs@,
                    g.dir == old(g).dir,
                    edges_kept(old(g).edges@, g.edges@, g.nodes@),
                    forall|k: int| 0 <= k < g_ids.len() ==> #[trigger] g_ids@[k] < old(g).nodes.len() && old(g).nodes@[g_ids@[k] as int].is_dummy,
                    forall|i: int| 0 <= i < len0 ==> #[trigger] g.edges@[i] == e_start[i],
                    forall|k: int|
                        0 <= k < w ==> (#[trigger] g.edges@[len0 + k]).from == g_ids@[k] && g.edges@[len0 + k].to
                            == g_ids@[k + 1] && g.edges@[len0 + k].label is None && g.edges@[len0 + k].style == style
                            && g.edges@[len0 + k].length == 1 && g.edges@[len0 + k].tip_fwd == ArrowTip::NoTip
                            && !g.edges@[len0 + k].tip_back,
                decreases g_ids.len() - w,
            {
                let ghost before = g.edges@;
                g.edges.push(
                    Edge {
                        from: g_ids[w],
                        to: g_ids[w + 1],
                        label: None,
                        style,
                        tip_fwd: ArrowTip::NoTip,
                        tip_back: false,
                        length: 1,
                    },
                );
                proof {
                    assert forall|i: int| 0 <= i < before.len() implies #[trigger] g.edges@[i] == before[i] by {}
                    assert forall|k: int|
                        0 <= k < w + 1 implies (#[trigger] g.edges@[len0 + k]).from == g_ids@[k] && g.edges@[len0 + k].to
                            == g_ids@[k + 1] && g.edges@[len0 + k].label is None && g.edges@[len0 + k].style == style
                            && g.edges@[len0 + k].length == 1 && g.edges@[len0 + k].tip_fwd == ArrowTip::NoTip
                            && !g.edges@[len0 + k].tip_back by {
                        if k < w {
                            assert(g.edges@[len0 + k] == before[len0 + k]);
                        }
                    }
                }
                w += 1;
            }
            let last = g_ids[g_ids.len() - 1];
            let ghost before = g.edges@;
            g.edges.push(
                Edge { from: last, to, label: None, style, tip_fwd, tip_back, length: 1 },
            );
            proof {
                assert forall|i: int| 0 <= i < before.len() implies #[trigger] g.edges@[i] == before[i] by {}
                let cc = c as int;
                let base = old(g).edges.len() as int;
                assert(chains_total(chains@, cc + 1) == chains_total(chains@, cc) + g_ids.len());
                assert(w + 1 == g_ids.len());
                assert forall|c2: int| 0 <= c2 < cc + 1 implies #[trigger] hops_at(g.edges@, base, chains@, dummy_node_ids@, c2, old(g).edges@) by {
                    if c2 < cc {
                        lemma_chains_total_mono(chains@, c2 + 1, cc);
                        let st = base + chains_total(chains@, c2);
                        assert forall|w2: int| 0 <= w2 < chains@[c2].1.len() implies #[trigger] hop_ok(g.edges@, st, dummy_node_ids@, chains@[c2], w2, old(g).edges@[chains@[c2].0 as int].style) by {
                            let at = st + w2;
                            assert(hops_at(e_before_set, base, chains@, dummy_node_ids@, c2, old(g).edges@));
                            assert(hop_ok(e_before_set, st, dummy_node_ids@, chains@[c2], w2, old(g).edges@[chains@[c2].0 as int].style));
                            assert(at < len0);
                            assert(g.edges@[at] == e_start[at]);
                            assert(e_start[at] == e_before_set[at]);
                        }
                    } else {
                        let st = base + chains_total(chains@, c2);
                        assert(st == len0);
                        assert forall|w2: int| 0 <= w2 < chains@[c2].1.len() implies #[trigger] hop_ok(g.edges@, st, dummy_node_ids@, chains@[c2], w2, old(g).edges@[chains@[c2].0 as int].style) by {
                            assert(g_ids@[w2] == hop(dummy_node_ids@, chains@[c2], w2));
                            if w2 + 1 < g_ids.len() {
                                assert(g_ids@[w2 + 1] == hop(dummy_node_ids@, chains@[c2], w2 + 1));
                            }
                        }
                    }
                }
                if distinct_heads(chains@) {
                    assert forall|c2: int| 0 <= c2 < cc + 1 implies #[trigger] chain_ends(old(g).edges@, g.edges@, chains@, dummy_node_ids@, c2) by {
                        if c2 < cc {
                            assert(chain_ends(old(g).edges@, e_before_set, chains@, dummy_node_ids@, c2));
                            assert(chains@[c2].0 != chains@[cc].0);
                            lemma_chains_total_mono(chains@, c2 + 1, cc);
                            let h = chains@[c2].0 as int;
                            assert(g.edges@[h] == e_start[h]);
                            assert(e_start[h] == e_before_set[h]);
                            if chains@[c2].1.len() > 0 {
                                let li = base + chains_total(chains@, c2 + 1) - 1;
                                assert(chains_total(chains@, c2 + 1) == chains_total(chains@, c2) + chains@[c2].1.len());
                                assert(g.edges@[li] == e_start[li]);
                                assert(e_start[li] == e_before_set[li]);
                            }
                        } else {
                            assert(e_idx < len0);
                            assert(g.edges@[e_idx as int] == e_start[e_idx as int]);
                            assert(e_start[e_idx as int].to == g_ids@[0]);
                            assert(base + chains_total(chains@, cc + 1) - 1 == len0 + w);
                            assert(g_ids@[0] == hop(dummy_node_ids@, chains@[cc], 0));
                            assert(g.edges@[len0 + w] == Edge { from: last, to, label: None, style, tip_fwd, tip_back, length: 1 });
                        }
                    }
                    assert forall|c2: int| cc + 1 <= c2 < chains.len() implies g.edges@[(#[trigger] chains@[c2]).0 as int] == old(g).edges@[chains@[c2].0 as int] by {
                        assert(chains@[c2].0 != chains@[cc].0);
                        let h = chains@[c2].0 as int;
                        assert(g.edges@[h] == e_start[h]);
                        assert(e_start[h] == e_before_set[h]);
                    }
                }
                assert forall|i: int|
                    0 <= i < old(g).edges.len() && (forall|c2: int| 0 <= c2 < cc + 1 ==> (#[trigger] chains@[c2]).0 != i || chains@[c2].1.len() == 0)
                        implies #[trigger] g.edges@[i] == old(g).edges@[i] by {
                    assert(chains@[cc].0 != i || chains@[cc].1.len() == 0);
                    assert(i != e_idx);
                    assert(g.edges@[i] == e_start[i]);
                    assert(e_start[i] == e_before_set[i]);
                    assert forall|c2: int| 0 <= c2 < cc implies (#[trigger] chains@[c2]).0 != i || chains@[c2].1.len() == 0 by {}
                }
            }
        }
        c += 1;
    }
}


// ---------------------------------------------------------------------------
// One level.
/// A slice item at level `ctx` is a real node among the first `n`, a
/// meta-node for a child subgraph of `ctx`, or a dummy.
pub open spec fn item_ok(it: Item, n: int, subs: Seq<crate::graph::Subgraph>, ctx: Option<usize>) -> bool {
    match it {
        Item::Real { node } => node < n,
        Item::Meta { sub } => sub < subs.len() && subs[sub as int].parent == ctx,
        Item::Dummy => true,
    }
}

/// Meta-node size for a child level of size `w` x `h` with a title of
/// `title` characters: the container padding around it, at least three
/// rows, and room for the title on the top border along the output's
/// horizontal extent.
pub open spec fn meta_size(w: usize, h: usize, title: nat, horizontal_output: bool) -> (usize, usize) {
    let min_title = sat_add(title, 4);
    let base_w = sat_add(w as nat, 2 * CONTAINER_PAD_X as nat);
    let base_h0 = sat_add(h as nat, (CONTAINER_PAD_TOP + CONTAINER_PAD_BOTTOM) as nat);
    let base_h: usize = if base_h0 > 3 { base_h0 } else { 3 };
    if horizontal_output {
        (base_w, if base_h > min_title { base_h } else { min_title })
    } else {
        (if base_w > min_title { base_w } else { min_title }, base_h)
    }
}

/// `a + b`, capped at `usize::MAX`.
pub open spec fn sat_add(a: nat, b: nat) -> usize {
    if a + b > usize::MAX {
        usize::MAX
    } else {
        (a + b) as usize
    }
}

fn meta_size_exec(w: usize, h: usize, title: usize, horizontal_output: bool) -> (r: (usize, usize))
    ensures
        r == meta_size(w, h, title as nat, horizontal_output),
{
    let min_title = title.saturating_add(4);
    let base_w = w.saturating_add(2 * CONTAINER_PAD_X);
    let base_h0 = h.saturating_add(CONTAINER_PAD_TOP + CONTAINER_PAD_BOTTOM);
    let base_h: usize = if base_h0 > 3 {
        base_h0
    } else {
        3
    };
    if horizontal_output {
        (base_w, if base_h > min_title {
            base_h
        } else {
            min_title
        })
    } else {
        (if base_w > min_title {
            base_w
        } else {
            min_title
        }, base_h)
    }
}

/// Some item of the slice is `it`.
pub open spec fn has_item(items: Seq<Item>, it: Item) -> bool {
    exists|t: int| 0 <= t < items.len() && #[trigger] items[t] == it
}

/// Some entry of a position list is for `n`.
/// Each real item stands for a real node and has that node's height.
pub open spec fn real_sized(items: Seq<Item>, heights: Seq<usize>, nodes: Seq<Node>) -> bool {
    forall|t: int|
        0 <= t < items.len() ==> ((#[trigger] items[t]) matches Item::Real { node } ==> node < nodes.len()
            && !nodes[node as int].is_dummy && heights[t] == nodes[node as int].height)
}

/// Each real node's entry carries that node's width.
pub open spec fn real_wide(items: Seq<Item>, widths: Seq<usize>, nodes: Seq<Node>) -> bool {
    forall|t: int|
        0 <= t < items.len() ==> ((#[trigger] items[t]) matches Item::Real { node } ==> node < nodes.len()
            && widths[t] == nodes[node as int].width)
}

/// Real nodes placed side by side on one row lie at least the left node's
/// width plus `gap` apart (saturating), where neither row is near the
/// numeric limit.
pub open spec fn cols_apart(pos: Seq<(usize, usize, usize)>, nodes: Seq<Node>, gap: usize) -> bool {
    forall|a: int, b: int|
        0 <= a < pos.len() && 0 <= b < pos.len() && pos[a].0 < nodes.len() && pos[b].0 < nodes.len()
            && !nodes[pos[a].0 as int].is_dummy && !nodes[pos[b].0 as int].is_dummy && pos[a].2 == pos[b].2
            && pos[a].2 + nodes[pos[a].0 as int].height + 2 <= usize::MAX && pos[b].2 + nodes[pos[b].0 as int].height + 2
            <= usize::MAX && (#[trigger] pos[a]).1 < (#[trigger] pos[b]).1 ==> pos[b].1 >= min_usize(
            pos[a].1 + nodes[pos[a].0 as int].width + gap,
        )
}

/// Where entry `t` of a level's scope is placed: its node and its position.
pub open spec fn placed(items: Seq<Item>, ids: Seq<Option<usize>>, xs: Seq<usize>, ys: Seq<usize>, t: int) -> (usize, usize, usize) {
    match items[t] {
        Item::Real { node } => (node, xs[t], ys[t]),
        _ => (ids[t]->0, xs[t], ys[t]),
    }
}

/// Real nodes placed at different heights lie at least the upper node's
/// height plus two rows apart (saturating).
pub open spec fn rows_apart(pos: Seq<(usize, usize, usize)>, nodes: Seq<Node>) -> bool {
    forall|a: int, b: int|
        0 <= a < pos.len() && 0 <= b < pos.len() && pos[a].0 < nodes.len() && pos[b].0 < nodes.len()
            && !nodes[pos[a].0 as int].is_dummy && !nodes[pos[b].0 as int].is_dummy && (#[trigger] pos[a]).2 < (#[trigger] pos[b]).2
            ==> pos[b].2 >= min_usize(pos[a].2 + nodes[pos[a].0 as int].height + 2)
}

pub open spec fn pos_has(ps: Seq<(usize, usize, usize)>, n: int) -> bool {
    exists|k: int| 0 <= k < ps.len() && (#[trigger] ps[k]).0 == n
}

proof fn lemma_has_item_push(items: Seq<Item>, x: Item, it: Item)
    requires
        has_item(items, it),
    ensures
        has_item(items.push(x), it),
{
    let t = choose|t: int| 0 <= t < items.len() && #[trigger] items[t] == it;
    assert(items.push(x)[t] == it);
}

proof fn lemma_pos_has_push(ps: Seq<(usize, usize, usize)>, x: (usize, usize, usize), n: int)
    requires
        pos_has(ps, n),
    ensures
        pos_has(ps.push(x), n),
{
    let k = choose|k: int| 0 <= k < ps.len() && (#[trigger] ps[k]).0 == n;
    assert(ps.push(x)[k] == ps[k]);
}

/// Lays out the direct members of `context` (its nodes, and one box per
/// child subgraph, sized from that child's own level), materializes the
/// dummies of long edges into `g` and returns local positions.
#[verifier::spinoff_prover]
#[verifier::rlimit(60)]
fn layout_level(g: &mut Graph, context: Option<SubgraphId>, sub_info: &Vec<Option<LevelResult>>) -> (r:
    LevelResult)
    requires
        old(g).shape_ok(),
        context matches Some(c) ==> c < old(g).subgraphs.len(),
        sub_info.len() == old(g).subgraphs.len(),
        forall|c: int|
            0 <= c < old(g).subgraphs.len() && (#[trigger] old(g).subgraphs@[c]).parent == context
                ==> sub_info@[c] is Some,
    ensures
        final(g).shape_ok(),
        level_ok(r, final(g).nodes.len() as int, final(g).subgraphs@, context),
        final(g).subgraphs@ == old(g).subgraphs@,
        final(g).class_defs@ == old(g).class_defs@,
        final(g).dir == old(g).dir,
        final(g).nodes.len() >= old(g).nodes.len(),
        forall|i: int| 0 <= i < old(g).nodes.len() ==> final(g).nodes@[i] == old(g).nodes@[i],
        forall|i: int|
            old(g).nodes.len() <= i < final(g).nodes.len() ==> fresh_dummy(#[trigger] final(g).nodes@[i], i)
                && final(g).nodes@[i].width == 1 && final(g).nodes@[i].height == 1,
        edges_kept(old(g).edges@, final(g).edges@, final(g).nodes@),
        forall|i: int|
            0 <= i < old(g).nodes.len() && !old(g).nodes@[i].is_dummy && old(g).nodes@[i].subgraph == context
                ==> #[trigger] pos_has(r.real_pos@, i),
        forall|c: int|
            0 <= c < old(g).subgraphs.len() && old(g).subgraphs@[c].parent == context ==> #[trigger] pos_has(r.meta_pos@, c),
        forall|i: int| old(g).nodes.len() <= i < final(g).nodes.len() ==> #[trigger] pos_has(r.real_pos@, i),
        forall|k: int| 0 <= k < r.real_pos.len() ==> (#[trigger] r.real_pos@[k]).1 <= r.w && r.real_pos@[k].2 <= r.h,
        forall|k: int| 0 <= k < r.meta_pos.len() ==> (#[trigger] r.meta_pos@[k]).1 <= r.w && r.meta_pos@[k].2 <= r.h,
        rows_apart(r.real_pos@, final(g).nodes@),
        cols_apart(r.real_pos@, final(g).nodes@, gap_of(old(g).dir)),
{
    let mut scope = Scope::new();
    let n_nodes = g.nodes.len();
    let mut item_of_node: Vec<Option<usize>> = Vec::new();
    let mut nid: usize = 0;
    while nid < n_nodes
        invariant
            nid <= n_nodes,
            n_nodes == g.nodes.len(),
            g.shape_ok(),
            scope.wf(),
            scope.edges.len() == 0,
            item_of_node.len() == nid,
            forall|k: int|
                0 <= k < nid && !g.nodes@[k].is_dummy && g.nodes@[k].subgraph == context
                    ==> (#[trigger] item_of_node@[k]) is Some,
            forall|k: int|
                0 <= k < nid ==> ((#[trigger] item_of_node@[k]) matches Some(t) ==> t < scope.items.len()),
            forall|t: int|
                0 <= t < scope.items.len() ==> item_ok(#[trigger] scope.items@[t], n_nodes as int, g.subgraphs@, context),
            forall|t: int| 0 <= t < scope.items.len() ==> #[trigger] scope.orders@[t] == 0,
            *g == *old(g),
            real_sized(scope.items@, scope.heights@, g.nodes@),
            real_wide(scope.items@, scope.widths@, g.nodes@),
            forall|k: int|
                0 <= k < nid && !g.nodes@[k].is_dummy && g.nodes@[k].subgraph == context
                    ==> #[trigger] has_item(scope.items@, Item::Real { node: k as usize }),
        decreases n_nodes - nid,
    {
        if !g.nodes[nid].is_dummy && g.nodes[nid].subgraph == context {
            let ghost ib = scope.items@;
            let ghost hb = scope.heights@;
            let ghost wb = scope.widths@;
            let id = scope.push(Item::Real { node: g.nodes[nid].id }, g.nodes[nid].width, g.nodes[nid].height);
            proof {
                assert(scope.items@[id as int] == Item::Real { node: nid });
                assert forall|t: int| 0 <= t < scope.items.len() implies ((#[trigger] scope.items@[t]) matches Item::Real { node } ==> node < g.nodes.len()
                    && scope.widths@[t] == g.nodes@[node as int].width) by {
                    if t < ib.len() {
                        assert(scope.items@[t] == ib[t]);
                        assert(scope.widths@[t] == wb[t]);
                    }
                }
                assert forall|t: int| 0 <= t < scope.items.len() implies ((#[trigger] scope.items@[t]) matches Item::Real { node } ==> node < g.nodes.len()
                    && !g.nodes@[node as int].is_dummy && scope.heights@[t] == g.nodes@[node as int].height) by {
                    if t < ib.len() {
                        assert(scope.items@[t] == ib[t]);
                        assert(scope.heights@[t] == hb[t]);
                    }
                }
                assert forall|k: int|
                    0 <= k < nid + 1 && !g.nodes@[k].is_dummy && g.nodes@[k].subgraph == context
                        implies #[trigger] has_item(scope.items@, Item::Real { node: k as usize }) by {
                    if k < nid {
                        lemma_has_item_push(ib, Item::Real { node: nid }, Item::Real { node: k as usize });
                    }
                }
            }
            item_of_node.push(Some(id));
        } else {
            item_of_node.push(None);
        }
        nid += 1;
    }
    let horizontal_output = !g.dir.is_vertical();
    let n_subs = g.subgraphs.len();
    let mut item_of_meta: Vec<Option<usize>> = Vec::new();
    let mut sid: usize = 0;
    while sid < n_subs
        invariant
            sid <= n_subs,
            n_subs == g.subgraphs.len(),
            n_nodes == g.nodes.len(),
            sub_info.len() == n_subs,
            g.shape_ok(),
            scope.wf(),
            scope.edges.len() == 0,
            item_of_meta.len() == sid,
            item_of_node.len() == n_nodes,
            forall|c: int|
                0 <= c < g.subgraphs.len() && (#[trigger] g.subgraphs@[c]).parent == context
                    ==> sub_info@[c] is Some,
            forall|c: int|
                0 <= c < sid && (#[trigger] g.subgraphs@[c]).parent == context
                    ==> item_of_meta@[c] is Some,
            forall|k: int|
                0 <= k < sid ==> ((#[trigger] item_of_meta@[k]) matches Some(t) ==> t < scope.items.len()),
            forall|k: int|
                0 <= k < n_nodes && !g.nodes@[k].is_dummy && g.nodes@[k].subgraph == context
                    ==> (#[trigger] item_of_node@[k]) is Some,
            forall|k: int|
                0 <= k < n_nodes ==> ((#[trigger] item_of_node@[k]) matches Some(t) ==> t < scope.items.len()),
            forall|t: int|
                0 <= t < scope.items.len() ==> item_ok(#[trigger] scope.items@[t], n_nodes as int, g.subgraphs@, context),
            forall|t: int| 0 <= t < scope.items.len() ==> #[trigger] scope.orders@[t] == 0,
            *g == *old(g),
            real_sized(scope.items@, scope.heights@, g.nodes@),
            real_wide(scope.items@, scope.widths@, g.nodes@),
            forall|k: int|
                0 <= k < n_nodes && !g.nodes@[k].is_dummy && g.nodes@[k].subgraph == context
                    ==> #[trigger] has_item(scope.items@, Item::Real { node: k as usize }),
            forall|c: int|
                0 <= c < sid && g.subgraphs@[c].parent == context ==> #[trigger] has_item(scope.items@, Item::Meta { sub: c as usize }),
        decreases n_subs - sid,
    {
        let mut pushed = false;
        if g.subgraphs[sid].parent == context {
            match &sub_info[sid] {
                Some(child) => {
                    let title = if char_count(&g.subgraphs[sid].label) > 0 {
                        char_count(&g.subgraphs[sid].label)
                    } else {
                        char_count(&g.subgraphs[sid].name)
                    };
                    let (meta_w, meta_h) = meta_size_exec(child.w, child.h, title, horizontal_output);
                    let ghost ib = scope.items@;
                    let ghost hb = scope.heights@;
                    let ghost wb = scope.widths@;
                    let id = scope.push(Item::Meta { sub: sid }, meta_w, meta_h);
                    proof {
                        assert forall|t: int| 0 <= t < scope.items.len() implies ((#[trigger] scope.items@[t]) matches Item::Real { node } ==> node < g.nodes.len()
                            && scope.widths@[t] == g.nodes@[node as int].width) by {
                            if t < ib.len() {
                                assert(scope.items@[t] == ib[t]);
                                assert(scope.widths@[t] == wb[t]);
                            }
                        }
                        assert forall|t: int| 0 <= t < scope.items.len() implies ((#[trigger] scope.items@[t]) matches Item::Real { node } ==> node < g.nodes.len()
                            && !g.nodes@[node as int].is_dummy && scope.heights@[t] == g.nodes@[node as int].height) by {
                            if t < ib.len() {
                                assert(scope.items@[t] == ib[t]);
                                assert(scope.heights@[t] == hb[t]);
                            }
                        }
                        assert(scope.items@[id as int] == Item::Meta { sub: sid });
                        assert(has_item(scope.items@, Item::Meta { sub: sid }));
                        assert forall|k: int|
                            0 <= k < n_nodes && !g.nodes@[k].is_dummy && g.nodes@[k].subgraph == context
                                implies #[trigger] has_item(scope.items@, Item::Real { node: k as usize }) by {
                            lemma_has_item_push(ib, Item::Meta { sub: sid }, Item::Real { node: k as usize });
                        }
                        assert forall|c: int|
                            0 <= c < sid && g.subgraphs@[c].parent == context implies #[trigger] has_item(scope.items@, Item::Meta { sub: c as usize }) by {
                            lemma_has_item_push(ib, Item::Meta { sub: sid }, Item::Meta { sub: c as usize });
                        }
                    }
                    item_of_meta.push(Some(id));
                    pushed = true;
                },
                None => {},
            }
        }
        if !pushed {
            item_of_meta.push(None);
        }
        sid += 1;
    }
    let edge_count = g.edges.len();
    let mut e_idx: usize = 0;
    while e_idx < edge_count
        invariant
            e_idx <= edge_count,
            edge_count == g.edges.len(),
            n_subs == g.subgraphs.len(),
            n_nodes == g.nodes.len(),
            g.shape_ok(),
            scope.wf(),
            item_of_meta.len() == n_subs,
            item_of_node.len() == n_nodes,
            forall|c: int|
                0 <= c < n_subs && (#[trigger] g.subgraphs@[c]).parent == context
                    ==> item_of_meta@[c] is Some,
            forall|k: int|
                0 <= k < n_subs ==> ((#[trigger] item_of_meta@[k]) matches Some(t) ==> t < scope.items.len()),
            forall|k: int|
                0 <= k < n_nodes && !g.nodes@[k].is_dummy && g.nodes@[k].subgraph == context
                    ==> (#[trigger] item_of_node@[k]) is Some,
            forall|k: int|
                0 <= k < n_nodes ==> ((#[trigger] item_of_node@[k]) matches Some(t) ==> t < scope.items.len()),
            forall|t: int|
                0 <= t < scope.items.len() ==> item_ok(#[trigger] scope.items@[t], n_nodes as int, g.subgraphs@, context),
            forall|t: int| 0 <= t < scope.items.len() ==> #[trigger] scope.orders@[t] == 0,
            forall|e: int|
                0 <= e < scope.edges.len() ==> ((#[trigger] scope.edges@[e]).orig_g_edge matches Some(o) ==> o < edge_count),
            *g == *old(g),
            real_sized(scope.items@, scope.heights@, g.nodes@),
            real_wide(scope.items@, scope.widths@, g.nodes@),
            forall|k: int|
                0 <= k < n_nodes && !g.nodes@[k].is_dummy && g.nodes@[k].subgraph == context
                    ==> #[trigger] has_item(scope.items@, Item::Real { node: k as usize }),
            forall|c: int|
                0 <= c < n_subs && g.subgraphs@[c].parent == context ==> #[trigger] has_item(scope.items@, Item::Meta { sub: c as usize }),
        decreases edge_count - e_idx,
    {
        let from = g.edges[e_idx].from;
        let to = g.edges[e_idx].to;
        if !g.nodes[from].is_dummy && !g.nodes[to].is_dummy {
            let lca = lowest_common_ancestor(g, from, to);
            if lca == context {
                let from_item = map_endpoint_to_slice(g, from, context, &item_of_node, &item_of_meta);
                let to_item = map_endpoint_to_slice(g, to, context, &item_of_node, &item_of_meta);
                let label = match &g.edges[e_idx].label {
                    Some(l) => Some(l.clone()),
                    None => None,
                };
                scope.edges.push(
                    SliceEdge {
                        from: from_item,
                        to: to_item,
                        label,
                        style: g.edges[e_idx].style,
                        tip_fwd: g.edges[e_idx].tip_fwd,
                        tip_back: g.edges[e_idx].tip_back,
                        length: g.edges[e_idx].length,
                        orig_g_edge: Some(e_idx),
                    },
                );
                proof {
                    assert forall|x: int| 0 <= x < scope.edges.len() implies (#[trigger] scope.edges@[x]).from
                        < scope.items.len() && scope.edges@[x].to < scope.items.len() by {}
                }
            }
        }
        e_idx += 1;
    }
    if scope.items.len() == 0 {
        proof {
            assert(edges_kept(g.edges@, g.edges@, g.nodes@));
            assert forall|i: int|
                0 <= i < old(g).nodes.len() && !old(g).nodes@[i].is_dummy && old(g).nodes@[i].subgraph == context
                    implies #[trigger] pos_has(Seq::<(usize, usize, usize)>::empty(), i) by {
                assert(has_item(scope.items@, Item::Real { node: i as usize }));
            }
            assert forall|c: int|
                0 <= c < old(g).subgraphs.len() && old(g).subgraphs@[c].parent == context
                    implies #[trigger] pos_has(Seq::<(usize, usize, usize)>::empty(), c) by {
                assert(has_item(scope.items@, Item::Meta { sub: c as usize }));
            }
        }
        return LevelResult { w: 0, h: 0, real_pos: Vec::new(), meta_pos: Vec::new() };
    }
    let ghost items_pre = scope.items@;
    let dir = g.dir;
    assign_layers_scope(&mut scope);
    let ghost n_items = scope.items.len();
    let ghost s1 = scope;
    let chain_rewrites = insert_dummies_scope(&mut scope, edge_count);
    let ghost s2 = scope;
    order_layers_scope(&mut scope);
    let ghost s25 = scope;
    assign_x_scope(&mut scope, minor_gap(dir));
    let ghost s3 = scope;
    assign_y_scope(&mut scope, dir);
    proof {
        assert(real_wide(s1.items@, s1.widths@, old(g).nodes@));
        assert forall|t: int| 0 <= t < scope.items.len() implies ((#[trigger] scope.items@[t]) matches Item::Real { node } ==> node < old(g).nodes.len()
            && scope.widths@[t] == old(g).nodes@[node as int].width) by {
            assert(scope.items@[t] == s3.items@[t]);
            assert(s3.items@[t] == s2.items@[t]);
            if t < s1.items.len() {
                assert(s2.items@[t] == s1.items@[t]);
                assert(s2.widths@[t] == s1.widths@[t]);
                if s1.items@[t] is Real {
                    assert(s1.items@[t] matches Item::Real { node } ==> node < old(g).nodes.len());
                    assert(scope.widths@[t] == s3.widths@[t]);
                }
            }
        }
        assert(real_sized(s1.items@, s1.heights@, old(g).nodes@));
        assert forall|t: int| 0 <= t < scope.items.len() implies ((#[trigger] scope.items@[t]) matches Item::Real { node } ==> node < old(g).nodes.len()
            && !old(g).nodes@[node as int].is_dummy && scope.heights@[t] == old(g).nodes@[node as int].height) by {
            assert(scope.items@[t] == s3.items@[t]);
            assert(s3.items@[t] == s2.items@[t]);
            if t < s1.items.len() {
                assert(s2.items@[t] == s1.items@[t]);
                assert(s2.heights@[t] == s1.heights@[t]);
                if s1.items@[t] is Real {
                    assert(s1.items@[t] matches Item::Real { node } ==> node < old(g).nodes.len());
                    assert(scope.heights@[t] == s3.heights@[t]);
                }
            }
        }
    }
    let dummy_node_ids = materialize_dummies(&scope, g, context);
    proof {
        assert forall|t: int|
            0 <= t < scope.items.len() implies item_ok(#[trigger] scope.items@[t], g.nodes.len() as int, g.subgraphs@, context) by {
            if t < n_items {
                assert(item_ok(scope.items@[t], n_nodes as int, g.subgraphs@, context));
            }
        }
    }
    rewrite_g_edges(g, &chain_rewrites, &dummy_node_ids);
    proof {
        assert forall|it: Item| #[trigger] has_item(items_pre, it) implies has_item(scope.items@, it) by {
            let t = choose|t: int| 0 <= t < items_pre.len() && #[trigger] items_pre[t] == it;
            assert(scope.items@[t] == items_pre[t]);
        }
    }
    let mut real_pos: Vec<(NodeId, usize, usize)> = Vec::new();
    let mut meta_pos: Vec<(SubgraphId, usize, usize)> = Vec::new();
    let mut w: usize = 0;
    let mut h: usize = 0;
    let ghost mut src_of: Seq<int> = Seq::empty();
    let mut i: usize = 0;
    while i < scope.items.len()
        invariant
            i <= scope.items.len(),
            scope.wf(),
            dummy_node_ids.len() == scope.items.len(),
            forall|k: int| 0 <= k < dummy_node_ids.len() ==> ((#[trigger] dummy_node_ids@[k]) is Some <==> scope.items@[k] is Dummy),
            forall|k: int|
                0 <= k < dummy_node_ids.len() ==> ((#[trigger] dummy_node_ids@[k]) matches Some(n) ==> n < g.nodes.len()),
            forall|t: int|
                0 <= t < scope.items.len() ==> item_ok(#[trigger] scope.items@[t], g.nodes.len() as int, g.subgraphs@, context),
            forall|k: int| 0 <= k < real_pos.len() ==> (#[trigger] real_pos@[k]).0 < g.nodes.len(),
            forall|k: int|
                0 <= k < meta_pos.len() ==> (#[trigger] meta_pos@[k]).0 < g.subgraphs.len()
                    && g.subgraphs@[meta_pos@[k].0 as int].parent == context,
            forall|t: int|
                0 <= t < i ==> match #[trigger] scope.items@[t] {
                    Item::Real { node } => pos_has(real_pos@, node as int),
                    Item::Meta { sub } => pos_has(meta_pos@, sub as int),
                    Item::Dummy => pos_has(real_pos@, dummy_node_ids@[t]->0 as int),
                },
            forall|k: int| 0 <= k < real_pos.len() ==> (#[trigger] real_pos@[k]).1 <= w && real_pos@[k].2 <= h,
            forall|k: int| 0 <= k < meta_pos.len() ==> (#[trigger] meta_pos@[k]).1 <= w && meta_pos@[k].2 <= h,
            src_of.len() == real_pos.len(),
            forall|k: int|
                0 <= k < real_pos.len() ==> 0 <= #[trigger] src_of[k] < i && !(scope.items@[src_of[k]] is Meta)
                    && real_pos@[k] == placed(scope.items@, dummy_node_ids@, scope.xs@, scope.ys@, src_of[k]),
        decreases scope.items.len() - i,
    {
        let x = scope.xs[i];
        let y = scope.ys[i];
        let ghost rp0 = real_pos@;
        let ghost mp0 = meta_pos@;
        assert(item_ok(scope.items@[i as int], g.nodes.len() as int, g.subgraphs@, context));
        match scope.items[i] {
            Item::Real { node } => {
                real_pos.push((node, x, y));
            },
            Item::Meta { sub } => {
                meta_pos.push((sub, x, y));
            },
            Item::Dummy => {
                let nid = dummy_node_ids[i].unwrap();
                real_pos.push((nid, x, y));
            },
        }
        proof {
            assert forall|k: int| 0 <= k < real_pos.len() implies (#[trigger] real_pos@[k]).0 < g.nodes.len() by {
                if k < rp0.len() {
                    assert(real_pos@[k] == rp0[k]);
                }
            }
            assert forall|k: int| 0 <= k < meta_pos.len() implies (#[trigger] meta_pos@[k]).0 < g.subgraphs.len()
                && g.subgraphs@[meta_pos@[k].0 as int].parent == context by {
                if k < mp0.len() {
                    assert(meta_pos@[k] == mp0[k]);
                }
            }
        }
        proof {
            assert forall|t: int|
                0 <= t < i + 1 implies match #[trigger] scope.items@[t] {
                    Item::Real { node } => pos_has(real_pos@, node as int),
                    Item::Meta { sub } => pos_has(meta_pos@, sub as int),
                    Item::Dummy => pos_has(real_pos@, dummy_node_ids@[t]->0 as int),
                } by {
                if t < i {
                    match scope.items@[t] {
                        Item::Real { node } => {
                            if real_pos@.len() > rp0.len() {
                                lemma_pos_has_push(rp0, real_pos@.last(), node as int);
                                assert(real_pos@ == rp0.push(real_pos@.last()));
                            }
                        },
                        Item::Meta { sub } => {
                            if meta_pos@.len() > mp0.len() {
                                lemma_pos_has_push(mp0, meta_pos@.last(), sub as int);
                                assert(meta_pos@ == mp0.push(meta_pos@.last()));
                            }
                        },
                        Item::Dummy => {
                            if real_pos@.len() > rp0.len() {
                                lemma_pos_has_push(rp0, real_pos@.last(), dummy_node_ids@[t]->0 as int);
                                assert(real_pos@ == rp0.push(real_pos@.last()));
                            }
                        },
                    }
                } else {
                    match scope.items@[t] {
                        Item::Real { node } => {
                            assert(real_pos@[real_pos.len() - 1].0 == node);
                        },
                        Item::Meta { sub } => {
                            assert(meta_pos@[meta_pos.len() - 1].0 == sub);
                        },
                        Item::Dummy => {
                            assert(real_pos@[real_pos.len() - 1].0 == dummy_node_ids@[t]->0);
                        },
                    }
                }
            }
        }
        let right = x.saturating_add(scope.widths[i]);
        if right > w {
            w = right;
        }
        let bottom = y.saturating_add(scope.heights[i]);
        if bottom > h {
            h = bottom;
        }
        proof {
            assert forall|k: int| 0 <= k < real_pos.len() implies (#[trigger] real_pos@[k]).1 <= w && real_pos@[k].2 <= h by {
                if k < rp0.len() {
                    assert(real_pos@[k] == rp0[k]);
                }
            }
            assert forall|k: int| 0 <= k < meta_pos.len() implies (#[trigger] meta_pos@[k]).1 <= w && meta_pos@[k].2 <= h by {
                if k < mp0.len() {
                    assert(meta_pos@[k] == mp0[k]);
                }
            }
            if real_pos.len() > rp0.len() {
                src_of = src_of.push(i as int);
            }
            assert forall|k: int| 0 <= k < real_pos.len() implies 0 <= #[trigger] src_of[k] < i + 1 && !(scope.items@[src_of[k]] is Meta)
                && real_pos@[k] == placed(scope.items@, dummy_node_ids@, scope.xs@, scope.ys@, src_of[k]) by {
                if k < rp0.len() {
                    assert(real_pos@[k] == rp0[k]);
                }
            }
        }
        i += 1;
    }
    proof {
        assert forall|t: int| 0 <= t < scope.items.len() implies match #[trigger] scope.items@[t] {
            Item::Real { node } => pos_has(real_pos@, node as int),
            Item::Meta { sub } => pos_has(meta_pos@, sub as int),
            Item::Dummy => pos_has(real_pos@, dummy_node_ids@[t]->0 as int),
        } by {}
        assert forall|k: int|
            0 <= k < old(g).nodes.len() && !old(g).nodes@[k].is_dummy && old(g).nodes@[k].subgraph == context
                implies #[trigger] pos_has(real_pos@, k) by {
            assert(has_item(items_pre, Item::Real { node: k as usize }));
            let t = choose|t: int| 0 <= t < scope.items.len() && #[trigger] scope.items@[t] == Item::Real { node: k as usize };
        }
        assert forall|c: int| 0 <= c < old(g).subgraphs.len() && old(g).subgraphs@[c].parent == context implies #[trigger] pos_has(meta_pos@, c) by {
            assert(has_item(items_pre, Item::Meta { sub: c as usize }));
            let t = choose|t: int| 0 <= t < scope.items.len() && #[trigger] scope.items@[t] == Item::Meta { sub: c as usize };
        }
        assert forall|n: int| old(g).nodes.len() <= n < g.nodes.len() implies #[trigger] pos_has(real_pos@, n) by {
            assert(lists_node(dummy_node_ids@, dummy_node_ids.len() as int, n));
            let t = choose|t: int| 0 <= t < dummy_node_ids.len() && #[trigger] dummy_node_ids@[t] == Some(n as usize);
            assert(scope.items@[t] is Dummy);
        }
        assert forall|a2: int, b2: int|
            0 <= a2 < real_pos.len() && 0 <= b2 < real_pos.len() && real_pos@[a2].0 < g.nodes.len() && real_pos@[b2].0 < g.nodes.len()
                && !g.nodes@[real_pos@[a2].0 as int].is_dummy && !g.nodes@[real_pos@[b2].0 as int].is_dummy
                && (#[trigger] real_pos@[a2]).2 < (#[trigger] real_pos@[b2]).2
                implies real_pos@[b2].2 >= min_usize(real_pos@[a2].2 + g.nodes@[real_pos@[a2].0 as int].height + 2) by {
            let ta = src_of[a2];
            let tb = src_of[b2];
            if scope.items@[ta] is Dummy {
                assert(dummy_node_ids@[ta] is Some);
            }
            if scope.items@[tb] is Dummy {
                assert(dummy_node_ids@[tb] is Some);
            }
            let na = real_pos@[a2].0 as int;
            assert(scope.items@[ta] == Item::Real { node: na as usize });
            assert(scope.heights@[ta] == old(g).nodes@[na].height);
            assert(g.nodes@[na] == old(g).nodes@[na]);
            if scope.layers@[ta] == scope.layers@[tb] {
                assert(scope.ys@[ta] == scope.ys@[tb]);
            } else if scope.layers@[tb] < scope.layers@[ta] {
                assert(scope.ys@[ta] >= min_usize(scope.ys@[tb] + scope.heights@[tb] + 2));
            } else {
                assert(scope.ys@[tb] >= min_usize(scope.ys@[ta] + scope.heights@[ta] + 2));
            }
        }
        assert(orders_distinct(s25));
        assert forall|a2: int, b2: int|
            0 <= a2 < real_pos.len() && 0 <= b2 < real_pos.len() && real_pos@[a2].0 < g.nodes.len() && real_pos@[b2].0 < g.nodes.len()
                && !g.nodes@[real_pos@[a2].0 as int].is_dummy && !g.nodes@[real_pos@[b2].0 as int].is_dummy && real_pos@[a2].2 == real_pos@[b2].2
                && real_pos@[a2].2 + g.nodes@[real_pos@[a2].0 as int].height + 2 <= usize::MAX && real_pos@[b2].2 + g.nodes@[real_pos@[b2].0 as int].height + 2
                <= usize::MAX && (#[trigger] real_pos@[a2]).1 < (#[trigger] real_pos@[b2]).1
                implies real_pos@[b2].1 >= min_usize(real_pos@[a2].1 + g.nodes@[real_pos@[a2].0 as int].width + gap_of(old(g).dir)) by {
            let ta = src_of[a2];
            let tb = src_of[b2];
            if scope.items@[ta] is Dummy {
                assert(dummy_node_ids@[ta] is Some);
            }
            if scope.items@[tb] is Dummy {
                assert(dummy_node_ids@[tb] is Some);
            }
            let na = real_pos@[a2].0 as int;
            let nb = real_pos@[b2].0 as int;
            assert(scope.items@[ta] == Item::Real { node: na as usize });
            assert(scope.items@[tb] == Item::Real { node: nb as usize });
            assert(scope.heights@[ta] == old(g).nodes@[na].height);
            assert(scope.heights@[tb] == old(g).nodes@[nb].height);
            assert(scope.widths@[ta] == old(g).nodes@[na].width);
            assert(g.nodes@[na] == old(g).nodes@[na]);
            assert(g.nodes@[nb] == old(g).nodes@[nb]);
            assert(real_pos@[a2].1 == scope.xs@[ta] && real_pos@[a2].2 == scope.ys@[ta]);
            assert(real_pos@[b2].1 == scope.xs@[tb] && real_pos@[b2].2 == scope.ys@[tb]);
            if scope.layers@[tb] < scope.layers@[ta] {
                assert(scope.ys@[ta] >= min_usize(scope.ys@[tb] + scope.heights@[tb] + 2));
            } else if scope.layers@[ta] < scope.layers@[tb] {
                assert(scope.ys@[tb] >= min_usize(scope.ys@[ta] + scope.heights@[ta] + 2));
            }
            assert(scope.layers@[ta] == scope.layers@[tb]);
            assert(scope.orders@[ta] == s25.orders@[ta] && scope.orders@[tb] == s25.orders@[tb]);
            assert(s25.layers@[ta] == s25.layers@[tb]);
            if scope.orders@[tb] < scope.orders@[ta] {
                assert(scope.xs@[tb] <= scope.xs@[ta]);
            } else if scope.orders@[tb] == scope.orders@[ta] {
                assert(ta == tb);
            }
            assert(scope.orders@[ta] < scope.orders@[tb]);
            assert(scope.xs@[tb] >= next_start(scope.xs@[ta], scope.widths@[ta], gap_of(dir)));
        }
    }
    LevelResult { w, h, real_pos, meta_pos }
}


// ---------------------------------------------------------------------------
// Absolute positions.
/// The nodes differ at most in their positions.
pub open spec fn same_except_pos(a: Seq<Node>, b: Seq<Node>) -> bool {
    &&& same_except_dims(a, b)
    &&& forall|i: int|
        0 <= i < a.len() ==> (#[trigger] b[i]).width == a[i].width && b[i].height == a[i].height
}

/// Measure of a level for the walk down the subgraph tree: child
/// subgraphs have larger ids than their parents.
pub open spec fn level_rank(ctx: Option<usize>, n: nat) -> nat {
    match ctx {
        None => n + 1,
        Some(s) => (n - s) as nat,
    }
}

/// The positions of the nodes, in id order.
pub open spec fn positions(nodes: Seq<Node>) -> Seq<(usize, usize)> {
    nodes.map_values(|n: Node| (n.x, n.y))
}

/// `pos` after placing the first `k` entries of `reals` at their local
/// position offset by `(ox, oy)` (saturating), later entries over earlier
/// ones.
pub open spec fn place_reals(pos: Seq<(usize, usize)>, reals: Seq<(usize, usize, usize)>, ox: usize, oy: usize, k: int) -> Seq<(usize, usize)>
    decreases k,
{
    if k <= 0 {
        pos
    } else {
        let p = place_reals(pos, reals, ox, oy, k - 1);
        let e = reals[k - 1];
        if e.0 < p.len() {
            p.update(e.0 as int, (sat_add(ox as nat, e.1 as nat), sat_add(oy as nat, e.2 as nat)))
        } else {
            p
        }
    }
}

/// `pos` after placing, from entry `k` of `metas` on, each child level at
/// its meta-node's position offset by `(ox, oy)` plus the container
/// padding: the child's own nodes, then its own children.
pub open spec fn place_metas(
    pos: Seq<(usize, usize)>,
    metas: Seq<(usize, usize, usize)>,
    k: int,
    ox: usize,
    oy: usize,
    info: Seq<Option<LevelResult>>,
    ctx: Option<usize>,
    n: nat,
) -> Seq<(usize, usize)>
    decreases level_rank(ctx, n), metas.len() - k,
{
    if k < 0 || k >= metas.len() {
        pos
    } else {
        let e = metas[k];
        let pos2 = if e.0 < info.len() && info[e.0 as int] is Some && level_rank(Some(e.0), n) < level_rank(ctx, n) {
            let child = info[e.0 as int]->0;
            let cx = sat_add(sat_add(ox as nat, e.1 as nat) as nat, CONTAINER_PAD_X as nat);
            let cy = sat_add(sat_add(oy as nat, e.2 as nat) as nat, CONTAINER_PAD_TOP as nat);
            place_metas(
                place_reals(pos, child.real_pos@, cx, cy, child.real_pos.len() as int),
                child.meta_pos@,
                0,
                cx,
                cy,
                info,
                Some(e.0),
                n,
            )
        } else {
            pos
        };
        place_metas(pos2, metas, k + 1, ox, oy, info, ctx, n)
    }
}

/// Writes absolute positions: the level's nodes at `offset` plus their
/// local position, and each child level inside its meta-node's padding.
fn apply_positions(
    g: &mut Graph,
    level: &LevelResult,
    offset_x: usize,
    offset_y: usize,
    sub_info: &Vec<Option<LevelResult>>,
    Ghost(ctx): Ghost<Option<usize>>,
)
    requires
        old(g).shape_ok(),
        ctx matches Some(c) ==> c < old(g).subgraphs.len(),
        level_ok(*level, old(g).nodes.len() as int, old(g).subgraphs@, ctx),
        sub_info.len() == old(g).subgraphs.len(),
        forall|s: int|
            0 <= s < sub_info.len() ==> (#[trigger] sub_info@[s] matches Some(r) ==> level_ok(
                r,
                old(g).nodes.len() as int,
                old(g).subgraphs@,
                Some(s as usize),
            )),
    ensures
        final(g).shape_ok(),
        same_except_pos(old(g).nodes@, final(g).nodes@),
        final(g).edges@ == old(g).edges@,
        final(g).subgraphs@ == old(g).subgraphs@,
        final(g).class_defs@ == old(g).class_defs@,
        final(g).dir == old(g).dir,
        positions(final(g).nodes@) == place_metas(
            place_reals(positions(old(g).nodes@), level.real_pos@, offset_x, offset_y, level.real_pos.len() as int),
            level.meta_pos@,
            0,
            offset_x,
            offset_y,
            sub_info@,
            ctx,
            old(g).subgraphs.len() as nat,
        ),
    decreases level_rank(ctx, old(g).subgraphs.len() as nat),
{
    let mut k: usize = 0;
    while k < level.real_pos.len()
        invariant
            k <= level.real_pos.len(),
            g.shape_ok(),
            same_except_pos(old(g).nodes@, g.nodes@),
            g.edges@ == old(g).edges@,
            g.subgraphs@ == old(g).subgraphs@,
            g.class_defs@ == old(g).class_defs@,
            g.dir == old(g).dir,
            old(g).shape_ok(),
            level_ok(*level, old(g).nodes.len() as int, old(g).subgraphs@, ctx),
            positions(g.nodes@) == place_reals(positions(old(g).nodes@), level.real_pos@, offset_x, offset_y, k as int),
        decreases level.real_pos.len() - k,
    {
        let (nid, rx, ry) = level.real_pos[k];
        assert(level.real_pos@[k as int].0 < old(g).nodes.len());
        let ghost before = positions(g.nodes@);
        g.nodes[nid].x = offset_x.saturating_add(rx);
        g.nodes[nid].y = offset_y.saturating_add(ry);
        proof {
            lemma_wf_dims(old(g).nodes@, g.nodes@, *g);
            assert(positions(g.nodes@) =~= before.update(nid as int, (offset_x.saturating_add(rx), offset_y.saturating_add(ry))));
        }
        k += 1;
    }
    let ghost target = place_metas(
        positions(g.nodes@),
        level.meta_pos@,
        0,
        offset_x,
        offset_y,
        sub_info@,
        ctx,
        old(g).subgraphs.len() as nat,
    );
    let mut k: usize = 0;
    while k < level.meta_pos.len()
        invariant
            k <= level.meta_pos.len(),
            g.shape_ok(),
            same_except_pos(old(g).nodes@, g.nodes@),
            g.edges@ == old(g).edges@,
            g.subgraphs@ == old(g).subgraphs@,
            g.class_defs@ == old(g).class_defs@,
            g.dir == old(g).dir,
            old(g).shape_ok(),
            ctx matches Some(c) ==> c < old(g).subgraphs.len(),
            level_ok(*level, old(g).nodes.len() as int, old(g).subgraphs@, ctx),
            sub_info.len() == old(g).subgraphs.len(),
            forall|s: int|
                0 <= s < sub_info.len() ==> (#[trigger] sub_info@[s] matches Some(r) ==> level_ok(
                    r,
                    old(g).nodes.len() as int,
                    old(g).subgraphs@,
                    Some(s as usize),
                )),
            k <= level.meta_pos.len(),
            place_metas(positions(g.nodes@), level.meta_pos@, k as int, offset_x, offset_y, sub_info@, ctx, old(g).subgraphs.len() as nat)
                == target,
        decreases level.meta_pos.len() - k,
    {
        let (sid, rx, ry) = level.meta_pos[k];
        assert(level.meta_pos@[k as int].0 < old(g).subgraphs.len());
        let ghost pos0 = positions(g.nodes@);
        proof {
            assert(g.subgraphs@[sid as int].parent == ctx);
            assert(level_rank(Some(sid), old(g).subgraphs.len() as nat) < level_rank(ctx, old(g).subgraphs.len() as nat));
        }
        match &sub_info[sid] {
            Some(child) => {
                let cx = offset_x.saturating_add(rx).saturating_add(CONTAINER_PAD_X);
                let cy = offset_y.saturating_add(ry).saturating_add(CONTAINER_PAD_TOP);
                let ghost before = g.nodes@;
                proof {
                    assert(g.subgraphs@[sid as int].parent == ctx);
                    assert(sid < g.subgraphs.len());
                }
                apply_positions(g, child, cx, cy, sub_info, Ghost(Some(sid)));
                proof {
                    assert forall|i: int| 0 <= i < old(g).nodes.len() implies (#[trigger] g.nodes@[i]).width
                        == old(g).nodes@[i].width && g.nodes@[i].height == old(g).nodes@[i].height by {
                        assert(g.nodes@[i].width == before[i].width);
                    }
                    assert forall|i: int| 0 <= i < old(g).nodes.len() implies {
                        &&& (#[trigger] g.nodes@[i]).id == old(g).nodes@[i].id
                        &&& g.nodes@[i].name == old(g).nodes@[i].name
                        &&& g.nodes@[i].label_lines == old(g).nodes@[i].label_lines
                        &&& g.nodes@[i].is_dummy == old(g).nodes@[i].is_dummy
                        &&& g.nodes@[i].shape == old(g).nodes@[i].shape
                        &&& g.nodes@[i].style == old(g).nodes@[i].style
                        &&& g.nodes@[i].subgraph == old(g).nodes@[i].subgraph
                    } by {
                        assert(g.nodes@[i].id == before[i].id);
                    }
                }
            },
            None => {},
        }
        proof {
            assert(place_metas(pos0, level.meta_pos@, k as int, offset_x, offset_y, sub_info@, ctx, old(g).subgraphs.len() as nat)
                == place_metas(positions(g.nodes@), level.meta_pos@, k + 1, offset_x, offset_y, sub_info@, ctx, old(g).subgraphs.len() as nat));
        }
        k += 1;
    }
}


proof fn lemma_edges_kept_trans(a: Seq<Edge>, b: Seq<Edge>, c: Seq<Edge>, n1: Seq<Node>, n2: Seq<Node>)
    requires
        edges_kept(a, b, n1),
        edges_kept(b, c, n2),
        n1.len() <= n2.len(),
        forall|i: int| 0 <= i < n1.len() ==> n2[i] == n1[i],
    ensures
        edges_kept(a, c, n2),
{
    assert forall|i: int| 0 <= i < a.len() implies (#[trigger] c[i]).from == a[i].from && opt_view(c[i].label)
        == opt_view(a[i].label) && c[i].style == a[i].style && (c[i].to == a[i].to || (c[i].to
        < n2.len() && n2[c[i].to as int].is_dummy)) by {
        assert(b[i].from == a[i].from);
        assert(c[i].from == b[i].from);
        if b[i].to != a[i].to {
            assert(n2[b[i].to as int] == n1[b[i].to as int]);
        }
    }
    assert forall|i: int| a.len() <= i < c.len() implies (#[trigger] c[i]).label is None && c[i].from
        < n2.len() && n2[c[i].from as int].is_dummy by {
        if i < b.len() {
            assert(b[i].label is None);
            assert(c[i].from == b[i].from);
            assert(n2[b[i].from as int] == n1[b[i].from as int]);
        }
    }
}

/// Swaps every node's width and height.
fn swap_sizes(g: &mut Graph)
    requires
        old(g).shape_ok(),
    ensures
        final(g).shape_ok(),
        same_except_dims(old(g).nodes@, final(g).nodes@),
        forall|i: int|
            0 <= i < final(g).nodes.len() ==> (#[trigger] final(g).nodes@[i]).width == old(g).nodes@[i].height
                && final(g).nodes@[i].height == old(g).nodes@[i].width,
        final(g).edges@ == old(g).edges@,
        final(g).subgraphs@ == old(g).subgraphs@,
        final(g).class_defs@ == old(g).class_defs@,
        final(g).dir == old(g).dir,
{
    let mut i: usize = 0;
    while i < g.nodes.len()
        invariant
            i <= g.nodes.len(),
            g.shape_ok(),
            old(g).shape_ok(),
            same_except_dims(old(g).nodes@, g.nodes@),
            forall|k: int|
                0 <= k < i ==> (#[trigger] g.nodes@[k]).width == old(g).nodes@[k].height
                    && g.nodes@[k].height == old(g).nodes@[k].width,
            forall|k: int| i <= k < g.nodes.len() ==> #[trigger] g.nodes@[k] == old(g).nodes@[k],
            g.edges@ == old(g).edges@,
            g.subgraphs@ == old(g).subgraphs@,
            g.class_defs@ == old(g).class_defs@,
            g.dir == old(g).dir,
        decreases g.nodes.len() - i,
    {
        let w = g.nodes[i].width;
        let h = g.nodes[i].height;
        g.nodes[i].width = h;
        g.nodes[i].height = w;
        proof {
            lemma_wf_dims(old(g).nodes@, g.nodes@, *g);
        }
        i += 1;
    }
}

/// Swaps every node's position and size across the diagonal.
fn transpose_nodes(g: &mut Graph)
    requires
        old(g).shape_ok(),
    ensures
        final(g).shape_ok(),
        same_except_dims(old(g).nodes@, final(g).nodes@),
        forall|i: int|
            0 <= i < final(g).nodes.len() ==> (#[trigger] final(g).nodes@[i]).width == old(g).nodes@[i].height
                && final(g).nodes@[i].height == old(g).nodes@[i].width && final(g).nodes@[i].x
                == old(g).nodes@[i].y && final(g).nodes@[i].y == old(g).nodes@[i].x,
        final(g).edges@ == old(g).edges@,
        final(g).subgraphs@ == old(g).subgraphs@,
        final(g).class_defs@ == old(g).class_defs@,
        final(g).dir == old(g).dir,
{
    let mut i: usize = 0;
    while i < g.nodes.len()
        invariant
            i <= g.nodes.len(),
            g.shape_ok(),
            old(g).shape_ok(),
            same_except_dims(old(g).nodes@, g.nodes@),
            forall|k: int|
                0 <= k < i ==> (#[trigger] g.nodes@[k]).width == old(g).nodes@[k].height
                    && g.nodes@[k].height == old(g).nodes@[k].width && g.nodes@[k].x == old(g).nodes@[k].y
                    && g.nodes@[k].y == old(g).nodes@[k].x,
            forall|k: int| i <= k < g.nodes.len() ==> #[trigger] g.nodes@[k] == old(g).nodes@[k],
            g.edges@ == old(g).edges@,
            g.subgraphs@ == old(g).subgraphs@,
            g.class_defs@ == old(g).class_defs@,
            g.dir == old(g).dir,
        decreases g.nodes.len() - i,
    {
        let w = g.nodes[i].width;
        let h = g.nodes[i].height;
        let x = g.nodes[i].x;
        let y = g.nodes[i].y;
        g.nodes[i].width = h;
        g.nodes[i].height = w;
        g.nodes[i].x = y;
        g.nodes[i].y = x;
        proof {
            lemma_wf_dims(old(g).nodes@, g.nodes@, *g);
        }
        i += 1;
    }
}

/// Lays out the whole graph: sizes every node from its label and
/// `padding`, lays out each subgraph's contents innermost first, then the
/// top level, and writes absolute positions. Edges that span several layers
/// are split into chains through new dummy nodes.
pub fn layout(g: Graph, padding: usize) -> (r: Graph)
    requires
        g.shape_ok(),
        dims_fit(g, padding),
    ensures
        r.shape_ok(),
        r.dir == g.dir,
        r.subgraphs@ == g.subgraphs@,
        r.class_defs@ == g.class_defs@,
        r.nodes.len() >= g.nodes.len(),
        same_except_dims(g.nodes@, r.nodes@.take(g.nodes.len() as int)),
        forall|i: int|
            0 <= i < r.nodes.len() ==> if (#[trigger] r.nodes@[i]).is_dummy {
                r.nodes@[i].width == 1 && r.nodes@[i].height == 1
            } else {
                r.nodes@[i].width == box_width(g.nodes@[i], padding) && r.nodes@[i].height == box_height(
                    g.nodes@[i],
                )
            },
        forall|i: int| g.nodes.len() <= i < r.nodes.len() ==> fresh_dummy(#[trigger] r.nodes@[i], i),
        edges_kept(g.edges@, r.edges@, r.nodes@),
{
    let mut g = g;
    let ghost g_in = g;
    compute_node_dims(&mut g, padding);
    let horizontal = !g.dir.is_vertical();
    if horizontal {
        swap_sizes(&mut g);
    }
    let ghost g0 = g;
    let n_subs = g.subgraphs.len();
    let order = subgraph_post_order(&g);
    let mut sub_info: Vec<Option<LevelResult>> = Vec::new();
    let mut s: usize = 0;
    while s < n_subs
        invariant
            s <= n_subs,
            sub_info.len() == s,
            forall|k: int| 0 <= k < s ==> (#[trigger] sub_info@[k]) is None,
        decreases n_subs - s,
    {
        sub_info.push(None);
        s += 1;
    }
    proof {
        assert(edges_kept(g0.edges@, g.edges@, g.nodes@));
    }
    let mut k: usize = 0;
    while k < order.len()
        invariant
            k <= order.len(),
            g.shape_ok(),
            n_subs == g.subgraphs.len(),
            sub_info.len() == n_subs,
            g.subgraphs@ == g0.subgraphs@,
            g.class_defs@ == g0.class_defs@,
            g.dir == g0.dir,
            children_first(g.subgraphs@, order@),
            g.nodes.len() >= g0.nodes.len(),
            forall|i: int| 0 <= i < g0.nodes.len() ==> g.nodes@[i] == g0.nodes@[i],
            forall|i: int|
                g0.nodes.len() <= i < g.nodes.len() ==> fresh_dummy(#[trigger] g.nodes@[i], i)
                    && g.nodes@[i].width == 1 && g.nodes@[i].height == 1,
            edges_kept(g0.edges@, g.edges@, g.nodes@),
            forall|m: int| 0 <= m < k ==> sub_info@[#[trigger] order@[m] as int] is Some,
            forall|t: int|
                0 <= t < n_subs ==> (#[trigger] sub_info@[t] matches Some(r) ==> level_ok(
                    r,
                    g.nodes.len() as int,
                    g.subgraphs@,
                    Some(t as usize),
                )),
        decreases order.len() - k,
    {
        let sid = order[k];
        proof {
            assert(sid < n_subs);
            assert forall|c: int|
                0 <= c < g.subgraphs.len() && (#[trigger] g.subgraphs@[c]).parent == Some(sid) implies sub_info@[c] is Some by {
                let m = choose|m: int| 0 <= m < k && order@[m] == c;
                assert(sub_info@[order@[m] as int] is Some);
            }
        }
        let ghost gb = g;
        let result = layout_level(&mut g, Some(sid), &sub_info);
        proof {
            lemma_edges_kept_trans(g0.edges@, gb.edges@, g.edges@, gb.nodes@, g.nodes@);
        }
        let ghost before = sub_info@;
        sub_info.set(sid, Some(result));
        proof {
            assert forall|m: int| 0 <= m <= k implies sub_info@[#[trigger] order@[m] as int] is Some by {
                if m < k && order@[m] != sid {
                    assert(before[order@[m] as int] is Some);
                }
            }
            assert forall|t: int|
                0 <= t < n_subs implies (#[trigger] sub_info@[t] matches Some(r) ==> level_ok(
                    r,
                    g.nodes.len() as int,
                    g.subgraphs@,
                    Some(t as usize),
                )) by {
                if t != sid {
                    assert(sub_info@[t] == before[t]);
                    if let Some(r) = before[t] {
                        assert(level_ok(r, gb.nodes.len() as int, gb.subgraphs@, Some(t as usize)));
                    }
                }
            }
        }
        k += 1;
    }
    proof {
        assert forall|c: int|
            0 <= c < g.subgraphs.len() && (#[trigger] g.subgraphs@[c]).parent == None::<usize> implies sub_info@[c] is Some by {
            assert(order@.contains(c as usize));
            let m = choose|m: int| 0 <= m < order.len() && order@[m] == c as usize;
            assert(sub_info@[order@[m] as int] is Some);
        }
    }
    let ghost gb = g;
    let root = layout_level(&mut g, None, &sub_info);
    proof {
        lemma_edges_kept_trans(g0.edges@, gb.edges@, g.edges@, gb.nodes@, g.nodes@);
        assert forall|t: int|
            0 <= t < n_subs implies (#[trigger] sub_info@[t] matches Some(r) ==> level_ok(
                r,
                g.nodes.len() as int,
                g.subgraphs@,
                Some(t as usize),
            )) by {
            if let Some(r) = sub_info@[t] {
                assert(level_ok(r, gb.nodes.len() as int, gb.subgraphs@, Some(t as usize)));
            }
        }
    }
    let ghost ga = g;
    apply_positions(&mut g, &root, 0, 0, &sub_info, Ghost(None));
    let ghost gp = g;
    if horizontal {
        transpose_nodes(&mut g);
    }
    proof {
        assert forall|i: int|
            0 <= i < g.nodes.len() implies if (#[trigger] g.nodes@[i]).is_dummy {
                g.nodes@[i].width == 1 && g.nodes@[i].height == 1
            } else {
                g.nodes@[i].width == box_width(g_in.nodes@[i], padding) && g.nodes@[i].height
                    == box_height(g_in.nodes@[i])
            } by {
            assert(gp.nodes@[i].width == ga.nodes@[i].width);
            assert(gp.nodes@[i].is_dummy == ga.nodes@[i].is_dummy);
            if i < g0.nodes.len() {
                assert(ga.nodes@[i] == g0.nodes@[i]);
            }
        }
        assert forall|i: int| g_in.nodes.len() <= i < g.nodes.len() implies fresh_dummy(#[trigger] g.nodes@[i], i) by {
            assert(fresh_dummy(ga.nodes@[i], i));
            assert(gp.nodes@[i].name == ga.nodes@[i].name);
        }
        let t = g.nodes@.take(g_in.nodes.len() as int);
        assert forall|i: int| 0 <= i < g_in.nodes.len() implies {
            &&& (#[trigger] t[i]).id == g_in.nodes@[i].id
            &&& t[i].name == g_in.nodes@[i].name
            &&& t[i].label_lines == g_in.nodes@[i].label_lines
            &&& t[i].is_dummy == g_in.nodes@[i].is_dummy
            &&& t[i].shape == g_in.nodes@[i].shape
            &&& t[i].style == g_in.nodes@[i].style
            &&& t[i].subgraph == g_in.nodes@[i].subgraph
        } by {
            assert(t[i] == g.nodes@[i]);
            assert(ga.nodes@[i] == g0.nodes@[i]);
            assert(gp.nodes@[i].name == ga.nodes@[i].name);
        }
        assert forall|i: int| 0 <= i < g.nodes.len() implies (#[trigger] g.nodes@[i]).is_dummy
            == ga.nodes@[i].is_dummy by {
            assert(gp.nodes@[i].is_dummy == ga.nodes@[i].is_dummy);
        }
        assert(edges_kept(g_in.edges@, g.edges@, g.nodes@));
    }
    g
}

} // verus!
