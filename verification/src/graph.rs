//! The flowchart model: nodes, edges, subgraphs and their invariants.
use vstd::prelude::*;
use vstd::string::*;
use crate::style::{Style, empty_style};

verus! {

pub type NodeId = usize;

pub type SubgraphId = usize;

#[derive(Debug, Clone, Copy, PartialEq, Eq, Structural)]
pub enum Direction {
    TD,
    BT,
    LR,
    RL,
}

/// Flow runs along the vertical axis.
pub open spec fn vertical(d: Direction) -> bool {
    d is TD || d is BT
}

impl Direction {
    /// Whether flow runs along the vertical (y) or horizontal (x) axis.
    pub fn is_vertical(self) -> (r: bool)
        ensures
            r == vertical(self),
    {
        match self {
            Direction::TD | Direction::BT => true,
            _ => false,
        }
    }
}

#[derive(Debug, Clone, Copy, PartialEq, Eq, Structural)]
pub enum Shape {
    Round,
    Square,
}

#[derive(Debug, Clone)]
pub struct Node {
    pub id: NodeId,
    pub name: String,
    pub label_lines: Vec<String>,
    pub is_dummy: bool,
    pub shape: Shape,
    pub width: usize,
    pub height: usize,
    pub x: usize,
    pub y: usize,
    /// User-supplied style (via `style X ..` / `classDef` / `class X ..`).
    pub style: Style,
    /// Enclosing subgraph, if any.
    pub subgraph: Option<SubgraphId>,
}

#[derive(Debug, Clone)]
pub struct Subgraph {
    pub name: String,
    pub label: String,
    pub parent: Option<SubgraphId>,
    pub style: Style,
}

#[derive(Debug, Clone, Copy, PartialEq, Eq, Structural)]
pub enum EdgeStyle {
    Normal,
    Thick,
    Dotted,
    Invisible,
}

/// Dominance rank of an edge style: Thick > Dotted > Normal > Invisible.
pub open spec fn style_rank(s: EdgeStyle) -> nat {
    match s {
        EdgeStyle::Thick => 3,
        EdgeStyle::Dotted => 2,
        EdgeStyle::Normal => 1,
        EdgeStyle::Invisible => 0,
    }
}

/// The dominant of two styles; `a` wins ties.
pub open spec fn dominant(a: EdgeStyle, b: EdgeStyle) -> EdgeStyle {
    if style_rank(a) >= style_rank(b) {
        a
    } else {
        b
    }
}

fn rank(s: EdgeStyle) -> (r: u8)
    ensures
        r == style_rank(s),
{
    match s {
        EdgeStyle::Thick => 3,
        EdgeStyle::Dotted => 2,
        EdgeStyle::Normal => 1,
        EdgeStyle::Invisible => 0,
    }
}

impl EdgeStyle {
    /// Dominance for merging cells touched by multiple edges: Thick > Dotted > Normal.
    pub fn max_over(self, other: Self) -> (r: Self)
        ensures
            r == dominant(self, other),
    {
        if rank(self) >= rank(other) {
            self
        } else {
            other
        }
    }
}

/// `max_over` picks the style of higher rank, whichever side it is on, is
/// idempotent, and is associative; so merging the styles of all edges that
/// touch a cell gives the same result in any order.
pub proof fn law_max_over(a: EdgeStyle, b: EdgeStyle, c: EdgeStyle)
    ensures
        style_rank(dominant(a, b)) == if style_rank(a) >= style_rank(b) {
            style_rank(a)
        } else {
            style_rank(b)
        },
        dominant(a, b) == dominant(b, a),
        dominant(a, a) == a,
        dominant(dominant(a, b), c) == dominant(a, dominant(b, c)),
{
}

#[derive(Debug, Clone, Copy, PartialEq, Eq, Structural)]
pub enum ArrowTip {
    /// No tip.
    NoTip,
    Arrow,
    Cross,
    Circle,
}

#[derive(Debug, Clone)]
pub struct Edge {
    pub from: NodeId,
    pub to: NodeId,
    pub label: Option<String>,
    pub style: EdgeStyle,
    pub tip_fwd: ArrowTip,
    pub tip_back: bool,
    /// Edge "rank": 1 for a base `-->`, 2 for `--->`, 3 for `---->`, etc.
    /// Used during layering to stretch long edges across more layers.
    pub length: usize,
}

/// The label text of an optional label.
pub open spec fn opt_view(l: Option<String>) -> Option<Seq<char>> {
    match l {
        Some(s) => Some(s@),
        None => None,
    }
}

/// The texts of a list of strings.
pub open spec fn lines_view(v: Seq<String>) -> Seq<Seq<char>> {
    v.map_values(|s: String| s@)
}

#[derive(Debug)]
pub struct Graph {
    pub nodes: Vec<Node>,
    pub edges: Vec<Edge>,
    pub dir: Direction,
    pub subgraphs: Vec<Subgraph>,
    /// `classDef` styles in the order they were defined; a later definition
    /// of a name replaces the earlier one.
    pub class_defs: Vec<(String, Style)>,
}

/// The first real (non-dummy) node at or after `i` whose name is `name`.
pub open spec fn find_named(nodes: Seq<Node>, name: Seq<char>, i: int) -> Option<int>
    decreases nodes.len() - i,
{
    if i < 0 || i >= nodes.len() {
        None
    } else if !nodes[i].is_dummy && nodes[i].name@ == name {
        Some(i)
    } else {
        find_named(nodes, name, i + 1)
    }
}

/// Whether subgraph `sid` is `cur` or one of its ancestors.
pub open spec fn in_chain(subs: Seq<Subgraph>, cur: Option<usize>, sid: usize) -> bool
    decreases (match cur {
        Some(s) => s + 1,
        None => 0,
    }),
{
    match cur {
        None => false,
        Some(s) => s == sid || (s < subs.len() && match subs[s as int].parent {
            Some(p) => p < s && in_chain(subs, Some(p), sid),
            None => false,
        }),
    }
}

/// A freshly added node with the given fields.
pub open spec fn fresh_node(
    n: Node,
    id: usize,
    name: Seq<char>,
    lines: Seq<Seq<char>>,
    shape: Shape,
) -> bool {
    &&& n.id == id
    &&& n.name@ == name
    &&& lines_view(n.label_lines@) == lines
    &&& !n.is_dummy
    &&& n.shape == shape
    &&& n.width == 0 && n.height == 0 && n.x == 0 && n.y == 0
    &&& n.style == empty_style()
    &&& n.subgraph is None
}

/// Every line of the label is empty.
pub open spec fn all_empty(lines: Seq<Seq<char>>) -> bool {
    forall|i: int| 0 <= i < lines.len() ==> #[trigger] lines[i].len() == 0
}

impl Graph {
    /// Shape of the graph: ids are positions, every reference points at an
    /// existing node or subgraph, and a subgraph's parent was declared before
    /// it.
    pub open spec fn shape_ok(&self) -> bool {
        &&& forall|i: int|
            0 <= i < self.nodes.len() ==> (#[trigger] self.nodes@[i]).id == i && (
            self.nodes@[i].subgraph matches Some(s) ==> s < self.subgraphs.len())
        &&& forall|i: int|
            0 <= i < self.edges.len() ==> (#[trigger] self.edges@[i]).from < self.nodes.len()
                && self.edges@[i].to < self.nodes.len()
        &&& forall|j: int|
            0 <= j < self.subgraphs.len() ==> ((#[trigger] self.subgraphs@[j]).parent matches Some(
                p,
            ) ==> p < j)
    }

    /// Structural invariant of a parsed graph: its shape is sound and no two
    /// real nodes share a name.
    pub open spec fn wf(&self) -> bool {
        &&& self.shape_ok()
        &&& forall|i: int, j: int|
            0 <= i < self.nodes.len() && 0 <= j < self.nodes.len() && !self.nodes@[i].is_dummy
                && !self.nodes@[j].is_dummy && #[trigger] self.nodes@[i].name@
                == #[trigger] self.nodes@[j].name@ ==> i == j
    }

    pub fn new() -> (g: Self)
        ensures
            g.nodes.len() == 0,
            g.edges.len() == 0,
            g.subgraphs.len() == 0,
            g.class_defs.len() == 0,
            g.dir == Direction::TD,
            g.wf(),
    {
        Graph {
            nodes: Vec::new(),
            edges: Vec::new(),
            dir: Direction::TD,
            subgraphs: Vec::new(),
            class_defs: Vec::new(),
        }
    }

    /// The real node named `name`, if there is one.
    pub fn id_of(&self, name: &String) -> (r: Option<NodeId>)
        ensures
            r matches Some(i) ==> find_named(self.nodes@, name@, 0) == Some(i as int),
            r is None ==> find_named(self.nodes@, name@, 0) is None,
    {
        let mut i: usize = 0;
        while i < self.nodes.len()
            invariant
                i <= self.nodes.len(),
                find_named(self.nodes@, name@, 0) == find_named(self.nodes@, name@, i as int),
            decreases self.nodes.len() - i,
        {
            if !self.nodes[i].is_dummy && self.nodes[i].name == *name {
                return Some(i);
            }
            i += 1;
        }
        None
    }

    /// Adds the node `name`, or returns the existing one. An existing node
    /// whose label is still its bare name takes the new label and shape when
    /// the new label has any text.
    pub fn add_node(&mut self, name: &str, label_lines: Vec<String>, shape: Shape) -> (id: NodeId)
        requires
            old(self).wf(),
        ensures
            final(self).wf(),
            final(self).edges@ == old(self).edges@,
            final(self).subgraphs@ == old(self).subgraphs@,
            final(self).class_defs@ == old(self).class_defs@,
            final(self).dir == old(self).dir,
            find_named(final(self).nodes@, name@, 0) == Some(id as int),
            match find_named(old(self).nodes@, name@, 0) {
                Some(old_id) => {
                    let n = old(self).nodes@[old_id];
                    let relabel = !all_empty(lines_view(label_lines@)) && n.label_lines.len() == 1
                        && n.label_lines@[0]@ == n.name@;
                    &&& id == old_id
                    &&& final(self).nodes.len() == old(self).nodes.len()
                    &&& forall|i: int|
                        0 <= i < old(self).nodes.len() && i != id ==> final(self).nodes@[i]
                            == old(self).nodes@[i]
                    &&& final(self).nodes@[old_id] == (if relabel {
                        Node { label_lines: label_lines, shape: shape, ..n }
                    } else {
                        n
                    })
                },
                None => {
                    &&& id == old(self).nodes.len()
                    &&& final(self).nodes@.drop_last() == old(self).nodes@
                    &&& fresh_node(
                        final(self).nodes@.last(),
                        id,
                        name@,
                        if all_empty(lines_view(label_lines@)) {
                            seq![name@]
                        } else {
                            lines_view(label_lines@)
                        },
                        shape,
                    )
                },
            },
    {
        let name_s = String::from_str(name);
        let found = self.id_of(&name_s);
        let has_real_label = !all_lines_empty(&label_lines);
        match found {
            Some(id) => {
                proof {
                    lemma_find_named_some(self.nodes@, name@, 0);
                }
                let relabel = has_real_label && self.nodes[id].label_lines.len() == 1
                    && self.nodes[id].label_lines[0] == self.nodes[id].name;
                if relabel {
                    let ghost old_nodes = self.nodes@;
                    let mut n = self.nodes.remove(id);
                    n.label_lines = label_lines;
                    n.shape = shape;
                    self.nodes.insert(id, n);
                    proof {
                        assert forall|i: int|
                            0 <= i < old_nodes.len() && i != id implies self.nodes@[i]
                            == old_nodes[i] by {}
                        assert forall|i: int, j: int|
                            0 <= i < self.nodes.len() && 0 <= j < self.nodes.len()
                                && !self.nodes@[i].is_dummy && !self.nodes@[j].is_dummy
                                && #[trigger] self.nodes@[i].name@
                                == #[trigger] self.nodes@[j].name@ implies i == j by {
                            assert(self.nodes@[i].name@ == old_nodes[i].name@);
                            assert(self.nodes@[j].name@ == old_nodes[j].name@);
                        }
                        lemma_find_named_same(old_nodes, self.nodes@, name@, 0);
                    }
                }
                id
            },
            None => {
                let id = self.nodes.len();
                let label_lines = if !has_real_label {
                    let mut v: Vec<String> = Vec::new();
                    v.push(String::from_str(name));
                    proof {
                        assert(lines_view(v@) == seq![name@]);
                    }
                    v
                } else {
                    label_lines
                };
                let ghost old_nodes = self.nodes@;
                self.nodes.push(
                    Node {
                        id,
                        name: name_s,
                        label_lines,
                        is_dummy: false,
                        shape,
                        width: 0,
                        height: 0,
                        x: 0,
                        y: 0,
                        style: Style::new(),
                        subgraph: None,
                    },
                );
                proof {
                    assert(self.nodes@.drop_last() == old_nodes);
                    lemma_find_named_none_push(old_nodes, self.nodes@, name@, 0);
                    assert forall|i: int, j: int|
                        0 <= i < self.nodes.len() && 0 <= j < self.nodes.len()
                            && !self.nodes@[i].is_dummy && !self.nodes@[j].is_dummy
                            && #[trigger] self.nodes@[i].name@ == #[trigger] self.nodes@[j].name@ implies i
                        == j by {
                        if i < id && j == id {
                            lemma_find_named_none(old_nodes, name@, 0, i);
                        }
                        if j < id && i == id {
                            lemma_find_named_none(old_nodes, name@, 0, j);
                        }
                    }
                }
                id
            },
        }
    }

    /// Is `node` a member of `sid` (directly or via a nested parent)?
    pub fn node_in_subgraph(&self, node: NodeId, sid: SubgraphId) -> (r: bool)
        requires
            self.shape_ok(),
            node < self.nodes.len(),
        ensures
            r == in_chain(self.subgraphs@, self.nodes@[node as int].subgraph, sid),
    {
        let mut cur = self.nodes[node].subgraph;
        while cur.is_some()
            invariant
                self.shape_ok(),
                cur matches Some(s) ==> s < self.subgraphs.len(),
                in_chain(self.subgraphs@, self.nodes@[node as int].subgraph, sid) == in_chain(
                    self.subgraphs@,
                    cur,
                    sid,
                ),
            decreases (match cur {
                Some(s) => s + 1,
                None => 0,
            }),
        {
            let s = cur.unwrap();
            if s == sid {
                return true;
            }
            cur = self.subgraphs[s].parent;
        }
        false
    }

    pub fn add_edge(
        &mut self,
        from: NodeId,
        to: NodeId,
        label: Option<String>,
        style: EdgeStyle,
        tip_fwd: ArrowTip,
        tip_back: bool,
        length: usize,
    )
        requires
            old(self).wf(),
            from < old(self).nodes.len(),
            to < old(self).nodes.len(),
        ensures
            final(self).wf(),
            final(self).nodes@ == old(self).nodes@,
            final(self).subgraphs@ == old(self).subgraphs@,
            final(self).class_defs@ == old(self).class_defs@,
            final(self).dir == old(self).dir,
            final(self).edges@.drop_last() == old(self).edges@,
            final(self).edges@.len() == old(self).edges@.len() + 1,
            ({
                let e = final(self).edges@.last();
                &&& e.from == from && e.to == to
                &&& opt_view(e.label) == opt_view(label)
                &&& e.style == style && e.tip_fwd == tip_fwd && e.tip_back == tip_back
                &&& e.length == if length >= 1 {
                    length
                } else {
                    1
                }
            }),
    {
        let length = if length >= 1 {
            length
        } else {
            1
        };
        self.edges.push(Edge { from, to, label, style, tip_fwd, tip_back, length });
        proof {
            assert(self.edges@.drop_last() == old(self).edges@);
            assert forall|i: int| 0 <= i < self.edges.len() implies (#[trigger] self.edges@[i]).from
                < self.nodes.len() && self.edges@[i].to < self.nodes.len() by {
                if i < old(self).edges.len() {
                    assert(self.edges@[i] == old(self).edges@[i]);
                }
            }
        }
    }
}

fn all_lines_empty(v: &Vec<String>) -> (r: bool)
    ensures
        r == all_empty(lines_view(v@)),
{
    let mut i: usize = 0;
    while i < v.len()
        invariant
            i <= v.len(),
            forall|k: int| 0 <= k < i ==> (#[trigger] v@[k])@.len() == 0,
        decreases v.len() - i,
    {
        if crate::text::char_count(&v[i]) != 0 {
            assert(lines_view(v@)[i as int].len() != 0);
            return false;
        }
        i += 1;
    }
    assert forall|k: int| 0 <= k < lines_view(v@).len() implies #[trigger] lines_view(
        v@,
    )[k].len() == 0 by {
        assert(v@[k]@.len() == 0);
    }
    true
}

proof fn lemma_find_named_same(a: Seq<Node>, b: Seq<Node>, name: Seq<char>, i: int)
    requires
        a.len() == b.len(),
        forall|k: int| 0 <= k < a.len() ==> a[k].is_dummy == b[k].is_dummy && a[k].name@ == b[k].name@,
    ensures
        find_named(a, name, i) == find_named(b, name, i),
    decreases a.len() - i,
{
    if 0 <= i < a.len() {
        lemma_find_named_same(a, b, name, i + 1);
    }
}

pub proof fn lemma_find_named_some(a: Seq<Node>, name: Seq<char>, i: int)
    ensures
        find_named(a, name, i) matches Some(k) ==> i <= k < a.len() && !a[k].is_dummy && a[k].name@
            == name,
    decreases a.len() - i,
{
    if 0 <= i < a.len() {
        lemma_find_named_some(a, name, i + 1);
    }
}

pub proof fn lemma_find_named_none(a: Seq<Node>, name: Seq<char>, i: int, k: int)
    requires
        find_named(a, name, i) is None,
        0 <= i <= k < a.len(),
    ensures
        a[k].is_dummy || a[k].name@ != name,
    decreases k - i,
{
    if i < k {
        lemma_find_named_none(a, name, i + 1, k);
    }
}

proof fn lemma_find_named_none_push(a: Seq<Node>, b: Seq<Node>, name: Seq<char>, i: int)
    requires
        find_named(a, name, i) is None,
        b.len() == a.len() + 1,
        b.drop_last() == a,
        !b.last().is_dummy,
        b.last().name@ == name,
        0 <= i <= a.len(),
    ensures
        find_named(b, name, i) == Some(a.len() as int),
    decreases a.len() - i,
{
    if i < a.len() {
        assert(b[i] == a[i]);
        lemma_find_named_none_push(a, b, name, i + 1);
    }
}

impl Default for Direction {
    fn default() -> (d: Self)
        ensures
            d == Direction::TD,
    {
        Direction::TD
    }
}

impl Default for Shape {
    fn default() -> (s: Self)
        ensures
            s == Shape::Round,
    {
        Shape::Round
    }
}

impl Default for EdgeStyle {
    fn default() -> (s: Self)
        ensures
            s == EdgeStyle::Normal,
    {
        EdgeStyle::Normal
    }
}

impl Default for ArrowTip {
    fn default() -> (t: Self)
        ensures
            t == ArrowTip::Arrow,
    {
        ArrowTip::Arrow
    }
}

impl Default for Graph {
    fn default() -> (g: Self)
        ensures
            g.nodes.len() == 0,
            g.edges.len() == 0,
            g.subgraphs.len() == 0,
            g.class_defs.len() == 0,
            g.dir == Direction::TD,
            g.wf(),
    {
        Graph::new()
    }
}

} // verus!
