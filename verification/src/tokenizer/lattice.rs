//! Lattice of the words of a sentence, searched for the cheapest path (Viterbi).
use vstd::prelude::*;

use crate::common::BOS_EOS_CONNECTION_ID;
use crate::dictionary::connector::{Connector, ConnectorCost, ConnectorWrapper};
use crate::dictionary::lexicon::param::WordParam;
use crate::dictionary::word_idx::WordIdx;
use crate::dictionary::mapper::{count_lefts, count_rights, ConnIdCounter};
use crate::dictionary::LexType;

verus! {

/// Bound on the cost of one step: a connection cost and a word cost.
pub open spec fn step_bound() -> int {
    0x8000_8000
}

/// A word in the lattice, with the cheapest way to reach it from BOS.
#[derive(Clone, Copy, Debug, PartialEq, Eq, Structural)]
pub struct Node {
    /// The word's id in its lexicon.
    pub word_id: u32,
    /// The word's lexicon.
    pub lex_type: LexType,
    /// Position where the preceding words end (before skipped spaces).
    pub start_node: usize,
    /// Position where the word starts.
    pub start_word: usize,
    /// Left connection id.
    pub left_id: u16,
    /// Right connection id.
    pub right_id: u16,
    /// Cost of the word.
    pub word_cost: i16,
    /// Index, among the nodes ending at `start_node`, of the best preceding node.
    pub min_idx: usize,
    /// Cost of the cheapest path from BOS through this node.
    pub min_cost: i64,
}

impl Node {
    /// The word's index.
    pub fn word_idx(&self) -> (r: WordIdx)
        ensures
            r.lex_type == self.lex_type,
            r.word_id == self.word_id,
    {
        WordIdx::new(self.lex_type, self.word_id)
    }

    /// Whether the node is reached from BOS.
    pub fn is_connected_to_bos(&self) -> (r: bool)
        ensures
            r == (self.min_cost != i64::MAX),
    {
        self.min_cost != i64::MAX
    }
}

/// The connection cost of a right id followed by a left id.
pub open spec fn conn(c: ConnectorWrapper, r: u16, l: u16) -> int {
    c.cost_of(r as int, l as int)
}

/// The cost of reaching a node with left id `l` from node `j` of `ends[s]`.
pub open spec fn cand(ends: Seq<Seq<Node>>, c: ConnectorWrapper, s: int, j: int, l: u16) -> int {
    ends[s][j].min_cost + conn(c, ends[s][j].right_id, l)
}

/// `idx` is the last node of `ends[s]` with the cheapest cost to left id `l`.
pub open spec fn best_idx(ends: Seq<Seq<Node>>, c: ConnectorWrapper, s: int, idx: int, l: u16) -> bool {
    &&& 0 <= idx < ends[s].len()
    &&& forall|j: int| 0 <= j < ends[s].len() ==> #[trigger] cand(ends, c, s, j, l) >= cand(ends, c, s, idx, l)
    &&& forall|j: int| idx < j < ends[s].len() ==> #[trigger] cand(ends, c, s, j, l) > cand(ends, c, s, idx, l)
}

/// `best_idx` and `cand` depend only on the nodes ending at `s`.
pub proof fn lemma_frame(a: Seq<Seq<Node>>, b: Seq<Seq<Node>>, c: ConnectorWrapper, s: int, idx: int, l: u16)
    requires
        0 <= s < a.len(),
        0 <= s < b.len(),
        a[s] == b[s],
    ensures
        best_idx(a, c, s, idx, l) == best_idx(b, c, s, idx, l),
        cand(a, c, s, idx, l) == cand(b, c, s, idx, l),
{
    assert forall|j: int| 0 <= j < a[s].len() implies #[trigger] cand(a, c, s, j, l) == cand(b, c, s, j, l) by {
        assert(a[s][j] == b[s][j]);
    }
    if best_idx(a, c, s, idx, l) {
        assert forall|j: int| 0 <= j < b[s].len() implies #[trigger] cand(b, c, s, j, l) >= cand(b, c, s, idx, l) by {
            assert(cand(a, c, s, j, l) == cand(b, c, s, j, l));
        }
        assert forall|j: int| idx < j < b[s].len() implies #[trigger] cand(b, c, s, j, l) > cand(b, c, s, idx, l) by {
            assert(cand(a, c, s, j, l) == cand(b, c, s, j, l));
        }
    }
    if best_idx(b, c, s, idx, l) {
        assert forall|j: int| 0 <= j < a[s].len() implies #[trigger] cand(a, c, s, j, l) >= cand(a, c, s, idx, l) by {
            assert(cand(a, c, s, j, l) == cand(b, c, s, j, l));
        }
        assert forall|j: int| idx < j < a[s].len() implies #[trigger] cand(a, c, s, j, l) > cand(a, c, s, idx, l) by {
            assert(cand(a, c, s, j, l) == cand(b, c, s, j, l));
        }
    }
}

/// A node ending at `e` holds the cheapest way to reach it.
pub open spec fn node_ok(ends: Seq<Seq<Node>>, c: ConnectorWrapper, n: Node, e: int) -> bool {
    &&& 0 <= n.start_node < e
    &&& n.start_node <= n.start_word < e
    &&& best_idx(ends, c, n.start_node as int, n.min_idx as int, n.left_id)
    &&& n.min_cost == cand(ends, c, n.start_node as int, n.min_idx as int, n.left_id) + n.word_cost
}

/// The BOS node.
pub open spec fn is_bos(n: Node) -> bool {
    n.right_id == BOS_EOS_CONNECTION_ID && n.min_cost == 0
}

/// The connection ids of a node are within the connector.
pub open spec fn ids_ok(c: ConnectorWrapper, n: Node) -> bool {
    (n.left_id as int) < c.left_len() && (n.right_id as int) < c.right_len()
}

/// The lattice up to position `cur`: BOS alone at 0; every other node ends after
/// its start, holds its cheapest cost, starts at or before `cur`, has connection
/// ids within the connector, and a cost within the bound of its position.
pub open spec fn lattice_ok(ends: Seq<Seq<Node>>, c: ConnectorWrapper, cur: int) -> bool {
    &&& ends.len() >= 1
    &&& ends[0].len() == 1
    &&& is_bos(ends[0][0])
    &&& (ends[0][0].right_id as int) < c.right_len()
    &&& forall|e: int, i: int|
        1 <= e < ends.len() && 0 <= i < ends[e].len() ==> {
            let n = #[trigger] ends[e][i];
            &&& node_ok(ends, c, n, e)
            &&& n.start_node <= cur
            &&& ids_ok(c, n)
        }
    &&& forall|e: int, i: int|
        0 <= e < ends.len() && 0 <= i < ends[e].len() ==> -e * step_bound() <= (#[trigger] ends[e][i]).min_cost
            <= e * step_bound()
}

/// The lattice invariant up to a position holds up to any later one.
pub proof fn lemma_lattice_later(ends: Seq<Seq<Node>>, c: ConnectorWrapper, a: int, b: int)
    requires
        lattice_ok(ends, c, a),
        a <= b,
    ensures
        lattice_ok(ends, c, b),
{
}

/// A path of the lattice from BOS: pairs of position and index, each node starting
/// where the previous one's position is.
pub open spec fn path_ok(ends: Seq<Seq<Node>>, p: Seq<(int, int)>) -> bool {
    &&& p.len() >= 1
    &&& p[0] == (0int, 0int)
    &&& forall|k: int|
        0 <= k < p.len() ==> 0 <= (#[trigger] p[k]).0 < ends.len() && 0 <= p[k].1 < ends[p[k].0].len()
    &&& forall|k: int|
        1 <= k < p.len() ==> (#[trigger] p[k]).0 >= 1 && ends[p[k].0][p[k].1].start_node == p[k - 1].0
}

/// The cost of a path: connection costs between its nodes plus their word costs.
pub open spec fn path_cost(ends: Seq<Seq<Node>>, c: ConnectorWrapper, p: Seq<(int, int)>) -> int
    decreases p.len(),
{
    if p.len() <= 1 {
        0
    } else {
        let a = ends[p[p.len() - 2].0][p[p.len() - 2].1];
        let b = ends[p.last().0][p.last().1];
        path_cost(ends, c, p.drop_last()) + conn(c, a.right_id, b.left_id) + b.word_cost
    }
}

/// The path that follows the best preceding nodes back from node `i` at `e`.
pub open spec fn back_path(ends: Seq<Seq<Node>>, e: int, i: int) -> Seq<(int, int)>
    decreases e,
{
    if e <= 0 || !(0 <= i < ends[e].len()) || ends[e][i].start_node >= e {
        seq![(0int, 0int)]
    } else {
        let n = ends[e][i];
        back_path(ends, n.start_node as int, n.min_idx as int).push((e, i))
    }
}

/// No path to a node is cheaper than its cost.
pub proof fn lemma_path_cost_bound(ends: Seq<Seq<Node>>, c: ConnectorWrapper, cur: int, p: Seq<(int, int)>)
    requires
        lattice_ok(ends, c, cur),
        path_ok(ends, p),
    ensures
        path_cost(ends, c, p) >= ends[p.last().0][p.last().1].min_cost,
    decreases p.len(),
{
    if p.len() <= 1 {
    } else {
        let q = p.drop_last();
        assert(path_ok(ends, q)) by {
            assert forall|k: int| 0 <= k < q.len() implies 0 <= (#[trigger] q[k]).0 < ends.len() && 0
                <= q[k].1 < ends[q[k].0].len() by {
                assert(q[k] == p[k]);
            }
            assert forall|k: int| 1 <= k < q.len() implies (#[trigger] q[k]).0 >= 1 && ends[q[k].0][q[k].1].start_node
                == q[k - 1].0 by {
                assert(q[k] == p[k]);
                assert(q[k - 1] == p[k - 1]);
            }
        }
        lemma_path_cost_bound(ends, c, cur, q);
        let k = p.len() - 1;
        let (e, i) = p[k];
        let (s, j) = p[k - 1];
        assert(ends[e][i].start_node == s);
        assert(e >= 1);
        let n = ends[e][i];
        assert(node_ok(ends, c, n, e));
        assert(cand(ends, c, s, j, n.left_id) >= cand(ends, c, s, n.min_idx as int, n.left_id));
    }
}

/// The path back from a node costs exactly the node's cost.
pub proof fn lemma_back_path(ends: Seq<Seq<Node>>, c: ConnectorWrapper, cur: int, e: int, i: int)
    requires
        lattice_ok(ends, c, cur),
        0 <= e < ends.len(),
        0 <= i < ends[e].len(),
    ensures
        path_ok(ends, back_path(ends, e, i)),
        back_path(ends, e, i).last() == (e, i),
        path_cost(ends, c, back_path(ends, e, i)) == ends[e][i].min_cost,
    decreases e,
{
    if e == 0 {
        assert(i == 0);
        assert(back_path(ends, e, i) == seq![(0int, 0int)]);
    } else {
        let n = ends[e][i];
        assert(node_ok(ends, c, n, e));
        let s = n.start_node as int;
        let j = n.min_idx as int;
        lemma_back_path(ends, c, cur, s, j);
        let q = back_path(ends, s, j);
        let p = q.push((e, i));
        assert(back_path(ends, e, i) == p);
        assert(p.drop_last() =~= q);
        assert forall|k: int| 0 <= k < p.len() implies 0 <= (#[trigger] p[k]).0 < ends.len() && 0 <= p[k].1
            < ends[p[k].0].len() by {
            if k < q.len() {
                assert(p[k] == q[k]);
            }
        }
        assert forall|k: int| 1 <= k < p.len() implies (#[trigger] p[k]).0 >= 1 && ends[p[k].0][p[k].1].start_node
            == p[k - 1].0 by {
            if k < q.len() {
                assert(p[k] == q[k]);
                assert(p[k - 1] == q[k - 1]);
            } else {
                assert(p[k - 1] == q.last());
            }
        }
        assert(p[p.len() - 2] == q.last());
    }
}

/// EOS holds the cheapest way to reach the end from the nodes ending at its start.
pub open spec fn eos_ok(ends: Seq<Seq<Node>>, c: ConnectorWrapper, eos: Node) -> bool {
    &&& 0 <= eos.start_node < ends.len()
    &&& eos.left_id == BOS_EOS_CONNECTION_ID
    &&& best_idx(ends, c, eos.start_node as int, eos.min_idx as int, BOS_EOS_CONNECTION_ID)
    &&& eos.min_cost == cand(ends, c, eos.start_node as int, eos.min_idx as int, BOS_EOS_CONNECTION_ID)
}

/// The nodes of the path back from node `i` at `e`, with their end positions,
/// last node first, without BOS.
pub open spec fn top_seq(ends: Seq<Seq<Node>>, e: int, i: int) -> Seq<(usize, Node)>
    decreases e,
{
    if e <= 0 || !(0 <= i < ends[e].len()) || ends[e][i].start_node >= e {
        seq![]
    } else {
        let n = ends[e][i];
        seq![(e as usize, n)] + top_seq(ends, n.start_node as int, n.min_idx as int)
    }
}

/// The cost of a path followed by EOS.
pub open spec fn total_cost(ends: Seq<Seq<Node>>, c: ConnectorWrapper, p: Seq<(int, int)>) -> int {
    path_cost(ends, c, p) + conn(c, ends[p.last().0][p.last().1].right_id, BOS_EOS_CONNECTION_ID)
}

/// No path from BOS to EOS is cheaper than EOS's cost (Viterbi).
pub proof fn lemma_eos_optimal(
    ends: Seq<Seq<Node>>,
    c: ConnectorWrapper,
    cur: int,
    eos: Node,
    p: Seq<(int, int)>,
)
    requires
        lattice_ok(ends, c, cur),
        eos_ok(ends, c, eos),
        path_ok(ends, p),
        p.last().0 == eos.start_node,
    ensures
        total_cost(ends, c, p) >= eos.min_cost,
{
    lemma_path_cost_bound(ends, c, cur, p);
    let (s, j) = p.last();
    assert(0 <= j < ends[s].len()) by {
        assert(p[p.len() - 1] == p.last());
    }
    assert(cand(ends, c, s, j, BOS_EOS_CONNECTION_ID) >= cand(ends, c, s, eos.min_idx as int, BOS_EOS_CONNECTION_ID));
}

/// The path back from EOS's best node reaches EOS at exactly EOS's cost.
pub proof fn lemma_eos_attained(ends: Seq<Seq<Node>>, c: ConnectorWrapper, cur: int, eos: Node)
    requires
        lattice_ok(ends, c, cur),
        eos_ok(ends, c, eos),
    ensures
        ({
            let p = back_path(ends, eos.start_node as int, eos.min_idx as int);
            &&& path_ok(ends, p)
            &&& p.last() == (eos.start_node as int, eos.min_idx as int)
            &&& total_cost(ends, c, p) == eos.min_cost
        }),
{
    lemma_back_path(ends, c, cur, eos.start_node as int, eos.min_idx as int);
}

/// The nodes of the path back from a node, last first, are those of
/// [`back_path`] after BOS, in reverse.
pub proof fn lemma_top_seq(ends: Seq<Seq<Node>>, c: ConnectorWrapper, cur: int, e: int, i: int)
    requires
        lattice_ok(ends, c, cur),
        0 <= e < ends.len(),
        ends.len() <= usize::MAX,
        0 <= i < ends[e].len(),
    ensures
        top_seq(ends, e, i).len() == back_path(ends, e, i).len() - 1,
        forall|k: int|
            0 <= k < top_seq(ends, e, i).len() ==> {
                let q = back_path(ends, e, i)[back_path(ends, e, i).len() - 1 - k];
                &&& (#[trigger] top_seq(ends, e, i)[k]).0 as int == q.0
                &&& top_seq(ends, e, i)[k].1 == ends[q.0][q.1]
            },
    decreases e,
{
    if e > 0 {
        let n = ends[e][i];
        assert(node_ok(ends, c, n, e));
        lemma_top_seq(ends, c, cur, n.start_node as int, n.min_idx as int);
        lemma_back_path(ends, c, cur, n.start_node as int, n.min_idx as int);
        let t = top_seq(ends, n.start_node as int, n.min_idx as int);
        let b = back_path(ends, n.start_node as int, n.min_idx as int);
        assert(top_seq(ends, e, i) == seq![(e as usize, n)] + t);
        assert(back_path(ends, e, i) == b.push((e, i)));
        assert forall|k: int| 0 <= k < top_seq(ends, e, i).len() implies {
            let q = back_path(ends, e, i)[back_path(ends, e, i).len() - 1 - k];
            &&& (#[trigger] top_seq(ends, e, i)[k]).0 as int == q.0
            &&& top_seq(ends, e, i)[k].1 == ends[q.0][q.1]
        } by {
            if k == 0 {
                assert(top_seq(ends, e, i)[0] == (e as usize, n));
                assert(back_path(ends, e, i)[back_path(ends, e, i).len() - 1] == (e, i));
            } else {
                assert(top_seq(ends, e, i)[k] == t[k - 1]);
                assert(back_path(ends, e, i)[back_path(ends, e, i).len() - 1 - k] == b[b.len() - 1 - (k - 1)]);
            }
        }
    } else {
        assert(i == 0);
    }
}

/// The pairs of the left id of node `i` at `e` and the right id of each node
/// before it.
pub open spec fn node_edges(ends: Seq<Seq<Node>>, e: int, i: int) -> Seq<(u16, u16)> {
    let n = ends[e][i];
    let s = n.start_node as int;
    Seq::new(ends[s].len(), |j: int| (n.left_id, ends[s][j].right_id))
}

/// The pairs of the first `k` nodes at `e`, in order.
pub open spec fn pos_edges(ends: Seq<Seq<Node>>, e: int, k: int) -> Seq<(u16, u16)>
    decreases k,
{
    if k <= 0 {
        seq![]
    } else {
        pos_edges(ends, e, k - 1) + node_edges(ends, e, k - 1)
    }
}

/// The pairs of the nodes ending at the positions `1..e`, in order.
pub open spec fn lattice_edges(ends: Seq<Seq<Node>>, e: int) -> Seq<(u16, u16)>
    decreases e,
{
    if e <= 1 {
        seq![]
    } else {
        lattice_edges(ends, e - 1) + pos_edges(ends, e - 1, ends[e - 1].len() as int)
    }
}

/// The pairs of EOS and each node at the last position.
pub open spec fn eos_edges(ends: Seq<Seq<Node>>, len: int, eos: Node) -> Seq<(u16, u16)> {
    Seq::new(ends[len].len(), |j: int| (eos.left_id, ends[len][j].right_id))
}

/// The BOS node.
pub open spec fn bos_node() -> Node {
    Node {
        word_id: u32::MAX,
        lex_type: LexType::System,
        start_node: 0,
        start_word: 0,
        left_id: u16::MAX,
        right_id: BOS_EOS_CONNECTION_ID,
        word_cost: 0,
        min_idx: usize::MAX,
        min_cost: 0,
    }
}

/// Lattice of the words of a sentence: the nodes ending at each position.
pub struct Lattice {
    ends: Vec<Vec<Node>>,
    eos: Option<Node>,
    len_char: usize,
}

impl Lattice {
    /// The nodes ending at each position.
    pub closed spec fn ends_view(&self) -> Seq<Seq<Node>> {
        self.ends@.map_values(|v: Vec<Node>| v@)
    }

    /// The EOS node, once inserted.
    pub closed spec fn eos_view(&self) -> Option<Node> {
        self.eos
    }

    /// Number of characters of the sentence.
    pub closed spec fn len_view(&self) -> nat {
        self.len_char as nat
    }

    /// An empty lattice.
    pub fn new() -> (r: Self)
        ensures
            r.ends_view().len() == 0,
            r.eos_view() is None,
            r.len_view() == 0,
    {
        let r = Self { ends: Vec::new(), eos: None, len_char: 0 };
        assert(r.ends_view() =~= Seq::<Seq<Node>>::empty());
        r
    }

    /// Prepares the lattice for a sentence of `len_char` characters: only BOS, at
    /// position 0.
    pub fn reset(&mut self, len_char: usize, c: &ConnectorWrapper)
        requires
            len_char < usize::MAX,
            c.right_len() >= 1,
        ensures
            final(self).ends_view().len() == len_char + 1,
            final(self).len_view() == len_char,
            final(self).eos_view() is None,
            lattice_ok(final(self).ends_view(), *c, 0),
            final(self).ends_view()[0] == seq![bos_node()],
            forall|e: int| 1 <= e <= len_char ==> (#[trigger] final(self).ends_view()[e]).len() == 0,
    {
        let mut ends: Vec<Vec<Node>> = Vec::new();
        let mut k: usize = 0;
        while k <= len_char
            invariant
                k <= len_char + 1,
                len_char < usize::MAX,
                ends@.len() == k,
                forall|e: int| 0 <= e < k ==> (#[trigger] ends@[e])@.len() == 0,
            decreases len_char + 1 - k,
        {
            ends.push(Vec::new());
            k = k + 1;
        }
        let bos = Node {
            word_id: u32::MAX,
            lex_type: LexType::System,
            start_node: 0,
            start_word: 0,
            left_id: u16::MAX,
            right_id: BOS_EOS_CONNECTION_ID,
            word_cost: 0,
            min_idx: usize::MAX,
            min_cost: 0,
        };
        let mut first: Vec<Node> = Vec::new();
        first.push(bos);
        ends.set(0, first);
        self.ends = ends;
        self.eos = None;
        self.len_char = len_char;
        proof {
            let v = self.ends_view();
            assert(v[0] == seq![bos]);
            assert forall|e: int| 1 <= e <= len_char implies (#[trigger] v[e]).len() == 0 by {
                assert(v[e] == self.ends@[e]@);
            }
            assert forall|e: int, i: int| 0 <= e < v.len() && 0 <= i < v[e].len() implies -e * step_bound()
                <= (#[trigger] v[e][i]).min_cost <= e * step_bound() by {
                if e >= 1 {
                    assert(v[e].len() == 0);
                }
            }
        }
    }

    /// Number of characters of the sentence.
    pub fn len_char(&self) -> (r: usize)
        ensures
            r == self.len_view(),
    {
        self.len_char
    }

    /// Whether EOS has been inserted.
    pub fn has_eos(&self) -> (r: bool)
        ensures
            r == self.eos_view() is Some,
    {
        self.eos.is_some()
    }

    /// Whether some node ends at position `i`.
    pub fn has_previous_node(&self, i: usize) -> (r: bool)
        ensures
            r == (i < self.ends_view().len() && self.ends_view()[i as int].len() > 0),
    {
        if i < self.ends.len() {
            assert(self.ends_view()[i as int] == self.ends@[i as int]@);
            self.ends[i].len() > 0
        } else {
            false
        }
    }

    /// The node of `ends[s]` with the cheapest cost to left id `left_id`, the last
    /// of equals (as MeCab chooses), and that cost.
    fn search_min_node(&self, start_node: usize, left_id: u16, c: &ConnectorWrapper, cur: Ghost<int>) -> (r: (usize, i64))
        requires
            lattice_ok(self.ends_view(), *c, cur@),
            start_node < self.ends_view().len(),
            self.ends_view()[start_node as int].len() > 0,
            c.conn_wf(),
            (left_id as int) < c.left_len(),
            start_node <= 0x10000,
        ensures
            best_idx(self.ends_view(), *c, start_node as int, r.0 as int, left_id),
            r.1 == cand(self.ends_view(), *c, start_node as int, r.0 as int, left_id),
            -start_node * step_bound() - 0x8000_0000 <= r.1 <= start_node * step_bound() + 0x8000_0000,
    {
        let ghost ends = self.ends_view();
        let list = &self.ends[start_node];
        assert(list@ == ends[start_node as int]);
        let n = list.len();
        let mut min_idx: usize = 0;
        let mut min_cost: i64 = 0;
        let mut j: usize = 0;
        while j < n
            invariant
                j <= n == ends[start_node as int].len(),
                list@ == ends[start_node as int],
                lattice_ok(ends, *c, cur@),
                start_node < ends.len(),
                start_node <= 0x10000,
                c.conn_wf(),
                (left_id as int) < c.left_len(),
                j > 0 ==> min_idx < j && min_cost == cand(ends, *c, start_node as int, min_idx as int, left_id),
                j > 0 ==> -start_node * step_bound() - 0x8000_0000 <= min_cost <= start_node * step_bound()
                    + 0x8000_0000,
                forall|k: int| 0 <= k < j ==> #[trigger] cand(ends, *c, start_node as int, k, left_id)
                    >= cand(ends, *c, start_node as int, min_idx as int, left_id),
                forall|k: int| min_idx < k < j ==> #[trigger] cand(ends, *c, start_node as int, k, left_id)
                    > cand(ends, *c, start_node as int, min_idx as int, left_id),
            decreases n - j,
        {
            let node = &list[j];
            assert(*node == ends[start_node as int][j as int]);
            proof {
                if start_node == 0 {
                    assert(j == 0);
                } else {
                    assert(ids_ok(*c, ends[start_node as int][j as int]));
                }
            }
            let conn_cost = c.cost(node.right_id, left_id);
            proof {
                assert(-start_node * step_bound() <= node.min_cost <= start_node * step_bound());
                assert(start_node * step_bound() <= 0x10000 * 0x8000_8000) by (nonlinear_arith)
                    requires
                        start_node <= 0x10000,
                ;
            }
            let new_cost = node.min_cost + conn_cost as i64;
            if j == 0 || new_cost <= min_cost {
                min_idx = j;
                min_cost = new_cost;
            }
            j = j + 1;
        }
        (min_idx, min_cost)
    }

    /// Adds the word `start_word..end_word` after the nodes ending at `start_node`,
    /// linked to the cheapest of them.
    pub fn insert_node(
        &mut self,
        start_node: usize,
        start_word: usize,
        end_word: usize,
        word_idx: WordIdx,
        word_param: WordParam,
        c: &ConnectorWrapper,
        cur: Ghost<int>,
    )
        requires
            lattice_ok(old(self).ends_view(), *c, cur@),
            start_node == cur@,
            start_node <= start_word < end_word < old(self).ends_view().len(),
            end_word <= 0x10000,
            old(self).ends_view()[start_node as int].len() > 0,
            c.conn_wf(),
            (word_param.left_id as int) < c.left_len(),
            (word_param.right_id as int) < c.right_len(),
        ensures
            lattice_ok(final(self).ends_view(), *c, cur@),
            final(self).len_view() == old(self).len_view(),
            final(self).eos_view() == old(self).eos_view(),
            final(self).ends_view().len() == old(self).ends_view().len(),
            forall|e: int| 0 <= e < old(self).ends_view().len() && e != end_word ==> #[trigger] final(self).ends_view()[e] == old(self).ends_view()[e],
            final(self).ends_view()[end_word as int].len() == old(self).ends_view()[end_word as int].len() + 1,
            ({
                let n = final(self).ends_view()[end_word as int].last();
                &&& n.word_id == word_idx.word_id
                &&& n.lex_type == word_idx.lex_type
                &&& n.start_node == start_node
                &&& n.start_word == start_word
                &&& n.left_id == word_param.left_id
                &&& n.right_id == word_param.right_id
                &&& n.word_cost == word_param.word_cost
            }),
            forall|i: int| 0 <= i < old(self).ends_view()[end_word as int].len() ==> #[trigger] final(self).ends_view()[end_word as int][i] == old(self).ends_view()[end_word as int][i],
    {
        let ghost ends = self.ends_view();
        let (min_idx, min_cost) = self.search_min_node(start_node, word_param.left_id, c, cur);
        proof {
            assert(end_word * step_bound() >= start_node * step_bound() + step_bound()) by (nonlinear_arith)
                requires
                    start_node < end_word,
            ;
            assert(end_word * step_bound() <= 0x10000 * 0x8000_8000) by (nonlinear_arith)
                requires
                    end_word <= 0x10000,
            ;
        }
        let node = Node {
            word_id: word_idx.word_id,
            lex_type: word_idx.lex_type,
            start_node,
            start_word,
            left_id: word_param.left_id,
            right_id: word_param.right_id,
            word_cost: word_param.word_cost,
            min_idx,
            min_cost: min_cost + word_param.word_cost as i64,
        };
        let mut list: Vec<Node> = Vec::new();
        std::mem::swap(&mut list, &mut self.ends[end_word]);
        assert(list@ == ends[end_word as int]);
        list.push(node);
        self.ends.set(end_word, list);
        proof {
            let ne = self.ends_view();
            assert(ne =~= ends.update(end_word as int, ends[end_word as int].push(node)));
            assert(ne[start_node as int] == ends[start_node as int]);
            assert forall|e: int, i: int| 1 <= e < ne.len() && 0 <= i < ne[e].len() implies {
                let n = #[trigger] ne[e][i];
                &&& node_ok(ne, *c, n, e)
                &&& n.start_node <= cur@
                &&& ids_ok(*c, n)
            } by {
                let n = ne[e][i];
                if e == end_word && i == ends[e].len() {
                    assert(n == node);
                    lemma_frame(ends, ne, *c, start_node as int, min_idx as int, n.left_id);
                } else {
                    assert(n == ends[e][i]);
                    assert(node_ok(ends, *c, n, e));
                    assert(ne[n.start_node as int] == ends[n.start_node as int]);
                    lemma_frame(ends, ne, *c, n.start_node as int, n.min_idx as int, n.left_id);
                }
            }
            assert forall|e: int, i: int| 0 <= e < ne.len() && 0 <= i < ne[e].len() implies -e * step_bound()
                <= (#[trigger] ne[e][i]).min_cost <= e * step_bound() by {
                if e == end_word && i == ends[e].len() {
                    assert(ne[e][i] == node);
                } else {
                    assert(ne[e][i] == ends[e][i]);
                }
            }
        }
    }

    /// Adds EOS after the nodes ending at `start_node`, linked to the cheapest of
    /// them.
    pub fn insert_eos(&mut self, start_node: usize, c: &ConnectorWrapper, cur: Ghost<int>)
        requires
            lattice_ok(old(self).ends_view(), *c, cur@),
            start_node < old(self).ends_view().len(),
            start_node <= 0x10000,
            old(self).ends_view()[start_node as int].len() > 0,
            c.conn_wf(),
            c.left_len() >= 1,
        ensures
            final(self).ends_view() == old(self).ends_view(),
            final(self).len_view() == old(self).len_view(),
            final(self).eos_view() matches Some(eos) && eos_ok(final(self).ends_view(), *c, eos)
                && eos.start_node == start_node,
    {
        let (min_idx, min_cost) = self.search_min_node(start_node, BOS_EOS_CONNECTION_ID, c, cur);
        self.eos = Some(
            Node {
                word_id: u32::MAX,
                lex_type: LexType::System,
                start_node,
                start_word: self.len_char,
                left_id: BOS_EOS_CONNECTION_ID,
                right_id: u16::MAX,
                word_cost: 0,
                min_idx,
                min_cost,
            },
        );
    }

    /// Counts, for every node and every node before it, the left id of the first
    /// and the right id of the second; then for EOS and every node at the last
    /// position.
    pub fn add_connid_counts(&self, counter: &mut ConnIdCounter, c: &ConnectorWrapper, cur: Ghost<int>)
        requires
            lattice_ok(self.ends_view(), *c, cur@),
            self.ends_view().len() == self.len_view() + 1,
            self.len_view() < usize::MAX,
            self.eos_view() matches Some(eos) && (eos.left_id as int) < c.left_len(),
            old(counter).lid_counts().len() == c.left_len(),
            old(counter).rid_counts().len() == c.right_len(),
        ensures
            final(counter).lid_counts() == count_lefts(
                old(counter).lid_counts(),
                lattice_edges(self.ends_view(), (self.len_view() + 1) as int) + eos_edges(
                    self.ends_view(),
                    self.len_view() as int,
                    self.eos_view()->0,
                ),
            ),
            final(counter).rid_counts() == count_rights(
                old(counter).rid_counts(),
                lattice_edges(self.ends_view(), (self.len_view() + 1) as int) + eos_edges(
                    self.ends_view(),
                    self.len_view() as int,
                    self.eos_view()->0,
                ),
            ),
    {
        let ghost ends = self.ends_view();
        let ghost l0 = counter.lid_counts();
        let ghost r0 = counter.rid_counts();
        let len = self.len_char;
        let mut e: usize = 1;
        while e <= len
            invariant
                1 <= e <= len + 1,
                len < usize::MAX,
                len == self.len_view(),
                ends == self.ends_view(),
                ends.len() == len + 1,
                lattice_ok(ends, *c, cur@),
                counter.lid_counts().len() == c.left_len(),
                counter.rid_counts().len() == c.right_len(),
                counter.lid_counts() == count_lefts(l0, lattice_edges(ends, e as int)),
                counter.rid_counts() == count_rights(r0, lattice_edges(ends, e as int)),
            decreases len + 1 - e,
        {
            assert(self.ends@[e as int]@ == ends[e as int]);
            let m = self.ends[e].len();
            let mut i: usize = 0;
            while i < m
                invariant
                    1 <= e <= len,
                    i <= m == ends[e as int].len(),
                    len == self.len_view(),
                    ends == self.ends_view(),
                    ends.len() == len + 1,
                    lattice_ok(ends, *c, cur@),
                    counter.lid_counts().len() == c.left_len(),
                    counter.rid_counts().len() == c.right_len(),
                    counter.lid_counts() == count_lefts(
                        l0,
                        lattice_edges(ends, e as int) + pos_edges(ends, e as int, i as int),
                    ),
                    counter.rid_counts() == count_rights(
                        r0,
                        lattice_edges(ends, e as int) + pos_edges(ends, e as int, i as int),
                    ),
                decreases m - i,
            {
                assert(self.ends@[e as int]@ == ends[e as int]);
                let r_node = self.ends[e][i];
                assert(r_node == ends[e as int][i as int]);
                assert(node_ok(ends, *c, r_node, e as int));
                assert(ids_ok(*c, r_node));
                let s = r_node.start_node;
                assert(self.ends@[s as int]@ == ends[s as int]);
                let k = self.ends[s].len();
                let ghost base = lattice_edges(ends, e as int) + pos_edges(ends, e as int, i as int);
                let ghost ne = node_edges(ends, e as int, i as int);
                let mut j: usize = 0;
                while j < k
                    invariant
                        1 <= e <= len,
                        i < m == ends[e as int].len(),
                        j <= k == ends[s as int].len(),
                        s < e,
                        r_node == ends[e as int][i as int],
                        s == r_node.start_node,
                        ends == self.ends_view(),
                        ends.len() == len + 1,
                        lattice_ok(ends, *c, cur@),
                        ids_ok(*c, r_node),
                        ne == node_edges(ends, e as int, i as int),
                        counter.lid_counts().len() == c.left_len(),
                        counter.rid_counts().len() == c.right_len(),
                        counter.lid_counts() == count_lefts(l0, base + ne.take(j as int)),
                        counter.rid_counts() == count_rights(r0, base + ne.take(j as int)),
                    decreases k - j,
                {
                    assert(self.ends@[s as int]@ == ends[s as int]);
                    let l_node = self.ends[s][j];
                    assert(l_node == ends[s as int][j as int]);
                    proof {
                        if s == 0 {
                            assert(j == 0);
                        } else {
                            assert(ids_ok(*c, ends[s as int][j as int]));
                        }
                    }
                    counter.add_one(r_node.left_id, l_node.right_id);
                    proof {
                        let t = base + ne.take(j + 1);
                        assert(t.drop_last() =~= base + ne.take(j as int));
                        assert(t.last() == (r_node.left_id, l_node.right_id));
                    }
                    j = j + 1;
                }
                proof {
                    assert(ne.take(k as int) =~= ne);
                    assert(pos_edges(ends, e as int, i + 1) == pos_edges(ends, e as int, i as int) + ne);
                    assert(base + ne =~= lattice_edges(ends, e as int) + pos_edges(ends, e as int, i + 1));
                }
                i = i + 1;
            }
            proof {
                assert(lattice_edges(ends, e + 1) == lattice_edges(ends, e as int) + pos_edges(ends, e as int, m as int));
            }
            e = e + 1;
        }
        let eos = self.eos.as_ref().unwrap();
        let ghost base = lattice_edges(ends, len + 1);
        let ghost ee = eos_edges(ends, len as int, *eos);
        assert(self.ends@[len as int]@ == ends[len as int]);
        let k = self.ends[len].len();
        let mut j: usize = 0;
        while j < k
            invariant
                j <= k == ends[len as int].len(),
                len == self.len_view(),
                ends == self.ends_view(),
                ends.len() == len + 1,
                lattice_ok(ends, *c, cur@),
                (eos.left_id as int) < c.left_len(),
                ee == eos_edges(ends, len as int, *eos),
                counter.lid_counts().len() == c.left_len(),
                counter.rid_counts().len() == c.right_len(),
                counter.lid_counts() == count_lefts(l0, base + ee.take(j as int)),
                counter.rid_counts() == count_rights(r0, base + ee.take(j as int)),
            decreases k - j,
        {
            assert(self.ends@[len as int]@ == ends[len as int]);
            let l_node = self.ends[len][j];
            assert(l_node == ends[len as int][j as int]);
            proof {
                if len == 0 {
                    assert(j == 0);
                } else {
                    assert(ids_ok(*c, ends[len as int][j as int]));
                }
            }
            counter.add_one(eos.left_id, l_node.right_id);
            proof {
                let t = base + ee.take(j + 1);
                assert(t.drop_last() =~= base + ee.take(j as int));
                assert(t.last() == (eos.left_id, l_node.right_id));
            }
            j = j + 1;
        }
        assert(ee.take(k as int) =~= ee);
    }

    /// Appends the nodes of the cheapest path, from the last one back to the
    /// first, each with its end position.
    pub fn append_top_nodes(&self, top_nodes: &mut Vec<(usize, Node)>, c: &ConnectorWrapper, cur: Ghost<int>)
        requires
            lattice_ok(self.ends_view(), *c, cur@),
            self.eos_view() matches Some(eos) && eos_ok(self.ends_view(), *c, eos),
        ensures
            final(top_nodes)@ == old(top_nodes)@ + top_seq(
                self.ends_view(),
                self.eos_view()->0.start_node as int,
                self.eos_view()->0.min_idx as int,
            ),
    {
        let ghost ends = self.ends_view();
        let eos = self.eos.as_ref().unwrap();
        let mut end_node = eos.start_node;
        let mut min_idx = eos.min_idx;
        let ghost before = top_nodes@;
        let ghost e0 = end_node as int;
        let ghost i0 = min_idx as int;
        while end_node != 0
            invariant
                lattice_ok(ends, *c, cur@),
                ends == self.ends_view(),
                end_node < ends.len(),
                0 <= min_idx < ends[end_node as int].len(),
                before + top_seq(ends, e0, i0) == top_nodes@ + top_seq(ends, end_node as int, min_idx as int),
            decreases end_node,
        {
            assert(self.ends@[end_node as int]@ == ends[end_node as int]);
            let node = self.ends[end_node][min_idx];
            assert(node == ends[end_node as int][min_idx as int]);
            assert(node_ok(ends, *c, node, end_node as int));
            let ghost old_top = top_nodes@;
            top_nodes.push((end_node, node));
            assert(top_seq(ends, end_node as int, min_idx as int) == seq![(end_node, node)] + top_seq(
                ends,
                node.start_node as int,
                node.min_idx as int,
            ));
            assert(old_top + top_seq(ends, end_node as int, min_idx as int) =~= top_nodes@ + top_seq(
                ends,
                node.start_node as int,
                node.min_idx as int,
            ));
            end_node = node.start_node;
            min_idx = node.min_idx;
        }
        assert(top_seq(ends, 0, min_idx as int) =~= Seq::<(usize, Node)>::empty());
        assert(top_nodes@ =~= before + top_seq(ends, e0, i0));
    }
}

} // verus!
