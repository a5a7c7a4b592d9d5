//! One animated scalar channel: an ordered, uniquely-timed sequence of
//! nodes, with insertion, deletion, update and evaluation.

use vstd::prelude::*;

use crate::errors::TimelineError;
use crate::node::InterpType;
use crate::node::Node;

verus! {

/// Do the nodes stand in strictly increasing time order?  This also
/// means no two nodes share a time.
pub open spec fn strictly_ordered(nodes: Seq<Node>) -> bool {
    forall|i: int, j: int|
        0 <= i < j < nodes.len() ==> #[trigger] nodes[i].time < #[trigger] nodes[j].time
}

/// Is some node of the sequence keyed at time `t`?
pub open spec fn has_time(nodes: Seq<Node>, t: u32) -> bool {
    exists|i: int| 0 <= i < nodes.len() && nodes[i].time == t
}

/// The synthetic node every track is born with: time 0, a zero value
/// pattern, holding interpolation.
pub open spec fn zero_node() -> Node {
    Node { time: 0, value: 0, interp: InterpType::Hold }
}

/// Would inserting a node at this time be accepted?  Time 0 is
/// reserved and an occupied time is refused.
pub open spec fn spec_add_ok(pre: Seq<Node>, node: Node) -> bool {
    node.time != 0 && !has_time(pre, node.time)
}

/// The shape of a successful insertion: the node enters at the unique
/// position that keeps the times strictly increasing.
pub open spec fn spec_added(pre: Seq<Node>, node: Node, post: Seq<Node>) -> bool {
    exists|k: int|
        {
            &&& 0 <= k <= pre.len()
            &&& post == #[trigger] pre.insert(k, node)
            &&& forall|j: int| 0 <= j < k ==> pre[j].time < node.time
            &&& forall|j: int| k <= j < pre.len() ==> pre[j].time > node.time
        }
}

/// Would deleting the node at this time be accepted?  The time-0 node
/// is reserved and an unused time is refused.
pub open spec fn spec_del_ok(pre: Seq<Node>, time: u32) -> bool {
    time != 0 && has_time(pre, time)
}

/// The shape of a successful deletion: exactly the node at the named
/// time leaves.
pub open spec fn spec_removed(pre: Seq<Node>, time: u32, post: Seq<Node>) -> bool {
    exists|i: int|
        {
            &&& 1 <= i < pre.len()
            &&& pre[i].time == time
            &&& post == #[trigger] pre.remove(i)
        }
}

/// Would rewriting the node at `time` with `node` be accepted?  The
/// node must exist; a move may not touch the time-0 slot nor land on
/// an occupied time.
pub open spec fn spec_update_ok(pre: Seq<Node>, time: u32, node: Node) -> bool {
    has_time(pre, time) && (node.time == time || (time != 0 && node.time != 0 && !has_time(
        pre,
        node.time,
    )))
}

/// The shape of a successful rewrite: an overwrite in place when the
/// time is kept, otherwise a removal followed by an ordered
/// re-insertion.
pub open spec fn spec_updated(pre: Seq<Node>, time: u32, node: Node, post: Seq<Node>) -> bool {
    if node.time == time {
        exists|i: int|
            {
                &&& 0 <= i < pre.len()
                &&& pre[i].time == time
                &&& post == #[trigger] pre.update(i, node)
            }
    } else {
        exists|i: int, k: int|
            {
                &&& 1 <= i < pre.len()
                &&& pre[i].time == time
                &&& 0 <= k <= pre.len() - 1
                &&& post == #[trigger] pre.remove(i).insert(k, node)
            }
    }
}

/// Is a query `time` bracketed by a pair of adjacent stored nodes?
/// When it is not (the track holds a single node, or the time lies
/// beyond the last node), evaluation falls back to the last node's
/// value without extrapolating.
pub open spec fn in_span(nodes: Seq<Node>, time: u32) -> bool {
    nodes.len() >= 2 && time <= nodes.last().time
}

/// Is `i` the index of the right endpoint of the bracketing pair for
/// `time`: the first position at or after which the stored time
/// reaches the query time?
pub open spec fn is_span_index(nodes: Seq<Node>, time: u32, i: int) -> bool {
    &&& 1 <= i < nodes.len()
    &&& nodes[i].time >= time
    &&& (i == 1 || nodes[i - 1].time < time)
}

/// The index of the right endpoint of the bracketing pair for `time`.
pub open spec fn span_index(nodes: Seq<Node>, time: u32) -> int {
    choose|i: int| is_span_index(nodes, time, i)
}

/// In a strictly ordered track the bracketing position is unique, so
/// `span_index` returns exactly the witnessed position.
pub proof fn lemma_span_index_agrees(nodes: Seq<Node>, time: u32, i: int)
    requires
        strictly_ordered(nodes),
        is_span_index(nodes, time, i),
    ensures
        span_index(nodes, time) == i,
{
    assert(is_span_index(nodes, time, span_index(nodes, time))) by {
        assert(exists|j: int| is_span_index(nodes, time, j));
    }
    let k = span_index(nodes, time);
    if k < i {
        assert(nodes[k].time >= time);
        assert(k <= i - 1);
        assert(i != 1);
        assert(nodes[i - 1].time < time);
        assert(k < i - 1 ==> nodes[k].time < nodes[i - 1].time);
        assert(false);
    } else if k > i {
        assert(nodes[i].time >= time);
        assert(i <= k - 1);
        assert(k != 1);
        assert(nodes[k - 1].time < time);
        assert(i < k - 1 ==> nodes[i].time < nodes[k - 1].time);
        assert(false);
    }
}

/// What a track evaluates to at a query time: either exactly a stored
/// value pattern, or a proportional blend of the two bracketing value
/// patterns with the exact rational weight `num / den`.  The library
/// does no floating-point arithmetic itself, so the blend is handed to
/// the embedding host in this form.
#[derive(Clone, Copy, Debug, PartialEq, Eq, Structural)]
pub enum Sample {
    /// The result is exactly this stored value pattern.
    Constant { value: u64 },
    /// The result is `from`-value blended towards `to`-value by the
    /// weight `num / den`, with `0 < den` and `num <= den`.
    Blend { from: u64, to: u64, num: u32, den: u32 },
}

/// The evaluation of `nodes` at `time`: the first adjacent pair whose
/// times bracket the query decides, with the right endpoint's
/// interpolation mode; past the last node the last value holds.
pub open spec fn spec_value_at(nodes: Seq<Node>, time: u32) -> Sample
    recommends
        nodes.len() >= 1,
        nodes[0].time == 0,
        strictly_ordered(nodes),
{
    if !in_span(nodes, time) {
        Sample::Constant { value: nodes.last().value }
    } else {
        let i = span_index(nodes, time);
        let left = nodes[i - 1];
        let right = nodes[i];
        match right.interp {
            InterpType::Hold => Sample::Constant { value: left.value },
            InterpType::Linear => Sample::Blend {
                from: left.value,
                to: right.value,
                num: (time - left.time) as u32,
                den: (right.time - left.time) as u32,
            },
        }
    }
}

/// An ordered collection of nodes for one named channel.
pub struct Track {
    nodes: Vec<Node>,
    name: String,
}

impl Track {
    /// The track's name.
    pub closed spec fn spec_name(self) -> Seq<char> {
        self.name@
    }

    /// The track's nodes, in storage order.
    pub closed spec fn spec_nodes(self) -> Seq<Node> {
        self.nodes@
    }

    /// A track is well formed when it holds at least one node, its
    /// first node sits at time 0, and its nodes are strictly ordered
    /// by time.  Every constructor establishes this and every method
    /// preserves it.
    pub open spec fn wf(self) -> bool {
        &&& self.spec_nodes().len() >= 1
        &&& self.spec_nodes()[0].time == 0
        &&& strictly_ordered(self.spec_nodes())
    }

    /// Builds a track that holds exactly the synthetic zero node.
    pub(crate) fn new(name: &str) -> (t: Track)
        ensures
            t.wf(),
            t.spec_name() == name@,
            t.spec_nodes() =~= seq![zero_node()],
    {
        let mut nodes: Vec<Node> = Vec::new();
        nodes.push(Node::new(0, 0, InterpType::Hold));
        Track { nodes, name: name.to_owned() }
    }

    /// Reassembles a track from parts already known to be well formed;
    /// used when decoding a persisted timeline.
    pub(crate) fn from_parts(name: String, nodes: Vec<Node>) -> (t: Track)
        requires
            nodes@.len() >= 1,
            nodes@[0].time == 0,
            strictly_ordered(nodes@),
        ensures
            t.wf(),
            t.spec_name() == name@,
            t.spec_nodes() == nodes@,
    {
        Track { nodes, name }
    }

    /// Returns the track's name.
    pub fn get_name(&self) -> (r: &str)
        ensures
            r@ == self.spec_name(),
    {
        self.name.as_str()
    }

    /// Returns a read-only view of the node storage, in time order.
    pub fn nodes(&self) -> (r: &Vec<Node>)
        ensures
            r@ == self.spec_nodes(),
    {
        &self.nodes
    }

    /// Returns a copy of the node storage, in time order.
    pub fn view_nodes(&self) -> (r: Vec<Node>)
        ensures
            r@ == self.spec_nodes(),
    {
        self.nodes.clone()
    }

    /// Places `node` at position `index`, shifting later nodes right;
    /// appends when `index` is past the end.
    fn internal_add_node(&mut self, index: usize, node: &Node)
        requires
            index <= old(self).spec_nodes().len(),
        ensures
            final(self).spec_nodes() == old(self).spec_nodes().insert(index as int, *node),
            final(self).spec_name() == old(self).spec_name(),
    {
        if index >= self.nodes.len() {
            self.nodes.push(*node);
            proof {
                assert(self.spec_nodes() =~= old(self).spec_nodes().insert(index as int, *node));
            }
        } else {
            self.nodes.insert(index, *node);
        }
    }

    /// Inserts a copy of `node` at the position that keeps the track
    /// strictly ordered by time.  Time 0 is reserved for the synthetic
    /// zero node and always refused; a time already keyed is refused.
    /// On failure the track is unchanged.
    pub fn add_node(&mut self, node: &Node) -> (r: Option<TimelineError>)
        requires
            old(self).wf(),
        ensures
            final(self).wf(),
            final(self).spec_name() == old(self).spec_name(),
            node.time == 0 ==> r == Some(TimelineError::ZeroTimeForbidden),
            node.time != 0 && has_time(old(self).spec_nodes(), node.time) ==> r == Some(
                TimelineError::DuplicateTime,
            ),
            node.time != 0 && !has_time(old(self).spec_nodes(), node.time) ==> r is None,
            r is Some ==> *final(self) == *old(self),
            r is None ==> final(self).spec_nodes().len() == old(self).spec_nodes().len() + 1,
            r is None ==> exists|k: int|
                {
                    &&& 0 <= k <= old(self).spec_nodes().len()
                    &&& final(self).spec_nodes() == #[trigger] old(self).spec_nodes().insert(
                        k,
                        *node,
                    )
                    &&& forall|j: int|
                        0 <= j < k ==> old(self).spec_nodes()[j].time < node.time
                    &&& forall|j: int|
                        k <= j < old(self).spec_nodes().len() ==> old(
                            self,
                        ).spec_nodes()[j].time > node.time
                },
            r is None ==> forall|t2: u32|
                has_time(final(self).spec_nodes(), t2) <==> (has_time(
                    old(self).spec_nodes(),
                    t2,
                ) || t2 == node.time),
    {
        let time = node.get_time();
        if time == 0 {
            return Some(TimelineError::ZeroTimeForbidden);
        }
        let mut found: Option<usize> = None;
        let mut i: usize = 1;
        while i < self.nodes.len()
            invariant_except_break
                found is None,
            invariant
                *self == *old(self),
                self.wf(),
                time == node.time,
                time != 0,
                1 <= i <= self.spec_nodes().len(),
                forall|j: int| 0 <= j < i ==> self.spec_nodes()[j].time < time,
            ensures
                *self == *old(self),
                match found {
                    Some(k) => {
                        &&& 1 <= k < self.spec_nodes().len()
                        &&& forall|j: int| 0 <= j < k ==> self.spec_nodes()[j].time < time
                        &&& forall|j: int|
                            k <= j < self.spec_nodes().len() ==> self.spec_nodes()[j].time > time
                    },
                    None => forall|j: int|
                        0 <= j < self.spec_nodes().len() ==> self.spec_nodes()[j].time < time,
                },
            decreases self.nodes.len() - i,
        {
            let cur_time = self.nodes[i].get_time();
            if cur_time == time {
                return Some(TimelineError::DuplicateTime);
            }
            if cur_time > time {
                found = Some(i);
                proof {
                    assert(forall|j: int|
                        i <= j < self.spec_nodes().len() ==> self.spec_nodes()[j].time > time);
                }
                break ;
            }
            i += 1;
        }
        let index = match found {
            Some(k) => k,
            None => self.nodes.len(),
        };
        let ghost pre = self.spec_nodes();
        let ghost pos = index as int;
        self.internal_add_node(index, node);
        proof {
            let post = self.spec_nodes();
            pre.insert_ensures(pos, *node);
            assert(post == pre.insert(pos, *node));
            assert(post[pos] == *node);
            assert forall|a: int| 0 <= a < pos implies post[a] == pre[a] by {
                assert(pre.insert(pos, *node)[a] == pre[a]);
            }
            assert forall|b: int| pos < b < post.len() implies post[b] == pre[b - 1] by {
                assert(pre.insert(pos, *node)[b - 1 + 1] == pre[b - 1]);
            }
            assert forall|a: int, b: int| 0 <= a < b < post.len() implies post[a].time
                < post[b].time by {
                if a < pos && b < pos {
                } else if a < pos && b == pos {
                    assert(pre[a].time < time);
                } else if a == pos {
                    assert(post[b] == pre[b - 1]);
                    assert(pre[b - 1].time > time);
                } else if b == pos {
                    assert(post[a] == pre[a]);
                    assert(pre[a].time < time);
                } else if a > pos && b > pos {
                    assert(post[a] == pre[a - 1]);
                    assert(post[b] == pre[b - 1]);
                } else {
                    assert(post[a] == pre[a]);
                    assert(post[b] == pre[b - 1]);
                    if b - 1 == a {
                        assert(pre[a].time < time);
                        assert(pre[b - 1].time > time);
                    }
                }
            }
            assert(self.wf());
            assert forall|t2: u32|
                has_time(post, t2) <==> (has_time(pre, t2) || t2 == node.time) by {
                if has_time(post, t2) {
                    let w = choose|w: int| 0 <= w < post.len() && post[w].time == t2;
                    if w < pos {
                        assert(pre[w].time == t2);
                        assert(has_time(pre, t2));
                    } else if w > pos {
                        assert(post[w] == pre[w - 1]);
                        assert(has_time(pre, t2));
                    }
                }
                if has_time(pre, t2) {
                    let w = choose|w: int| 0 <= w < pre.len() && pre[w].time == t2;
                    if w < pos {
                        assert(post[w].time == t2);
                        assert(has_time(post, t2));
                    } else {
                        assert(post[w + 1] == pre[w]);
                        assert(has_time(post, t2));
                    }
                }
                if t2 == node.time {
                    assert(post[pos].time == t2);
                    assert(has_time(post, t2));
                }
            }
        }
        None
    }

    /// Returns the storage index of the node at exactly `time`, if any.
    fn internal_get_node_index_at(&self, time: u32) -> (r: Option<usize>)
        ensures
            match r {
                Some(i) => i < self.spec_nodes().len() && self.spec_nodes()[i as int].time == time,
                None => !has_time(self.spec_nodes(), time),
            },
    {
        let mut i: usize = 0;
        while i < self.nodes.len()
            invariant
                i <= self.spec_nodes().len(),
                forall|j: int| 0 <= j < i ==> self.spec_nodes()[j].time != time,
            decreases self.nodes.len() - i,
        {
            if self.nodes[i].get_time() == time {
                return Some(i);
            }
            i += 1;
        }
        None
    }

    /// Returns a borrow of the node at exactly `time`, if any.
    pub fn get_node_at(&self, time: u32) -> (r: Option<&Node>)
        ensures
            match r {
                Some(n) => {
                    &&& has_time(self.spec_nodes(), time)
                    &&& n.time == time
                    &&& exists|i: int|
                        0 <= i < self.spec_nodes().len() && self.spec_nodes()[i] == *n
                },
                None => !has_time(self.spec_nodes(), time),
            },
    {
        match self.internal_get_node_index_at(time) {
            Some(i) => Some(&self.nodes[i]),
            None => None,
        }
    }

    /// Returns a copy of the node at exactly `time`, if any.
    pub fn view_node_at(&self, time: u32) -> (r: Option<Node>)
        ensures
            match r {
                Some(n) => {
                    &&& has_time(self.spec_nodes(), time)
                    &&& n.time == time
                    &&& exists|i: int|
                        0 <= i < self.spec_nodes().len() && self.spec_nodes()[i] == n
                },
                None => !has_time(self.spec_nodes(), time),
            },
    {
        match self.internal_get_node_index_at(time) {
            Some(i) => Some(self.nodes[i]),
            None => None,
        }
    }

    /// Removes the node keyed at exactly `time`.  The synthetic time-0
    /// node is reserved and cannot be deleted, so that evaluation
    /// always has a node at or before every query time.  On failure
    /// the track is unchanged.
    pub fn del_node_at(&mut self, time: u32) -> (r: Option<TimelineError>)
        requires
            old(self).wf(),
        ensures
            final(self).wf(),
            final(self).spec_name() == old(self).spec_name(),
            r is Some ==> *final(self) == *old(self),
            time == 0 ==> r == Some(TimelineError::ZeroTimeForbidden),
            time != 0 && !has_time(old(self).spec_nodes(), time) ==> r == Some(
                TimelineError::NotFound,
            ),
            time != 0 && has_time(old(self).spec_nodes(), time) ==> r is None,
            r is None ==> final(self).spec_nodes().len() == old(self).spec_nodes().len() - 1,
            r is None ==> exists|i: int|
                {
                    &&& 1 <= i < old(self).spec_nodes().len()
                    &&& old(self).spec_nodes()[i].time == time
                    &&& final(self).spec_nodes() == #[trigger] old(self).spec_nodes().remove(i)
                },
            r is None ==> forall|t2: u32|
                has_time(final(self).spec_nodes(), t2) <==> (has_time(old(self).spec_nodes(), t2)
                    && t2 != time),
    {
        if time == 0 {
            return Some(TimelineError::ZeroTimeForbidden);
        }
        match self.internal_get_node_index_at(time) {
            Some(index) => {
                let ghost pre = self.spec_nodes();
                let ghost pos = index as int;
                self.nodes.remove(index);
                proof {
                    assert(pos >= 1) by {
                        assert(pre[0].time == 0);
                    }
                    let post = self.spec_nodes();
                    pre.remove_ensures(pos);
                    assert forall|a: int| 0 <= a < pos implies post[a] == pre[a] by {
                        assert(pre.remove(pos)[a] == pre[a]);
                    }
                    assert forall|a: int| pos <= a < post.len() implies post[a] == pre[a + 1] by {
                        assert(pre.remove(pos)[a] == pre[a + 1]);
                    }
                    assert(self.wf());
                    assert forall|t2: u32|
                        has_time(post, t2) <==> (has_time(pre, t2) && t2 != time) by {
                        if has_time(post, t2) {
                            let w = choose|w: int| 0 <= w < post.len() && post[w].time == t2;
                            if w < pos {
                                assert(pre[w].time == t2);
                                assert(has_time(pre, t2));
                                assert(w != pos ==> pre[w].time != pre[pos].time);
                            } else {
                                assert(pre[w + 1].time == t2);
                                assert(has_time(pre, t2));
                                assert(pre[w + 1].time > pre[pos].time);
                            }
                        }
                        if has_time(pre, t2) && t2 != time {
                            let w = choose|w: int| 0 <= w < pre.len() && pre[w].time == t2;
                            assert(w != pos);
                            if w < pos {
                                assert(post[w].time == t2);
                                assert(has_time(post, t2));
                            } else {
                                assert(post[w - 1].time == t2);
                                assert(has_time(post, t2));
                            }
                        }
                    }
                }
                None
            },
            None => Some(TimelineError::NotFound),
        }
    }

    /// Rewrites the node keyed at `time`.  If the replacement keeps
    /// the same time, the node is overwritten in place.  If the
    /// replacement moves the node, the move is validated first — the
    /// time-0 node cannot move, no node can move onto time 0 or onto
    /// an occupied time — and then performed by deletion and ordered
    /// re-insertion.  On failure the track is unchanged.
    pub fn update_node_at(&mut self, time: u32, node: &Node) -> (r: Option<TimelineError>)
        requires
            old(self).wf(),
        ensures
            final(self).wf(),
            final(self).spec_name() == old(self).spec_name(),
            r is Some ==> *final(self) == *old(self),
            !has_time(old(self).spec_nodes(), time) ==> r == Some(TimelineError::NotFound),
            has_time(old(self).spec_nodes(), time) && node.time != time && (time == 0
                || node.time == 0) ==> r == Some(TimelineError::ZeroTimeForbidden),
            has_time(old(self).spec_nodes(), time) && node.time != time && time != 0 && node.time
                != 0 && has_time(old(self).spec_nodes(), node.time) ==> r == Some(
                TimelineError::DuplicateTime,
            ),
            has_time(old(self).spec_nodes(), time) && (node.time == time || (time != 0 && node.time
                != 0 && !has_time(old(self).spec_nodes(), node.time))) ==> r is None,
            r is None ==> final(self).spec_nodes().len() == old(self).spec_nodes().len(),
            r is None && node.time == time ==> exists|i: int|
                {
                    &&& 0 <= i < old(self).spec_nodes().len()
                    &&& old(self).spec_nodes()[i].time == time
                    &&& final(self).spec_nodes() == #[trigger] old(self).spec_nodes().update(
                        i,
                        *node,
                    )
                },
            r is None && node.time == time ==> forall|j: int|
                0 <= j < old(self).spec_nodes().len() ==> final(self).spec_nodes()[j].time == old(
                    self,
                ).spec_nodes()[j].time,
            r is None && node.time != time ==> exists|i: int, k: int|
                {
                    &&& 1 <= i < old(self).spec_nodes().len()
                    &&& old(self).spec_nodes()[i].time == time
                    &&& 0 <= k <= old(self).spec_nodes().len() - 1
                    &&& final(self).spec_nodes() == #[trigger] old(self).spec_nodes().remove(
                        i,
                    ).insert(k, *node)
                },
            r is None ==> forall|t2: u32|
                has_time(final(self).spec_nodes(), t2) <==> ((has_time(old(self).spec_nodes(), t2)
                    && t2 != time) || t2 == node.time),
    {
        let node_time = node.get_time();
        match self.internal_get_node_index_at(time) {
            None => Some(TimelineError::NotFound),
            Some(index) => {
                if node_time == time {
                    let ghost pre = self.spec_nodes();
                    let ghost pos = index as int;
                    self.nodes.set(index, *node);
                    proof {
                        let post = self.spec_nodes();
                        assert forall|j: int| 0 <= j < pre.len() implies post[j].time
                            == pre[j].time by {
                            if j != pos {
                                assert(post[j] == pre[j]);
                            }
                        }
                        assert(self.wf());
                        assert forall|t2: u32|
                            has_time(post, t2) <==> ((has_time(pre, t2) && t2 != time) || t2
                                == node.time) by {
                            if has_time(post, t2) {
                                let w = choose|w: int| 0 <= w < post.len() && post[w].time == t2;
                                assert(pre[w].time == t2);
                                assert(has_time(pre, t2));
                            }
                            if has_time(pre, t2) {
                                let w = choose|w: int| 0 <= w < pre.len() && pre[w].time == t2;
                                assert(post[w].time == t2);
                                assert(has_time(post, t2));
                            }
                        }
                    }
                    None
                } else if time == 0 || node_time == 0 {
                    Some(TimelineError::ZeroTimeForbidden)
                } else {
                    match self.internal_get_node_index_at(node_time) {
                        Some(_occupied) => Some(TimelineError::DuplicateTime),
                        None => {
                            let ghost pre = self.spec_nodes();
                            let r1 = self.del_node_at(time);
                            let ghost mid = self.spec_nodes();
                            proof {
                                assert(r1 is None);
                                assert(!has_time(mid, node.time));
                            }
                            let r2 = self.add_node(node);
                            proof {
                                assert(r2 is None);
                                let i = choose|i: int|
                                    {
                                        &&& 1 <= i < pre.len()
                                        &&& pre[i].time == time
                                        &&& mid == #[trigger] pre.remove(i)
                                    };
                                let k = choose|k: int|
                                    {
                                        &&& 0 <= k <= mid.len()
                                        &&& self.spec_nodes() == #[trigger] mid.insert(k, *node)
                                        &&& forall|j: int| 0 <= j < k ==> mid[j].time < node.time
                                        &&& forall|j: int|
                                            k <= j < mid.len() ==> mid[j].time > node.time
                                    };
                                assert(self.spec_nodes() == pre.remove(i).insert(k, *node));
                            }
                            None
                        },
                    }
                }
            },
        }
    }

    /// Returns the bracketing pair for `time`: the first adjacent pair
    /// of stored nodes whose times surround the query, or the last
    /// node alone when the query lies beyond it.
    pub fn view_nodes_between(&self, time: u32) -> (r: (Node, Option<Node>))
        requires
            self.wf(),
        ensures
            in_span(self.spec_nodes(), time) ==> is_span_index(
                self.spec_nodes(),
                time,
                span_index(self.spec_nodes(), time),
            ),
            in_span(self.spec_nodes(), time) ==> {
                let i = span_index(self.spec_nodes(), time);
                r == (self.spec_nodes()[i - 1], Some(self.spec_nodes()[i]))
            },
            !in_span(self.spec_nodes(), time) ==> r == (
                self.spec_nodes().last(),
                None::<Node>,
            ),
    {
        let mut i: usize = 1;
        while i < self.nodes.len()
            invariant
                self.wf(),
                1 <= i <= self.spec_nodes().len(),
                forall|j: int| 1 <= j < i ==> self.spec_nodes()[j].time < time,
            decreases self.nodes.len() - i,
        {
            if self.nodes[i].get_time() >= time {
                proof {
                    lemma_span_index_agrees(self.spec_nodes(), time, i as int);
                    assert(self.spec_nodes()[i as int].time <= self.spec_nodes().last().time);
                }
                return (self.nodes[i - 1], Some(self.nodes[i]));
            }
            i += 1;
        }
        proof {
            if self.spec_nodes().len() >= 2 {
                assert(self.spec_nodes().last().time < time);
            }
        }
        (self.nodes[self.nodes.len() - 1], None)
    }

    /// Evaluates the track at `time`.  The result names the exact
    /// stored value pattern, or the exact blend — endpoints and
    /// rational weight — that the host is to perform; the weight is
    /// the query's normalized position inside the bracketing span.
    pub fn get_value_at(&self, time: u32) -> (r: Sample)
        requires
            self.wf(),
        ensures
            r == spec_value_at(self.spec_nodes(), time),
            r matches Sample::Blend { from, to, num, den } ==> 0 < den && num <= den,
    {
        let (left, right_opt) = self.view_nodes_between(time);
        match right_opt {
            None => Sample::Constant { value: left.get_value() },
            Some(right) => {
                proof {
                    assert(in_span(self.spec_nodes(), time));
                    let i = span_index(self.spec_nodes(), time);
                    assert(is_span_index(self.spec_nodes(), time, i));
                    assert(left == self.spec_nodes()[i - 1]);
                    if i == 1 {
                        assert(left.time == 0);
                    }
                    assert(left.time <= time);
                    assert(left.time < right.time);
                }
                match right.get_interpolator() {
                    InterpType::Hold => Sample::Constant { value: left.get_value() },
                    InterpType::Linear => Sample::Blend {
                        from: left.get_value(),
                        to: right.get_value(),
                        num: time - left.get_time(),
                        den: right.get_time() - left.get_time(),
                    },
                }
            },
        }
    }

    /// Returns a copy of the node stored directly after the node that
    /// shares `node`'s time, or `None` when that node is the last.
    pub fn view_next_node(&self, node: &Node) -> (r: Result<Option<Node>, TimelineError>)
        ensures
            match r {
                Ok(opt) => {
                    &&& has_time(self.spec_nodes(), node.time)
                    &&& exists|i: int|
                        {
                            &&& 0 <= i < self.spec_nodes().len()
                            &&& #[trigger] self.spec_nodes()[i].time == node.time
                            &&& opt == if i + 1 < self.spec_nodes().len() {
                                Some(self.spec_nodes()[i + 1])
                            } else {
                                None::<Node>
                            }
                        }
                },
                Err(e) => {
                    &&& e == TimelineError::NotFound
                    &&& !has_time(self.spec_nodes(), node.time)
                },
            },
    {
        match self.internal_get_node_index_at(node.get_time()) {
            Some(index) => {
                if index >= self.nodes.len() - 1 {
                    Ok(None)
                } else {
                    Ok(Some(self.nodes[index + 1]))
                }
            },
            None => Err(TimelineError::NotFound),
        }
    }

    /// Returns a copy of the node stored directly before the node that
    /// shares `node`'s time, or `None` when that node is the first.
    pub fn view_previous_node(&self, node: &Node) -> (r: Result<Option<Node>, TimelineError>)
        ensures
            match r {
                Ok(opt) => {
                    &&& has_time(self.spec_nodes(), node.time)
                    &&& exists|i: int|
                        {
                            &&& 0 <= i < self.spec_nodes().len()
                            &&& #[trigger] self.spec_nodes()[i].time == node.time
                            &&& opt == if i >= 1 {
                                Some(self.spec_nodes()[i - 1])
                            } else {
                                None::<Node>
                            }
                        }
                },
                Err(e) => {
                    &&& e == TimelineError::NotFound
                    &&& !has_time(self.spec_nodes(), node.time)
                },
            },
    {
        match self.internal_get_node_index_at(node.get_time()) {
            Some(index) => {
                if index == 0 {
                    Ok(None)
                } else {
                    Ok(Some(self.nodes[index - 1]))
                }
            },
            None => Err(TimelineError::NotFound),
        }
    }
}

} // verus!
