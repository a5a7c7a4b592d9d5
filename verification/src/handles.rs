//! The foreign boundary: a registry of opaque integer handles over
//! owned timelines, free-standing nodes, and track cursors, so that a
//! host which cannot hold the library's types directly can still
//! create, mutate, query and iterate them.  Every operation validates
//! its handles and answers an invalid one with a neutral failure value
//! — `false`, `None`, or a zero default — instead of faulting.

use vstd::prelude::*;

use crate::node::InterpType;
use crate::node::Node;
use crate::timeline::Timeline;
use crate::track::has_time;
use crate::track::spec_add_ok;
use crate::track::spec_added;
use crate::track::spec_del_ok;
use crate::track::spec_removed;
use crate::track::spec_update_ok;
use crate::track::spec_updated;
use crate::track::zero_node;
use crate::track::Track;

verus! {

/// Designates one track inside one registered timeline: the
/// timeline's handle and the track's name.
pub struct TrackRef {
    pub timeline: usize,
    pub name: String,
}

/// A cursor over one track's nodes: the track it walks and the index
/// it stands at.  The index is bound to the track's current storage;
/// after a structural mutation the cursor keeps its position and is
/// re-checked against the track on every use.
pub struct CAPINodeIterator {
    pub timeline: usize,
    pub track: String,
    pub index: usize,
}

/// The handle registry.  A handle is an index into one of three
/// arenas; freeing clears the slot and leaves the handle dangling,
/// which every operation detects.
pub struct Registry {
    timelines: Vec<Option<Timeline>>,
    nodes: Vec<Option<Node>>,
    iters: Vec<Option<CAPINodeIterator>>,
}

impl Registry {
    /// The timeline arena.
    pub closed spec fn spec_timelines(self) -> Seq<Option<Timeline>> {
        self.timelines@
    }

    /// The free-standing node arena.
    pub closed spec fn spec_nodes(self) -> Seq<Option<Node>> {
        self.nodes@
    }

    /// The cursor arena.
    pub closed spec fn spec_iters(self) -> Seq<Option<CAPINodeIterator>> {
        self.iters@
    }

    /// Every registered timeline is well formed.
    pub open spec fn wf(self) -> bool {
        forall|h: int|
            0 <= h < self.spec_timelines().len() ==> match #[trigger] self.spec_timelines()[h] {
                Some(tl) => tl.wf(),
                None => true,
            }
    }

    /// The timeline behind a handle, if the handle is live.
    pub open spec fn tl_at(self, h: usize) -> Option<Timeline> {
        if h < self.spec_timelines().len() {
            self.spec_timelines()[h as int]
        } else {
            None
        }
    }

    /// The node behind a handle, if the handle is live.
    pub open spec fn node_at(self, h: usize) -> Option<Node> {
        if h < self.spec_nodes().len() {
            self.spec_nodes()[h as int]
        } else {
            None
        }
    }

    /// The cursor behind a handle, if the handle is live.
    pub open spec fn iter_at(self, h: usize) -> Option<CAPINodeIterator> {
        if h < self.spec_iters().len() {
            self.spec_iters()[h as int]
        } else {
            None
        }
    }

    /// The nodes of the track a cursor walks, if its timeline handle
    /// is live and the track still exists.
    pub open spec fn iter_nodes(self, it: CAPINodeIterator) -> Option<Seq<Node>> {
        match self.tl_at(it.timeline) {
            None => None,
            Some(tl) => if tl.spec_has_track(it.track@) {
                Some(tl.spec_tracks()[tl_track_index(tl, it.track@)].spec_nodes())
            } else {
                None
            },
        }
    }

    /// Builds an empty registry.
    pub fn new() -> (reg: Registry)
        ensures
            reg.wf(),
            reg.spec_timelines() =~= Seq::<Option<Timeline>>::empty(),
            reg.spec_nodes() =~= Seq::<Option<Node>>::empty(),
            reg.spec_iters() =~= Seq::<Option<CAPINodeIterator>>::empty(),
    {
        Registry { timelines: Vec::new(), nodes: Vec::new(), iters: Vec::new() }
    }
}

/// The storage index of the uniquely named track inside a timeline.
pub open spec fn tl_track_index(tl: Timeline, name: Seq<char>) -> int {
    choose|i: int|
        0 <= i < tl.spec_tracks().len() && (#[trigger] tl.spec_tracks()[i]).spec_name() == name
}

/// Registers a fresh, empty timeline and returns its handle.
pub fn demy_tl_new(reg: &mut Registry) -> (h: usize)
    requires
        old(reg).wf(),
    ensures
        final(reg).wf(),
        final(reg).spec_nodes() == old(reg).spec_nodes(),
        final(reg).spec_iters() == old(reg).spec_iters(),
        h == old(reg).spec_timelines().len(),
        final(reg).spec_timelines() == old(reg).spec_timelines().push(final(reg).tl_at(h)),
        match final(reg).tl_at(h) {
            Some(tl) => tl.wf() && tl.spec_tracks() =~= Seq::<Track>::empty(),
            None => false,
        },
{
    let h = reg.timelines.len();
    reg.timelines.push(Some(Timeline::new()));
    h
}

/// Releases the timeline behind `h`.  An unknown or already freed
/// handle is ignored.
pub fn demy_tl_free(reg: &mut Registry, h: usize)
    requires
        old(reg).wf(),
    ensures
        final(reg).wf(),
        final(reg).spec_nodes() == old(reg).spec_nodes(),
        final(reg).spec_iters() == old(reg).spec_iters(),
        h < old(reg).spec_timelines().len() ==> final(reg).spec_timelines() == old(
            reg,
        ).spec_timelines().update(h as int, None),
        h >= old(reg).spec_timelines().len() ==> *final(reg) == *old(reg),
{
    if h < reg.timelines.len() {
        reg.timelines.set(h, None);
    }
}

/// Resolves — creating it on first use — the track named `name` in
/// the timeline behind `h`, and returns a reference for the other
/// track operations.  An unknown timeline handle yields `None`.
pub fn demy_tl_track_get(reg: &mut Registry, h: usize, name: &str) -> (r: Option<TrackRef>)
    requires
        old(reg).wf(),
    ensures
        final(reg).wf(),
        final(reg).spec_nodes() == old(reg).spec_nodes(),
        final(reg).spec_iters() == old(reg).spec_iters(),
        match r {
            None => *final(reg) == *old(reg) && old(reg).tl_at(h) is None,
            Some(tr) => {
                &&& old(reg).tl_at(h) is Some
                &&& tr.timeline == h
                &&& tr.name@ == name@
                &&& match (old(reg).tl_at(h), final(reg).tl_at(h)) {
                    (Some(tl0), Some(tl1)) => {
                        &&& final(reg).spec_timelines() == old(reg).spec_timelines().update(
                            h as int,
                            Some(tl1),
                        )
                        &&& tl1.spec_has_track(name@)
                        &&& tl0.spec_has_track(name@) ==> tl1 == tl0
                        &&& !tl0.spec_has_track(name@) ==> {
                            let t = tl1.spec_tracks().last();
                            &&& tl1.spec_tracks() == tl0.spec_tracks().push(t)
                            &&& t.spec_name() == name@
                            &&& t.spec_nodes() =~= seq![zero_node()]
                        }
                    },
                    _ => false,
                }
            },
        },
{
    if h >= reg.timelines.len() {
        return None;
    }
    if reg.timelines[h].is_none() {
        return None;
    }
    let slot = &mut reg.timelines[h];
    match slot {
        None => None,
        Some(tl) => {
            let _created = tl.new_track(name);
            Some(TrackRef { timeline: h, name: name.to_owned() })
        },
    }
}

/// Removes the track named `name` from the timeline behind `h`.
/// Returns whether a track was removed; an unknown handle or an
/// unused name changes nothing.
pub fn demy_tl_track_del(reg: &mut Registry, h: usize, name: &str) -> (removed: bool)
    requires
        old(reg).wf(),
    ensures
        final(reg).wf(),
        final(reg).spec_nodes() == old(reg).spec_nodes(),
        final(reg).spec_iters() == old(reg).spec_iters(),
        match old(reg).tl_at(h) {
            None => !removed && *final(reg) == *old(reg),
            Some(tl0) => {
                &&& removed == tl0.spec_has_track(name@)
                &&& match final(reg).tl_at(h) {
                    Some(tl1) => {
                        &&& final(reg).spec_timelines() == old(reg).spec_timelines().update(
                            h as int,
                            Some(tl1),
                        )
                        &&& !tl1.spec_has_track(name@)
                        &&& !removed ==> tl1 == tl0
                        &&& removed ==> exists|i: int|
                            {
                                &&& 0 <= i < tl0.spec_tracks().len()
                                &&& tl0.spec_tracks()[i].spec_name() == name@
                                &&& tl1.spec_tracks() == #[trigger] tl0.spec_tracks().remove(i)
                            }
                    },
                    None => false,
                }
            },
        },
{
    if h >= reg.timelines.len() {
        return false;
    }
    if reg.timelines[h].is_none() {
        return false;
    }
    let slot = &mut reg.timelines[h];
    match slot {
        None => false,
        Some(tl) => tl.del_track(name),
    }
}

/// In a well-formed timeline the named track's index is unique, so
/// `tl_track_index` returns exactly the witnessed position.
pub proof fn lemma_track_index_agrees(tl: Timeline, name: Seq<char>, i: int)
    requires
        tl.wf(),
        0 <= i < tl.spec_tracks().len(),
        tl.spec_tracks()[i].spec_name() == name,
    ensures
        tl_track_index(tl, name) == i,
{
    assert(tl.spec_tracks()[tl_track_index(tl, name)].spec_name() == name) by {
        assert(0 <= i < tl.spec_tracks().len() && (#[trigger] tl.spec_tracks()[i]).spec_name()
            == name);
    }
    let k = tl_track_index(tl, name);
    if k < i {
        assert(tl.spec_tracks()[k].spec_name() != tl.spec_tracks()[i].spec_name());
    } else if k > i {
        assert(tl.spec_tracks()[i].spec_name() != tl.spec_tracks()[k].spec_name());
    }
}

/// What every track mutation through the boundary ensures: the named
/// track of the timeline behind the reference went from `pre` to
/// `post` and everything else stands as it was.
pub open spec fn track_step(
    pre_reg: Registry,
    post_reg: Registry,
    tr: TrackRef,
    step_ok: bool,
) -> bool {
    match pre_reg.tl_at(tr.timeline) {
        None => !step_ok && post_reg == pre_reg,
        Some(tl0) => if !tl0.spec_has_track(tr.name@) {
            !step_ok && post_reg == pre_reg
        } else {
            match post_reg.tl_at(tr.timeline) {
                Some(tl1) => {
                    let i = tl_track_index(tl0, tr.name@);
                    &&& post_reg.spec_timelines() == pre_reg.spec_timelines().update(
                        tr.timeline as int,
                        Some(tl1),
                    )
                    &&& tl1.spec_tracks() == tl0.spec_tracks().update(
                        i,
                        tl1.spec_tracks()[i],
                    )
                    &&& tl1.spec_tracks()[i].spec_name() == tr.name@
                    &&& !step_ok ==> tl1.spec_tracks()[i] == tl0.spec_tracks()[i]
                },
                None => false,
            }
        },
    }
}

/// The nodes of the named track, on both sides of a boundary step.
pub open spec fn track_nodes_of(reg: Registry, tr: TrackRef) -> Seq<Node> {
    match reg.tl_at(tr.timeline) {
        None => Seq::empty(),
        Some(tl) => tl.spec_tracks()[tl_track_index(tl, tr.name@)].spec_nodes(),
    }
}

/// Is the named track present behind the reference?
pub open spec fn track_live(reg: Registry, tr: TrackRef) -> bool {
    match reg.tl_at(tr.timeline) {
        None => false,
        Some(tl) => tl.spec_has_track(tr.name@),
    }
}

/// Inserts a node, built from the given fields, into the referenced
/// track.  Returns whether the insertion was accepted; a dead handle,
/// a missing track, the reserved time 0 or an occupied time all
/// answer `false` and change nothing.
pub fn demy_tr_add_node(
    reg: &mut Registry,
    tr: &TrackRef,
    time: u32,
    value: u64,
    interp: InterpType,
) -> (r: bool)
    requires
        old(reg).wf(),
    ensures
        final(reg).wf(),
        final(reg).spec_nodes() == old(reg).spec_nodes(),
        final(reg).spec_iters() == old(reg).spec_iters(),
        track_step(*old(reg), *final(reg), *tr, r),
        track_live(*old(reg), *tr) ==> r == spec_add_ok(
            track_nodes_of(*old(reg), *tr),
            Node { time, value, interp },
        ),
        r ==> spec_added(
            track_nodes_of(*old(reg), *tr),
            Node { time, value, interp },
            track_nodes_of(*final(reg), *tr),
        ),
{
    let h = tr.timeline;
    if h >= reg.timelines.len() {
        return false;
    }
    let present = match &reg.timelines[h] {
        Some(tl) => tl.has_track(tr.name.as_str()),
        None => false,
    };
    if !present {
        return false;
    }
    let slot = &mut reg.timelines[h];
    match slot {
        None => false,
        Some(tl) => {
            let ghost tl0 = *tl;
            let track = tl.get_track_mut(tr.name.as_str());
            let ghost pre = track.spec_nodes();
            let node = Node::new(time, value, interp);
            let res = track.add_node(&node);
            proof {
                assert(tl0.spec_has_track(tr.name@));
                let j = tl_track_index(tl0, tr.name@);
                assert(0 <= j < tl0.spec_tracks().len() && tl0.spec_tracks()[j].spec_name()
                    == tr.name@) by {
                    assert(exists|i: int|
                        0 <= i < tl0.spec_tracks().len() && (
                        #[trigger] tl0.spec_tracks()[i]).spec_name() == tr.name@);
                }
            }
            res.is_none()
        },
    }
}

/// Removes the node at `time` from the referenced track.  Returns
/// whether a node was removed; a dead handle, a missing track, the
/// reserved time 0 or an unused time all answer `false` and change
/// nothing.
pub fn demy_tr_del_node(reg: &mut Registry, tr: &TrackRef, time: u32) -> (r: bool)
    requires
        old(reg).wf(),
    ensures
        final(reg).wf(),
        final(reg).spec_nodes() == old(reg).spec_nodes(),
        final(reg).spec_iters() == old(reg).spec_iters(),
        track_step(*old(reg), *final(reg), *tr, r),
        track_live(*old(reg), *tr) ==> r == spec_del_ok(track_nodes_of(*old(reg), *tr), time),
        r ==> spec_removed(
            track_nodes_of(*old(reg), *tr),
            time,
            track_nodes_of(*final(reg), *tr),
        ),
{
    let h = tr.timeline;
    if h >= reg.timelines.len() {
        return false;
    }
    let present = match &reg.timelines[h] {
        Some(tl) => tl.has_track(tr.name.as_str()),
        None => false,
    };
    if !present {
        return false;
    }
    let slot = &mut reg.timelines[h];
    match slot {
        None => false,
        Some(tl) => {
            let ghost tl0 = *tl;
            let track = tl.get_track_mut(tr.name.as_str());
            let res = track.del_node_at(time);
            proof {
                assert(tl0.spec_has_track(tr.name@));
                let j = tl_track_index(tl0, tr.name@);
                assert(0 <= j < tl0.spec_tracks().len() && tl0.spec_tracks()[j].spec_name()
                    == tr.name@) by {
                    assert(exists|i: int|
                        0 <= i < tl0.spec_tracks().len() && (
                        #[trigger] tl0.spec_tracks()[i]).spec_name() == tr.name@);
                }
            }
            res.is_none()
        },
    }
}

/// Rewrites the node at `time` in the referenced track with a copy of
/// the registered node behind `node_h`.  Returns whether the rewrite
/// was accepted; any dead handle or refused rewrite answers `false`
/// and changes nothing.
pub fn demy_node_update_at(reg: &mut Registry, tr: &TrackRef, time: u32, node_h: usize) -> (r:
    bool)
    requires
        old(reg).wf(),
    ensures
        final(reg).wf(),
        final(reg).spec_nodes() == old(reg).spec_nodes(),
        final(reg).spec_iters() == old(reg).spec_iters(),
        old(reg).node_at(node_h) is None ==> !r && *final(reg) == *old(reg),
        match old(reg).node_at(node_h) {
            None => !r && *final(reg) == *old(reg),
            Some(node) => {
                &&& track_step(*old(reg), *final(reg), *tr, r)
                &&& track_live(*old(reg), *tr) ==> r == spec_update_ok(
                    track_nodes_of(*old(reg), *tr),
                    time,
                    node,
                )
                &&& r ==> spec_updated(
                    track_nodes_of(*old(reg), *tr),
                    time,
                    node,
                    track_nodes_of(*final(reg), *tr),
                )
            },
        },
{
    if node_h >= reg.nodes.len() {
        return false;
    }
    let node = match &reg.nodes[node_h] {
        Some(n) => *n,
        None => {
            return false;
        },
    };
    let h = tr.timeline;
    if h >= reg.timelines.len() {
        return false;
    }
    let present = match &reg.timelines[h] {
        Some(tl) => tl.has_track(tr.name.as_str()),
        None => false,
    };
    if !present {
        return false;
    }
    let slot = &mut reg.timelines[h];
    match slot {
        None => false,
        Some(tl) => {
            let ghost tl0 = *tl;
            let track = tl.get_track_mut(tr.name.as_str());
            let res = track.update_node_at(time, &node);
            proof {
                assert(tl0.spec_has_track(tr.name@));
                let j = tl_track_index(tl0, tr.name@);
                assert(0 <= j < tl0.spec_tracks().len() && tl0.spec_tracks()[j].spec_name()
                    == tr.name@) by {
                    assert(exists|i: int|
                        0 <= i < tl0.spec_tracks().len() && (
                        #[trigger] tl0.spec_tracks()[i]).spec_name() == tr.name@);
                }
            }
            res.is_none()
        },
    }
}

/// Returns a copy of the referenced track's node at exactly `time`,
/// or `None` for a dead handle, a missing track or an unused time.
pub fn demy_tr_get_node(reg: &Registry, tr: &TrackRef, time: u32) -> (r: Option<Node>)
    requires
        reg.wf(),
    ensures
        match r {
            Some(n) => {
                &&& track_live(*reg, *tr)
                &&& n.time == time
                &&& exists|i: int|
                    0 <= i < track_nodes_of(*reg, *tr).len() && track_nodes_of(*reg, *tr)[i] == n
            },
            None => !track_live(*reg, *tr) || !has_time(track_nodes_of(*reg, *tr), time),
        },
{
    let h = tr.timeline;
    if h >= reg.timelines.len() {
        return None;
    }
    match &reg.timelines[h] {
        None => None,
        Some(tl) => match tl.find_track(tr.name.as_str()) {
            None => None,
            Some(track) => {
                proof {
                    let i = choose|i: int|
                        0 <= i < tl.spec_tracks().len() && tl.spec_tracks()[i] == *track;
                    assert(tl.spec_tracks()[i].spec_name() == tr.name@);
                    lemma_track_index_agrees(*tl, tr.name@, i);
                    assert(track_nodes_of(*reg, *tr) == track.spec_nodes());
                }
                track.view_node_at(time)
            },
        },
    }
}


/// Opens a cursor at the first node of the referenced track and
/// returns its handle, or `None` for a dead handle or missing track.
pub fn demy_tr_iter_begin(reg: &mut Registry, tr: &TrackRef) -> (r: Option<usize>)
    requires
        old(reg).wf(),
    ensures
        final(reg).wf(),
        final(reg).spec_timelines() == old(reg).spec_timelines(),
        final(reg).spec_nodes() == old(reg).spec_nodes(),
        match r {
            None => *final(reg) == *old(reg) && !track_live(*old(reg), *tr),
            Some(ih) => {
                &&& track_live(*old(reg), *tr)
                &&& ih == old(reg).spec_iters().len()
                &&& final(reg).spec_iters() == old(reg).spec_iters().push(
                    final(reg).iter_at(ih),
                )
                &&& match final(reg).iter_at(ih) {
                    Some(it) => it.timeline == tr.timeline && it.track@ == tr.name@ && it.index
                        == 0,
                    None => false,
                }
            },
        },
{
    let h = tr.timeline;
    if h >= reg.timelines.len() {
        return None;
    }
    let present = match &reg.timelines[h] {
        Some(tl) => tl.has_track(tr.name.as_str()),
        None => false,
    };
    if !present {
        return None;
    }
    let ih = reg.iters.len();
    reg.iters.push(
        Some(CAPINodeIterator { timeline: tr.timeline, track: tr.name.clone(), index: 0 }),
    );
    Some(ih)
}

/// Opens a cursor one past the last node of the referenced track —
/// the end position that `demy_tr_iter_are_eq` compares against — and
/// returns its handle, or `None` for a dead handle or missing track.
pub fn demy_tr_iter_end(reg: &mut Registry, tr: &TrackRef) -> (r: Option<usize>)
    requires
        old(reg).wf(),
    ensures
        final(reg).wf(),
        final(reg).spec_timelines() == old(reg).spec_timelines(),
        final(reg).spec_nodes() == old(reg).spec_nodes(),
        match r {
            None => *final(reg) == *old(reg) && !track_live(*old(reg), *tr),
            Some(ih) => {
                &&& track_live(*old(reg), *tr)
                &&& ih == old(reg).spec_iters().len()
                &&& final(reg).spec_iters() == old(reg).spec_iters().push(
                    final(reg).iter_at(ih),
                )
                &&& match final(reg).iter_at(ih) {
                    Some(it) => it.timeline == tr.timeline && it.track@ == tr.name@ && it.index
                        == track_nodes_of(*old(reg), *tr).len(),
                    None => false,
                }
            },
        },
{
    let h = tr.timeline;
    if h >= reg.timelines.len() {
        return None;
    }
    let len_opt = match &reg.timelines[h] {
        Some(tl) => match tl.find_track(tr.name.as_str()) {
            Some(track) => {
                proof {
                    let i = choose|i: int|
                        0 <= i < tl.spec_tracks().len() && tl.spec_tracks()[i] == *track;
                    assert(tl.spec_tracks()[i].spec_name() == tr.name@);
                    lemma_track_index_agrees(*tl, tr.name@, i);
                    assert(track_nodes_of(*reg, *tr) == track.spec_nodes());
                }
                Some(track.nodes().len())
            },
            None => None,
        },
        None => None,
    };
    match len_opt {
        None => None,
        Some(len) => {
            let ih = reg.iters.len();
            reg.iters.push(
                Some(
                    CAPINodeIterator { timeline: tr.timeline, track: tr.name.clone(), index: len },
                ),
            );
            Some(ih)
        },
    }
}

/// Advances a cursor by one node.  Returns whether it moved: a dead
/// handle, a vanished track, or a cursor already at or past the end
/// stays put and answers `false` — the cursor never advances past the
/// end position.
pub fn demy_tr_iter_next(reg: &mut Registry, ih: usize) -> (r: bool)
    requires
        old(reg).wf(),
    ensures
        final(reg).wf(),
        final(reg).spec_timelines() == old(reg).spec_timelines(),
        final(reg).spec_nodes() == old(reg).spec_nodes(),
        !r ==> *final(reg) == *old(reg),
        match old(reg).iter_at(ih) {
            None => !r,
            Some(it) => {
                &&& r == (match old(reg).iter_nodes(it) {
                    Some(ns) => it.index < ns.len(),
                    None => false,
                })
                &&& r ==> match final(reg).iter_at(ih) {
                    Some(it2) => {
                        &&& final(reg).spec_iters() == old(reg).spec_iters().update(
                            ih as int,
                            Some(it2),
                        )
                        &&& it2.timeline == it.timeline
                        &&& it2.track@ == it.track@
                        &&& it2.index == it.index + 1
                    },
                    None => false,
                }
            },
        },
{
    if ih >= reg.iters.len() {
        return false;
    }
    let may_advance = match &reg.iters[ih] {
        None => false,
        Some(it) => {
            if it.timeline >= reg.timelines.len() {
                false
            } else {
                match &reg.timelines[it.timeline] {
                    None => false,
                    Some(tl) => match tl.find_track(it.track.as_str()) {
                        None => false,
                        Some(track) => {
                            proof {
                                let i = choose|i: int|
                                    0 <= i < tl.spec_tracks().len() && tl.spec_tracks()[i]
                                        == *track;
                                assert(tl.spec_tracks()[i].spec_name() == it.track@);
                                lemma_track_index_agrees(*tl, it.track@, i);
                            }
                            it.index < track.nodes().len()
                        },
                    },
                }
            }
        },
    };
    if !may_advance {
        return false;
    }
    let slot = &mut reg.iters[ih];
    match slot {
        None => false,
        Some(it) => {
            it.index = it.index + 1;
            true
        },
    }
}

/// Releases the cursor behind `ih`.  An unknown or already freed
/// handle is ignored.
pub fn demy_tr_iter_free(reg: &mut Registry, ih: usize)
    requires
        old(reg).wf(),
    ensures
        final(reg).wf(),
        final(reg).spec_timelines() == old(reg).spec_timelines(),
        final(reg).spec_nodes() == old(reg).spec_nodes(),
        ih < old(reg).spec_iters().len() ==> final(reg).spec_iters() == old(
            reg,
        ).spec_iters().update(ih as int, None),
        ih >= old(reg).spec_iters().len() ==> *final(reg) == *old(reg),
{
    if ih < reg.iters.len() {
        reg.iters.set(ih, None);
    }
}

/// Compares two cursors by position: live cursors standing at the
/// same index are equal.  Any dead handle answers `false`.
pub fn demy_tr_iter_are_eq(reg: &Registry, a: usize, b: usize) -> (r: bool)
    ensures
        r == (match (reg.iter_at(a), reg.iter_at(b)) {
            (Some(x), Some(y)) => x.index == y.index,
            _ => false,
        }),
{
    if a >= reg.iters.len() || b >= reg.iters.len() {
        return false;
    }
    let ia = match &reg.iters[a] {
        Some(it) => it.index,
        None => {
            return false;
        },
    };
    let ib = match &reg.iters[b] {
        Some(it) => it.index,
        None => {
            return false;
        },
    };
    ia == ib
}

/// Returns a copy of the node a cursor stands on, or `None` for a
/// dead handle, a vanished track, or a cursor at the end position.
pub fn demy_tr_iter_get(reg: &Registry, ih: usize) -> (r: Option<Node>)
    requires
        reg.wf(),
    ensures
        match (reg.iter_at(ih), r) {
            (Some(it), Some(n)) => match reg.iter_nodes(it) {
                Some(ns) => it.index < ns.len() && n == ns[it.index as int],
                None => false,
            },
            (Some(it), None) => match reg.iter_nodes(it) {
                Some(ns) => it.index >= ns.len(),
                None => true,
            },
            (None, res) => res is None,
        },
{
    if ih >= reg.iters.len() {
        return None;
    }
    match &reg.iters[ih] {
        None => None,
        Some(it) => {
            if it.timeline >= reg.timelines.len() {
                return None;
            }
            match &reg.timelines[it.timeline] {
                None => None,
                Some(tl) => match tl.find_track(it.track.as_str()) {
                    None => None,
                    Some(track) => {
                        proof {
                            let i = choose|i: int|
                                0 <= i < tl.spec_tracks().len() && tl.spec_tracks()[i] == *track;
                            assert(tl.spec_tracks()[i].spec_name() == it.track@);
                            lemma_track_index_agrees(*tl, it.track@, i);
                        }
                        let nodes = track.nodes();
                        if it.index < nodes.len() {
                            Some(nodes[it.index])
                        } else {
                            None
                        }
                    },
                },
            }
        },
    }
}

/// Registers a free-standing node built from the given fields and
/// returns its handle.
pub fn demy_node_new(reg: &mut Registry, time: u32, value: u64, interp: InterpType) -> (h: usize)
    requires
        old(reg).wf(),
    ensures
        final(reg).wf(),
        final(reg).spec_timelines() == old(reg).spec_timelines(),
        final(reg).spec_iters() == old(reg).spec_iters(),
        h == old(reg).spec_nodes().len(),
        final(reg).spec_nodes() == old(reg).spec_nodes().push(
            Some(Node { time, value, interp }),
        ),
{
    let h = reg.nodes.len();
    reg.nodes.push(Some(Node::new(time, value, interp)));
    h
}

/// Registers a copy of the node behind `h` and returns the copy's
/// handle, or `None` for a dead handle.
pub fn demy_node_clone(reg: &mut Registry, h: usize) -> (r: Option<usize>)
    requires
        old(reg).wf(),
    ensures
        final(reg).wf(),
        final(reg).spec_timelines() == old(reg).spec_timelines(),
        final(reg).spec_iters() == old(reg).spec_iters(),
        match (old(reg).node_at(h), r) {
            (None, res) => res is None && *final(reg) == *old(reg),
            (Some(n), Some(h2)) => h2 == old(reg).spec_nodes().len() && final(reg).spec_nodes()
                == old(reg).spec_nodes().push(Some(n)),
            (Some(_), None) => false,
        },
{
    if h >= reg.nodes.len() {
        return None;
    }
    let node = match &reg.nodes[h] {
        Some(n) => *n,
        None => {
            return None;
        },
    };
    let h2 = reg.nodes.len();
    reg.nodes.push(Some(node));
    Some(h2)
}

/// Releases the node behind `h`.  An unknown or already freed handle
/// is ignored.
pub fn demy_node_free(reg: &mut Registry, h: usize)
    requires
        old(reg).wf(),
    ensures
        final(reg).wf(),
        final(reg).spec_timelines() == old(reg).spec_timelines(),
        final(reg).spec_iters() == old(reg).spec_iters(),
        h < old(reg).spec_nodes().len() ==> final(reg).spec_nodes() == old(
            reg,
        ).spec_nodes().update(h as int, None),
        h >= old(reg).spec_nodes().len() ==> *final(reg) == *old(reg),
{
    if h < reg.nodes.len() {
        reg.nodes.set(h, None);
    }
}

/// Replaces the time of the node behind `h`; a dead handle is
/// ignored.
pub fn demy_node_set_time(reg: &mut Registry, h: usize, time: u32)
    requires
        old(reg).wf(),
    ensures
        final(reg).wf(),
        final(reg).spec_timelines() == old(reg).spec_timelines(),
        final(reg).spec_iters() == old(reg).spec_iters(),
        match old(reg).node_at(h) {
            None => *final(reg) == *old(reg),
            Some(n) => final(reg).spec_nodes() == old(reg).spec_nodes().update(
                h as int,
                Some(Node { time, ..n }),
            ),
        },
{
    if h >= reg.nodes.len() {
        return ;
    }
    if reg.nodes[h].is_none() {
        return ;
    }
    let slot = &mut reg.nodes[h];
    match slot {
        Some(n) => n.set_time(time),
        None => {},
    }
}

/// Returns the time of the node behind `h`, or 0 for a dead handle.
pub fn demy_node_get_time(reg: &Registry, h: usize) -> (t: u32)
    ensures
        t == (match reg.node_at(h) {
            Some(n) => n.time,
            None => 0u32,
        }),
{
    if h >= reg.nodes.len() {
        return 0;
    }
    match &reg.nodes[h] {
        Some(n) => n.get_time(),
        None => 0,
    }
}

/// Replaces the value pattern of the node behind `h`; a dead handle
/// is ignored.
pub fn demy_node_set_value(reg: &mut Registry, h: usize, value: u64)
    requires
        old(reg).wf(),
    ensures
        final(reg).wf(),
        final(reg).spec_timelines() == old(reg).spec_timelines(),
        final(reg).spec_iters() == old(reg).spec_iters(),
        match old(reg).node_at(h) {
            None => *final(reg) == *old(reg),
            Some(n) => final(reg).spec_nodes() == old(reg).spec_nodes().update(
                h as int,
                Some(Node { value, ..n }),
            ),
        },
{
    if h >= reg.nodes.len() {
        return ;
    }
    if reg.nodes[h].is_none() {
        return ;
    }
    let slot = &mut reg.nodes[h];
    match slot {
        Some(n) => n.set_value(value),
        None => {},
    }
}

/// Returns the value pattern of the node behind `h`, or 0 for a dead
/// handle.
pub fn demy_node_get_value(reg: &Registry, h: usize) -> (v: u64)
    ensures
        v == (match reg.node_at(h) {
            Some(n) => n.value,
            None => 0u64,
        }),
{
    if h >= reg.nodes.len() {
        return 0;
    }
    match &reg.nodes[h] {
        Some(n) => n.get_value(),
        None => 0,
    }
}

/// Replaces the interpolation mode of the node behind `h`; a dead
/// handle is ignored.
pub fn demy_node_set_interp(reg: &mut Registry, h: usize, interp: InterpType)
    requires
        old(reg).wf(),
    ensures
        final(reg).wf(),
        final(reg).spec_timelines() == old(reg).spec_timelines(),
        final(reg).spec_iters() == old(reg).spec_iters(),
        match old(reg).node_at(h) {
            None => *final(reg) == *old(reg),
            Some(n) => final(reg).spec_nodes() == old(reg).spec_nodes().update(
                h as int,
                Some(Node { interp, ..n }),
            ),
        },
{
    if h >= reg.nodes.len() {
        return ;
    }
    if reg.nodes[h].is_none() {
        return ;
    }
    let slot = &mut reg.nodes[h];
    match slot {
        Some(n) => n.set_interpolator(interp),
        None => {},
    }
}

/// Returns the interpolation mode of the node behind `h`; a dead
/// handle reads as the hold mode.
pub fn demy_node_get_interp(reg: &Registry, h: usize) -> (i: InterpType)
    ensures
        i == (match reg.node_at(h) {
            Some(n) => n.interp,
            None => InterpType::Hold,
        }),
{
    if h >= reg.nodes.len() {
        return InterpType::Hold;
    }
    match &reg.nodes[h] {
        Some(n) => n.get_interpolator(),
        None => InterpType::Hold,
    }
}

} // verus!
