//! A name-keyed collection of tracks, created lazily on first access.

use vstd::prelude::*;

use crate::text::str_eq;
use crate::track::zero_node;
use crate::track::Track;

verus! {

/// A named collection of tracks.  Lookup is by exact name; at most one
/// track exists per name.  Iteration order is storage order, which
/// callers must not rely on.
pub struct Timeline {
    tracks: Vec<Track>,
}

impl Timeline {
    /// The stored tracks, in storage order.
    pub closed spec fn spec_tracks(self) -> Seq<Track> {
        self.tracks@
    }

    /// A timeline is well formed when every track is well formed and
    /// no two tracks share a name.
    pub open spec fn wf(self) -> bool {
        &&& forall|i: int|
            0 <= i < self.spec_tracks().len() ==> (#[trigger] self.spec_tracks()[i]).wf()
        &&& forall|i: int, j: int|
            0 <= i < j < self.spec_tracks().len() ==> (#[trigger] self.spec_tracks()[i]).spec_name()
                != (#[trigger] self.spec_tracks()[j]).spec_name()
    }

    /// Does some stored track carry this name?
    pub open spec fn spec_has_track(self, name: Seq<char>) -> bool {
        exists|i: int|
            0 <= i < self.spec_tracks().len() && (#[trigger] self.spec_tracks()[i]).spec_name()
                == name
    }

    /// Builds an empty timeline.
    pub fn new() -> (tl: Timeline)
        ensures
            tl.wf(),
            tl.spec_tracks() =~= Seq::<Track>::empty(),
    {
        Timeline { tracks: Vec::new() }
    }

    /// Reassembles a timeline from tracks already known to be well
    /// formed and uniquely named; used when decoding a persisted
    /// timeline.
    pub(crate) fn from_tracks(tracks: Vec<Track>) -> (tl: Timeline)
        requires
            forall|i: int| 0 <= i < tracks@.len() ==> (#[trigger] tracks@[i]).wf(),
            forall|i: int, j: int|
                0 <= i < j < tracks@.len() ==> (#[trigger] tracks@[i]).spec_name() != (
                #[trigger] tracks@[j]).spec_name(),
        ensures
            tl.wf(),
            tl.spec_tracks() == tracks@,
    {
        Timeline { tracks }
    }

    /// Returns the storage index of the track named `name`, if any.
    fn find_track_index(&self, name: &str) -> (r: Option<usize>)
        ensures
            match r {
                Some(i) => i < self.spec_tracks().len() && self.spec_tracks()[i as int].spec_name()
                    == name@,
                None => !self.spec_has_track(name@),
            },
    {
        let mut i: usize = 0;
        while i < self.tracks.len()
            invariant
                i <= self.spec_tracks().len(),
                forall|j: int|
                    0 <= j < i ==> (#[trigger] self.spec_tracks()[j]).spec_name() != name@,
            decreases self.tracks.len() - i,
        {
            if str_eq(self.tracks[i].get_name(), name) {
                return Some(i);
            }
            i += 1;
        }
        None
    }

    /// Ensures a track named `name` exists — creating it, with its
    /// synthetic zero node, when absent — and returns its storage
    /// index.
    fn try_add_track(&mut self, name: &str) -> (i: usize)
        requires
            old(self).wf(),
        ensures
            final(self).wf(),
            i < final(self).spec_tracks().len(),
            final(self).spec_tracks()[i as int].spec_name() == name@,
            final(self).spec_tracks()[i as int].wf(),
            old(self).spec_has_track(name@) ==> final(self).spec_tracks() == old(
                self,
            ).spec_tracks(),
            !old(self).spec_has_track(name@) ==> {
                &&& i == old(self).spec_tracks().len()
                &&& final(self).spec_tracks() == old(self).spec_tracks().push(
                    final(self).spec_tracks()[i as int],
                )
                &&& final(self).spec_tracks()[i as int].spec_nodes() =~= seq![zero_node()]
            },
    {
        match self.find_track_index(name) {
            Some(i) => i,
            None => {
                let track = Track::new(name);
                let ghost pre = self.spec_tracks();
                self.tracks.push(track);
                proof {
                    let post = self.spec_tracks();
                    assert forall|a: int, b: int| 0 <= a < b < post.len() implies (
                    #[trigger] post[a]).spec_name() != (#[trigger] post[b]).spec_name() by {
                        if b == post.len() - 1 {
                            assert(post[a] == pre[a]);
                            assert(pre[a].spec_name() != name@);
                        } else {
                            assert(post[a] == pre[a]);
                            assert(post[b] == pre[b]);
                        }
                    }
                    assert(self.wf());
                }
                self.tracks.len() - 1
            },
        }
    }

    /// Returns the track named `name` for reading, creating it (with
    /// its zero node) on first access.  Repeated calls with one name
    /// never create a second track.
    pub fn get_track(&mut self, name: &str) -> (ret: &Track)
        requires
            old(self).wf(),
        ensures
            final(self).wf(),
            ret.wf(),
            ret.spec_name() == name@,
            exists|i: int|
                0 <= i < final(self).spec_tracks().len() && final(self).spec_tracks()[i] == *ret,
            old(self).spec_has_track(name@) ==> final(self).spec_tracks() == old(
                self,
            ).spec_tracks(),
            !old(self).spec_has_track(name@) ==> final(self).spec_tracks() == old(
                self,
            ).spec_tracks().push(*ret) && ret.spec_nodes() =~= seq![zero_node()],
    {
        let i = self.try_add_track(name);
        &self.tracks[i]
    }

    /// Returns the track named `name` for mutation, creating it (with
    /// its zero node) on first access.  The timeline stays well formed
    /// as long as the caller leaves the track well formed and does not
    /// change its name; every track method does both.
    pub fn get_track_mut(&mut self, name: &str) -> (ret: &mut Track)
        requires
            old(self).wf(),
        ensures
            ret.wf(),
            ret.spec_name() == name@,
            old(self).spec_has_track(name@) ==> exists|i: int|
                {
                    &&& 0 <= i < old(self).spec_tracks().len()
                    &&& *ret == old(self).spec_tracks()[i]
                    &&& final(self).spec_tracks() == #[trigger] old(self).spec_tracks().update(
                        i,
                        *final(ret),
                    )
                },
            !old(self).spec_has_track(name@) ==> {
                &&& ret.spec_nodes() =~= seq![zero_node()]
                &&& final(self).spec_tracks() == old(self).spec_tracks().push(*final(ret))
            },
            (final(ret).wf() && final(ret).spec_name() == name@) ==> final(self).wf(),
    {
        let i = self.try_add_track(name);
        &mut self.tracks[i]
    }

    /// Creates a track named `name` with its synthetic zero node.
    /// Returns false, changing nothing, when the name is already
    /// taken.
    pub fn new_track(&mut self, name: &str) -> (created: bool)
        requires
            old(self).wf(),
        ensures
            final(self).wf(),
            created == !old(self).spec_has_track(name@),
            !created ==> *final(self) == *old(self),
            created ==> final(self).spec_tracks().len() == old(self).spec_tracks().len() + 1,
            created ==> {
                let t = final(self).spec_tracks().last();
                &&& final(self).spec_tracks() == old(self).spec_tracks().push(t)
                &&& t.spec_name() == name@
                &&& t.spec_nodes() =~= seq![zero_node()]
            },
            final(self).spec_has_track(name@),
    {
        match self.find_track_index(name) {
            Some(i) => {
                proof {
                    assert(self.spec_tracks()[i as int].spec_name() == name@);
                }
                false
            },
            None => {
                let track = Track::new(name);
                let ghost pre = self.spec_tracks();
                self.tracks.push(track);
                proof {
                    let post = self.spec_tracks();
                    assert forall|a: int, b: int| 0 <= a < b < post.len() implies (
                    #[trigger] post[a]).spec_name() != (#[trigger] post[b]).spec_name() by {
                        if b == post.len() - 1 {
                            assert(post[a] == pre[a]);
                            assert(pre[a].spec_name() != name@);
                        } else {
                            assert(post[a] == pre[a]);
                            assert(post[b] == pre[b]);
                        }
                    }
                    assert(self.wf());
                    assert(post.last().spec_name() == name@);
                }
                true
            },
        }
    }

    /// Removes the track named `name`.  Returns whether a track was
    /// removed; an unused name changes nothing.
    pub fn del_track(&mut self, name: &str) -> (removed: bool)
        requires
            old(self).wf(),
        ensures
            final(self).wf(),
            removed == old(self).spec_has_track(name@),
            !removed ==> *final(self) == *old(self),
            removed ==> final(self).spec_tracks().len() == old(self).spec_tracks().len() - 1,
            removed ==> exists|i: int|
                {
                    &&& 0 <= i < old(self).spec_tracks().len()
                    &&& old(self).spec_tracks()[i].spec_name() == name@
                    &&& final(self).spec_tracks() == #[trigger] old(self).spec_tracks().remove(i)
                },
            forall|n2: Seq<char>|
                final(self).spec_has_track(n2) <==> (old(self).spec_has_track(n2) && n2 != name@),
    {
        match self.find_track_index(name) {
            Some(index) => {
                let ghost pre = self.spec_tracks();
                let ghost pos = index as int;
                self.tracks.remove(index);
                proof {
                    let post = self.spec_tracks();
                    pre.remove_ensures(pos);
                    assert forall|a: int| 0 <= a < pos implies post[a] == pre[a] by {
                        assert(pre.remove(pos)[a] == pre[a]);
                    }
                    assert forall|a: int| pos <= a < post.len() implies post[a] == pre[a + 1] by {
                        assert(pre.remove(pos)[a] == pre[a + 1]);
                    }
                    assert(self.wf());
                    assert forall|n2: Seq<char>|
                        self.spec_has_track(n2) <==> (old(self).spec_has_track(n2) && n2
                            != name@) by {
                        if self.spec_has_track(n2) {
                            let w = choose|w: int|
                                0 <= w < post.len() && (#[trigger] post[w]).spec_name() == n2;
                            if w < pos {
                                assert(pre[w].spec_name() == n2);
                                assert(w != pos && pre[w].spec_name() != pre[pos].spec_name());
                            } else {
                                assert(pre[w + 1].spec_name() == n2);
                                assert(pre[w + 1].spec_name() != pre[pos].spec_name());
                            }
                        }
                        if old(self).spec_has_track(n2) && n2 != name@ {
                            let w = choose|w: int|
                                0 <= w < pre.len() && (#[trigger] pre[w]).spec_name() == n2;
                            assert(w != pos);
                            if w < pos {
                                assert(post[w].spec_name() == n2);
                            } else {
                                assert(post[w - 1].spec_name() == n2);
                            }
                        }
                    }
                }
                true
            },
            None => false,
        }
    }

    /// Does a track named `name` exist right now?  Unlike the
    /// accessors, this never creates one.
    pub fn has_track(&self, name: &str) -> (r: bool)
        ensures
            r == self.spec_has_track(name@),
    {
        match self.find_track_index(name) {
            Some(i) => {
                proof {
                    assert(self.spec_tracks()[i as int].spec_name() == name@);
                }
                true
            },
            None => false,
        }
    }

    /// Returns the track named `name` if it exists, without creating
    /// one.
    pub fn find_track(&self, name: &str) -> (r: Option<&Track>)
        ensures
            match r {
                Some(t) => {
                    &&& self.spec_has_track(name@)
                    &&& t.spec_name() == name@
                    &&& exists|i: int|
                        0 <= i < self.spec_tracks().len() && self.spec_tracks()[i] == *t
                },
                None => !self.spec_has_track(name@),
            },
    {
        match self.find_track_index(name) {
            Some(i) => {
                proof {
                    assert(self.spec_tracks()[i as int].spec_name() == name@);
                }
                Some(&self.tracks[i])
            },
            None => None,
        }
    }

    /// Returns a read-only view of the stored tracks.  The order is an
    /// implementation detail.
    pub fn tracks(&self) -> (r: &Vec<Track>)
        ensures
            r@ == self.spec_tracks(),
    {
        &self.tracks
    }
}

} // verus!
