//! Finite sets of request ids and per-request-id reply queues, kept in vectors.
use vstd::prelude::*;
use crate::types::{WsFrame, WsFrameView};

verus! {

/// The request ids that occur in `ids`.
pub open spec fn ids_view(ids: Seq<String>) -> Set<Seq<char>> {
    Set::new(|k: Seq<char>| exists|i: int| 0 <= i < ids.len() && ids[i]@ == k)
}

/// No request id occurs twice.
pub open spec fn ids_distinct(ids: Seq<String>) -> bool {
    forall|i: int, j: int| 0 <= i < ids.len() && 0 <= j < ids.len() && i != j ==> ids[i]@ != ids[j]@
}

/// A set of request ids.
pub struct ReqIdSet {
    ids: Vec<String>,
}

impl View for ReqIdSet {
    type V = Set<Seq<char>>;

    closed spec fn view(&self) -> Set<Seq<char>> {
        ids_view(self.ids@)
    }
}

proof fn lemma_ids_remove(ids: Seq<String>, i: int)
    requires
        ids_distinct(ids),
        0 <= i < ids.len(),
    ensures
        ids_distinct(ids.remove(i)),
        ids_view(ids.remove(i)) == ids_view(ids).remove(ids[i]@),
{
    let r = ids.remove(i);
    assert forall|k: Seq<char>| ids_view(r).contains(k) <==> ids_view(ids).remove(ids[i]@).contains(k) by {
        if ids_view(r).contains(k) {
            let j = choose|j: int| 0 <= j < r.len() && r[j]@ == k;
            if j < i {
                assert(ids[j]@ == k);
            } else {
                assert(ids[j + 1]@ == k);
            }
        }
        if ids_view(ids).remove(ids[i]@).contains(k) {
            let j = choose|j: int| 0 <= j < ids.len() && ids[j]@ == k;
            assert(j != i);
            if j < i {
                assert(r[j]@ == k);
            } else {
                assert(r[j - 1]@ == k);
            }
        }
    }
    assert(ids_view(r) =~= ids_view(ids).remove(ids[i]@));
}

proof fn lemma_ids_push(ids: Seq<String>, s: String)
    requires
        ids_distinct(ids),
        !ids_view(ids).contains(s@),
    ensures
        ids_distinct(ids.push(s)),
        ids_view(ids.push(s)) == ids_view(ids).insert(s@),
{
    let r = ids.push(s);
    assert forall|i: int, j: int| 0 <= i < r.len() && 0 <= j < r.len() && i != j implies r[i]@
        != r[j]@ by {
        if i < ids.len() && j < ids.len() {
        } else if i < ids.len() {
            if r[i]@ == r[j]@ {
                assert(ids_view(ids).contains(s@));
            }
        } else {
            if r[i]@ == r[j]@ {
                assert(ids[j]@ == s@);
                assert(ids_view(ids).contains(s@));
            }
        }
    }
    assert forall|k: Seq<char>| ids_view(r).contains(k) <==> ids_view(ids).insert(s@).contains(k) by {
        if ids_view(r).contains(k) {
            let j = choose|j: int| 0 <= j < r.len() && r[j]@ == k;
            if j < ids.len() {
                assert(ids[j]@ == k);
            }
        }
        if ids_view(ids).contains(k) {
            let j = choose|j: int| 0 <= j < ids.len() && ids[j]@ == k;
            assert(r[j]@ == k);
        }
        if k == s@ {
            assert(r[ids.len() as int]@ == k);
        }
    }
    assert(ids_view(r) =~= ids_view(ids).insert(s@));
}

impl ReqIdSet {
    /// The vector holds no request id twice.
    pub closed spec fn wf(&self) -> bool {
        ids_distinct(self.ids@)
    }

    pub fn new() -> (r: Self)
        ensures
            r.wf(),
            r@ == Set::<Seq<char>>::empty(),
    {
        let r = ReqIdSet { ids: Vec::new() };
        assert(r@ =~= Set::<Seq<char>>::empty());
        r
    }

    fn position(&self, id: &String) -> (r: Option<usize>)
        ensures
            match r {
                Some(i) => i < self.ids@.len() && self.ids@[i as int]@ == id@,
                None => !self@.contains(id@),
            },
    {
        let mut i: usize = 0;
        while i < self.ids.len()
            invariant
                i <= self.ids@.len(),
                forall|j: int| 0 <= j < i ==> self.ids@[j]@ != id@,
            decreases self.ids@.len() - i,
        {
            if self.ids[i] == *id {
                return Some(i);
            }
            i = i + 1;
        }
        None
    }

    pub fn contains(&self, id: &String) -> (r: bool)
        ensures
            r == self@.contains(id@),
    {
        match self.position(id) {
            Some(_) => true,
            None => false,
        }
    }

    pub fn insert(&mut self, id: &String)
        requires
            old(self).wf(),
        ensures
            final(self).wf(),
            final(self)@ == old(self)@.insert(id@),
    {
        if self.position(id).is_none() {
            let c = id.clone();
            proof {
                lemma_ids_push(self.ids@, c);
            }
            self.ids.push(c);
        } else {
            assert(self@.insert(id@) =~= self@);
        }
    }

    pub fn remove(&mut self, id: &String)
        requires
            old(self).wf(),
        ensures
            final(self).wf(),
            final(self)@ == old(self)@.remove(id@),
    {
        match self.position(id) {
            Some(i) => {
                proof {
                    lemma_ids_remove(self.ids@, i as int);
                }
                self.ids.remove(i);
            },
            None => {
                assert(self@.remove(id@) =~= self@);
            },
        }
    }
}


/// The values of a sequence of frames.
pub open spec fn frames_view(v: Seq<WsFrame>) -> Seq<WsFrameView> {
    v.map_values(|f: WsFrame| f@)
}

/// The queue that `m` holds for `k`; empty where it holds none.
pub open spec fn queue_of(m: Map<Seq<char>, Seq<WsFrameView>>, k: Seq<char>) -> Seq<WsFrameView> {
    if m.contains_key(k) {
        m[k]
    } else {
        Seq::empty()
    }
}

/// The frames waiting to be sent for one request id, oldest first.
pub struct ReplyQueue {
    req_id: String,
    frames: Vec<WsFrame>,
}

/// Reply queues, one per request id.
pub struct ReplyQueues {
    entries: Vec<ReplyQueue>,
}

pub closed spec fn entries_distinct(t: Seq<ReplyQueue>) -> bool {
    forall|i: int, j: int|
        0 <= i < t.len() && 0 <= j < t.len() && i != j ==> t[i].req_id@ != t[j].req_id@
}

pub closed spec fn entries_view(t: Seq<ReplyQueue>) -> Map<Seq<char>, Seq<WsFrameView>> {
    Map::new(
        |k: Seq<char>| exists|i: int| 0 <= i < t.len() && t[i].req_id@ == k,
        |k: Seq<char>| frames_view(t[choose|i: int| 0 <= i < t.len() && t[i].req_id@ == k].frames@),
    )
}

proof fn lemma_entries_index(t: Seq<ReplyQueue>, i: int)
    requires
        entries_distinct(t),
        0 <= i < t.len(),
    ensures
        entries_view(t).contains_key(t[i].req_id@),
        entries_view(t)[t[i].req_id@] == frames_view(t[i].frames@),
{
    let k = t[i].req_id@;
    assert(exists|j: int| 0 <= j < t.len() && t[j].req_id@ == k);
    let j = choose|j: int| 0 <= j < t.len() && t[j].req_id@ == k;
    assert(j == i);
}

proof fn lemma_entries_remove(t: Seq<ReplyQueue>, i: int)
    requires
        entries_distinct(t),
        0 <= i < t.len(),
    ensures
        entries_distinct(t.remove(i)),
        entries_view(t.remove(i)) == entries_view(t).remove(t[i].req_id@),
{
    let r = t.remove(i);
    let gone = t[i].req_id@;
    assert forall|a: int, b: int|
        0 <= a < r.len() && 0 <= b < r.len() && a != b implies r[a].req_id@ != r[b].req_id@ by {
        let ta = if a < i { a } else { a + 1 };
        let tb = if b < i { b } else { b + 1 };
        assert(r[a] == t[ta]);
        assert(r[b] == t[tb]);
    }
    let m = entries_view(t).remove(gone);
    assert forall|k: Seq<char>| entries_view(r).contains_key(k) <==> m.contains_key(k) by {
        if entries_view(r).contains_key(k) {
            let j = choose|j: int| 0 <= j < r.len() && r[j].req_id@ == k;
            let tj = if j < i { j } else { j + 1 };
            assert(t[tj].req_id@ == k);
            assert(tj != i);
        }
        if m.contains_key(k) {
            let j = choose|j: int| 0 <= j < t.len() && t[j].req_id@ == k;
            assert(j != i);
            let rj = if j < i { j } else { j - 1 };
            assert(r[rj].req_id@ == k);
        }
    }
    assert forall|k: Seq<char>| #[trigger] entries_view(r).contains_key(k) implies entries_view(r)[k]
        == m[k] by {
        let j = choose|j: int| 0 <= j < r.len() && r[j].req_id@ == k;
        let tj = if j < i { j } else { j + 1 };
        assert(r[j] == t[tj]);
        lemma_entries_index(r, j);
        lemma_entries_index(t, tj);
    }
    assert(entries_view(r) =~= m);
}

proof fn lemma_entries_push(t: Seq<ReplyQueue>, e: ReplyQueue)
    requires
        entries_distinct(t),
        !entries_view(t).contains_key(e.req_id@),
    ensures
        entries_distinct(t.push(e)),
        entries_view(t.push(e)) == entries_view(t).insert(e.req_id@, frames_view(e.frames@)),
{
    let r = t.push(e);
    assert forall|a: int, b: int|
        0 <= a < r.len() && 0 <= b < r.len() && a != b implies r[a].req_id@ != r[b].req_id@ by {
        if a < t.len() && b < t.len() {
            assert(r[a] == t[a] && r[b] == t[b]);
        } else if a < t.len() {
            assert(r[a] == t[a]);
            if r[a].req_id@ == r[b].req_id@ {
                assert(entries_view(t).contains_key(e.req_id@));
            }
        } else {
            assert(r[b] == t[b]);
            if r[a].req_id@ == r[b].req_id@ {
                assert(entries_view(t).contains_key(e.req_id@));
            }
        }
    }
    let m = entries_view(t).insert(e.req_id@, frames_view(e.frames@));
    assert forall|k: Seq<char>| entries_view(r).contains_key(k) <==> m.contains_key(k) by {
        if entries_view(r).contains_key(k) {
            let j = choose|j: int| 0 <= j < r.len() && r[j].req_id@ == k;
            if j < t.len() {
                assert(t[j].req_id@ == k);
            }
        }
        if entries_view(t).contains_key(k) {
            let j = choose|j: int| 0 <= j < t.len() && t[j].req_id@ == k;
            assert(r[j].req_id@ == k);
        }
        if k == e.req_id@ {
            assert(r[t.len() as int].req_id@ == k);
        }
    }
    assert forall|k: Seq<char>| #[trigger] entries_view(r).contains_key(k) implies entries_view(r)[k]
        == m[k] by {
        let j = choose|j: int| 0 <= j < r.len() && r[j].req_id@ == k;
        lemma_entries_index(r, j);
        if j < t.len() {
            assert(r[j] == t[j]);
            lemma_entries_index(t, j);
        }
    }
    assert(entries_view(r) =~= m);
}

impl View for ReplyQueues {
    type V = Map<Seq<char>, Seq<WsFrameView>>;

    closed spec fn view(&self) -> Map<Seq<char>, Seq<WsFrameView>> {
        entries_view(self.entries@)
    }
}

impl ReplyQueues {
    /// No request id has two queues.
    pub closed spec fn wf(&self) -> bool {
        entries_distinct(self.entries@)
    }

    pub fn new() -> (r: Self)
        ensures
            r.wf(),
            r@ == Map::<Seq<char>, Seq<WsFrameView>>::empty(),
    {
        let r = ReplyQueues { entries: Vec::new() };
        assert(r@ =~= Map::<Seq<char>, Seq<WsFrameView>>::empty());
        r
    }

    fn position(&self, id: &String) -> (r: Option<usize>)
        requires
            self.wf(),
        ensures
            match r {
                Some(i) => i < self.entries@.len() && self.entries@[i as int].req_id@ == id@,
                None => !self@.contains_key(id@),
            },
    {
        let mut i: usize = 0;
        while i < self.entries.len()
            invariant
                i <= self.entries@.len(),
                forall|j: int| 0 <= j < i ==> self.entries@[j].req_id@ != id@,
            decreases self.entries@.len() - i,
        {
            if self.entries[i].req_id == *id {
                return Some(i);
            }
            i = i + 1;
        }
        None
    }

    /// The number of frames queued for `id`.
    pub fn queue_len(&self, id: &String) -> (r: usize)
        requires
            self.wf(),
        ensures
            r == queue_of(self@, id@).len(),
    {
        match self.position(id) {
            Some(i) => {
                proof {
                    lemma_entries_index(self.entries@, i as int);
                }
                self.entries[i].frames.len()
            },
            None => 0,
        }
    }

    /// A copy of the oldest frame queued for `id`.
    pub fn front(&self, id: &String) -> (r: Option<WsFrame>)
        requires
            self.wf(),
        ensures
            match r {
                Some(f) => queue_of(self@, id@).len() > 0 && f@ == queue_of(self@, id@)[0],
                None => queue_of(self@, id@).len() == 0,
            },
    {
        match self.position(id) {
            Some(i) => {
                proof {
                    lemma_entries_index(self.entries@, i as int);
                }
                if self.entries[i].frames.len() > 0 {
                    Some(self.entries[i].frames[0].duplicate())
                } else {
                    None
                }
            },
            None => None,
        }
    }

    /// Appends `frame` to the queue of `id`, making the queue where there is none.
    pub fn push_back(&mut self, id: &String, frame: WsFrame)
        requires
            old(self).wf(),
        ensures
            final(self).wf(),
            final(self)@ == old(self)@.insert(id@, queue_of(old(self)@, id@).push(frame@)),
    {
        let ghost fv = frame@;
        let mut entry = match self.position(id) {
            Some(i) => {
                proof {
                    lemma_entries_index(self.entries@, i as int);
                    lemma_entries_remove(self.entries@, i as int);
                }
                self.entries.remove(i)
            },
            None => ReplyQueue { req_id: id.clone(), frames: Vec::new() },
        };
        assert(frames_view(entry.frames@) == queue_of(old(self)@, id@));
        entry.frames.push(frame);
        assert(frames_view(entry.frames@) =~= queue_of(old(self)@, id@).push(fv));
        proof {
            lemma_entries_push(self.entries@, entry);
        }
        self.entries.push(entry);
        assert(self@ =~= old(self)@.insert(id@, queue_of(old(self)@, id@).push(fv)));
    }

    /// Drops the oldest frame queued for `id`, if there is one; an emptied queue
    /// stays in place.
    pub fn pop_front(&mut self, id: &String)
        requires
            old(self).wf(),
        ensures
            final(self).wf(),
            final(self)@ == if queue_of(old(self)@, id@).len() > 0 {
                old(self)@.insert(id@, queue_of(old(self)@, id@).drop_first())
            } else {
                old(self)@
            },
    {
        match self.position(id) {
            Some(i) => {
                proof {
                    lemma_entries_index(self.entries@, i as int);
                }
                if self.entries[i].frames.len() > 0 {
                    proof {
                        lemma_entries_remove(self.entries@, i as int);
                    }
                    let mut entry = self.entries.remove(i);
                    let ghost before = entry.frames@;
                    entry.frames.remove(0);
                    assert(frames_view(entry.frames@) =~= frames_view(before).drop_first());
                    proof {
                        lemma_entries_push(self.entries@, entry);
                    }
                    self.entries.push(entry);
                    assert(self@ =~= old(self)@.insert(
                        id@,
                        queue_of(old(self)@, id@).drop_first(),
                    ));
                }
            },
            None => {},
        }
    }

    /// Drops the queue of `id` with all its frames.
    pub fn remove(&mut self, id: &String)
        requires
            old(self).wf(),
        ensures
            final(self).wf(),
            final(self)@ == old(self)@.remove(id@),
    {
        match self.position(id) {
            Some(i) => {
                proof {
                    lemma_entries_remove(self.entries@, i as int);
                }
                self.entries.remove(i);
            },
            None => {
                assert(self@ =~= old(self)@.remove(id@));
            },
        }
    }
}

} // verus!
