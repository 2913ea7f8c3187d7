//! The cache of recent tips of the main chain: for each of the last few
//! blocks that became the tip, the unspent outputs right after it, so that
//! a fork off such a block needs no replay.

use crate::block::{Block, BlockView};
use crate::sets::{Hashes, OutputSet};
use crate::transaction::Output;
use std::collections::VecDeque;
use vstd::prelude::*;

verus! {

/// What the cache keeps of a block that became the tip of the main chain.
#[derive(Debug)]
pub struct RecentBlock {
    pub hash: String,
    pub height: u64,
    pub created_at: u128,
    pub total_work: u64,
    pub block: Block,
    pub outputs_set: OutputSet,
    pub outputs: Vec<Output>,
}

/// What a cache entry is in contracts.
pub struct RecentView {
    pub hash: Seq<char>,
    pub height: u64,
    pub created_at: u128,
    pub total_work: u64,
    pub block: BlockView,
    pub outputs_set: Set<Output>,
    pub outputs: Seq<Output>,
}

impl View for RecentBlock {
    type V = RecentView;

    open spec fn view(&self) -> RecentView {
        RecentView {
            hash: self.hash@,
            height: self.height,
            created_at: self.created_at,
            total_work: self.total_work,
            block: self.block@,
            outputs_set: self.outputs_set@,
            outputs: self.outputs@,
        }
    }
}

impl RecentBlock {
    /// The set of outputs is sound, and the list is its walk.
    pub open spec fn wf(&self) -> bool {
        &&& self.outputs_set.wf()
        &&& self.outputs@ == self.outputs_set.order()
    }
}

/// The cache: entries by hash, and the queue of hashes that says which
/// entry leaves next.
#[derive(Debug)]
pub struct RecentCache {
    limit: usize,
    entries: Vec<RecentBlock>,
    queue: VecDeque<String>,
}

/// What the cache is in contracts.
pub struct RecentCacheView {
    pub limit: nat,
    pub entries: Map<Seq<char>, RecentView>,
    pub queue: Seq<Seq<char>>,
}

impl RecentCacheView {
    /// The queue holds at most `limit` hashes, and each entry is filed
    /// under its own hash.
    pub open spec fn wf(self) -> bool {
        &&& self.limit >= 1
        &&& self.queue.len() <= self.limit
        &&& forall|h: Seq<char>| #[trigger]
            self.entries.dom().contains(h) ==> self.entries[h].hash == h
    }

    /// The queue lists exactly the hashes that have an entry, each once.
    pub open spec fn indexed(self) -> bool {
        &&& self.queue.no_duplicates()
        &&& self.queue.to_set() == self.entries.dom()
    }

    /// The queue once room was made for one more hash: where it is full,
    /// the oldest hash leaves.
    pub open spec fn queue_with_room(self) -> Seq<Seq<char>> {
        if self.queue.len() == self.limit {
            self.queue.drop_first()
        } else {
            self.queue
        }
    }

    /// The entries once room was made: where the queue is full, the entry
    /// of the oldest hash leaves.
    pub open spec fn entries_with_room(self) -> Map<Seq<char>, RecentView> {
        if self.queue.len() == self.limit {
            self.entries.remove(self.queue[0])
        } else {
            self.entries
        }
    }

    /// The cache after it recorded `entry`: room is made first, then the
    /// entry is filed under its hash and the hash joins the queue.
    pub open spec fn recorded(self, entry: RecentView) -> RecentCacheView {
        RecentCacheView {
            limit: self.limit,
            entries: self.entries_with_room().insert(entry.hash, entry),
            queue: self.queue_with_room().push(entry.hash),
        }
    }

    /// The queued hashes whose entry lies above `height`.
    pub open spec fn later_than(self, height: u64) -> Set<Seq<char>> {
        Set::new(
            |h: Seq<char>|
                self.queue.contains(h) && self.entries.dom().contains(h) && self.entries[h].height
                    > height,
        )
    }
}

/// Recording keeps the cache well-formed: the queue never grows beyond the
/// limit.
pub proof fn lemma_recorded_wf(cache: RecentCacheView, entry: RecentView)
    requires
        cache.wf(),
    ensures
        cache.recorded(entry).wf(),
        cache.recorded(entry).queue.len() <= cache.limit,
{
}

/// Recording a hash that is not waiting in the queue keeps the queue and
/// the entries in step: the queue still lists each hash with an entry once.
pub proof fn lemma_recorded_indexed(cache: RecentCacheView, entry: RecentView)
    requires
        cache.wf(),
        cache.indexed(),
        !cache.queue_with_room().contains(entry.hash),
    ensures
        cache.recorded(entry).indexed(),
{
    let q0 = cache.queue;
    let q1 = cache.queue_with_room();
    let e1 = cache.entries_with_room();
    assert(q1.no_duplicates());
    assert(q1.to_set() =~= e1.dom()) by {
        assert forall|h: Seq<char>| q1.to_set().contains(h) <==> e1.dom().contains(h) by {
            if q0.len() == cache.limit {
                if q1.contains(h) {
                    let i = choose|i: int| 0 <= i < q1.len() && q1[i] == h;
                    assert(q0[i + 1] == h);
                    assert(q0.to_set().contains(h));
                    assert(q0[0] != h);
                }
                if e1.dom().contains(h) {
                    assert(q0.to_set().contains(h));
                    let i = choose|i: int| 0 <= i < q0.len() && q0[i] == h;
                    assert(i != 0);
                    assert(q1[i - 1] == h);
                }
            }
        }
    }
    let q2 = q1.push(entry.hash);
    assert(q2.no_duplicates());
    q1.lemma_push_to_set_commute(entry.hash);
    assert(q2.to_set() =~= e1.insert(entry.hash, entry).dom());
}

/// The hashes under which a list of entries is filed.
spec fn keys_of(entries: Seq<RecentBlock>) -> Seq<Seq<char>> {
    Seq::new(entries.len(), |i: int| entries[i].hash@)
}

/// A list of entries, read as a map from hash to entry.
spec fn entries_map(entries: Seq<RecentBlock>) -> Map<Seq<char>, RecentView> {
    Map::new(
        |h: Seq<char>| keys_of(entries).contains(h),
        |h: Seq<char>| entries[keys_of(entries).index_of(h)]@,
    )
}

proof fn lemma_entries_map_at(entries: Seq<RecentBlock>, i: int)
    requires
        keys_of(entries).no_duplicates(),
        0 <= i < entries.len(),
    ensures
        entries_map(entries).dom().contains(entries[i].hash@),
        entries_map(entries)[entries[i].hash@] == entries[i]@,
{
    let keys = keys_of(entries);
    assert(keys[i] == entries[i].hash@);
    assert(keys.contains(entries[i].hash@));
    let j = keys.index_of(entries[i].hash@);
    assert(keys[j] == keys[i]);
}

proof fn lemma_entries_map_push(entries: Seq<RecentBlock>, entry: RecentBlock)
    requires
        keys_of(entries).no_duplicates(),
        !keys_of(entries).contains(entry.hash@),
    ensures
        keys_of(entries.push(entry)).no_duplicates(),
        entries_map(entries.push(entry)) == entries_map(entries).insert(entry.hash@, entry@),
{
    let longer = entries.push(entry);
    assert(keys_of(longer) =~= keys_of(entries).push(entry.hash@));
    assert(keys_of(longer).no_duplicates());
    let a = entries_map(longer);
    let b = entries_map(entries).insert(entry.hash@, entry@);
    assert forall|h: Seq<char>| a.dom().contains(h) <==> b.dom().contains(h) by {
        if keys_of(longer).contains(h) {
            let i = choose|i: int| 0 <= i < longer.len() && keys_of(longer)[i] == h;
            if i < entries.len() {
                assert(keys_of(entries)[i] == h);
            }
        }
        if keys_of(entries).contains(h) {
            let i = choose|i: int| 0 <= i < entries.len() && keys_of(entries)[i] == h;
            assert(keys_of(longer)[i] == h);
        }
        if h == entry.hash@ {
            assert(keys_of(longer)[entries.len() as int] == h);
        }
    }
    assert forall|h: Seq<char>| a.dom().contains(h) implies a[h] == b[h] by {
        let i = choose|i: int| 0 <= i < longer.len() && keys_of(longer)[i] == h;
        lemma_entries_map_at(longer, i);
        if i < entries.len() {
            assert(keys_of(entries)[i] == h);
            lemma_entries_map_at(entries, i);
        }
    }
    assert(a =~= b);
}

proof fn lemma_entries_map_remove(entries: Seq<RecentBlock>, at: int)
    requires
        keys_of(entries).no_duplicates(),
        0 <= at < entries.len(),
    ensures
        keys_of(entries.remove(at)).no_duplicates(),
        !keys_of(entries.remove(at)).contains(entries[at].hash@),
        entries_map(entries.remove(at)) == entries_map(entries).remove(entries[at].hash@),
{
    let shorter = entries.remove(at);
    let gone = entries[at].hash@;
    assert(keys_of(shorter) =~= keys_of(entries).remove(at));
    assert forall|i: int| 0 <= i < shorter.len() implies keys_of(shorter)[i] != gone by {
        let k = if i < at {
            i
        } else {
            i + 1
        };
        assert(keys_of(shorter)[i] == keys_of(entries)[k]);
        assert(keys_of(entries)[at] == gone);
    }
    assert forall|i: int, j: int|
        0 <= i < shorter.len() && 0 <= j < shorter.len() && i != j implies keys_of(shorter)[i]
        != keys_of(shorter)[j] by {
        let ki = if i < at {
            i
        } else {
            i + 1
        };
        let kj = if j < at {
            j
        } else {
            j + 1
        };
        assert(keys_of(shorter)[i] == keys_of(entries)[ki]);
        assert(keys_of(shorter)[j] == keys_of(entries)[kj]);
    }
    let a = entries_map(shorter);
    let b = entries_map(entries).remove(gone);
    assert forall|h: Seq<char>| a.dom().contains(h) <==> b.dom().contains(h) by {
        if keys_of(shorter).contains(h) {
            let i = choose|i: int| 0 <= i < shorter.len() && keys_of(shorter)[i] == h;
            let k = if i < at {
                i
            } else {
                i + 1
            };
            assert(keys_of(entries)[k] == h);
        }
        if keys_of(entries).contains(h) && h != gone {
            let k = choose|k: int| 0 <= k < entries.len() && keys_of(entries)[k] == h;
            assert(keys_of(entries)[at] == gone);
            let i = if k < at {
                k
            } else {
                k - 1
            };
            assert(keys_of(shorter)[i] == h);
        }
    }
    assert forall|h: Seq<char>| a.dom().contains(h) implies a[h] == b[h] by {
        let i = choose|i: int| 0 <= i < shorter.len() && keys_of(shorter)[i] == h;
        let k = if i < at {
            i
        } else {
            i + 1
        };
        lemma_entries_map_at(shorter, i);
        assert(keys_of(entries)[k] == h);
        lemma_entries_map_at(entries, k);
    }
    assert(a =~= b);
}

impl View for RecentCache {
    type V = RecentCacheView;

    closed spec fn view(&self) -> RecentCacheView {
        RecentCacheView {
            limit: self.limit as nat,
            entries: entries_map(self.entries@),
            queue: Seq::new(self.queue@.len(), |i: int| self.queue@[i]@),
        }
    }
}

impl RecentCache {
    /// The representation is sound: no two entries share a hash, each entry
    /// is sound, and the view is well-formed.
    pub closed spec fn wf(&self) -> bool {
        &&& keys_of(self.entries@).no_duplicates()
        &&& forall|i: int| 0 <= i < self.entries@.len() ==> (#[trigger] self.entries@[i]).wf()
        &&& self@.wf()
    }

    /// A well-formed cache has a well-formed view.
    pub proof fn lemma_view_wf(&self)
        requires
            self.wf(),
        ensures
            self@.wf(),
    {
    }

    /// An empty cache that holds up to `limit` recent tips.
    pub fn new(limit: usize) -> (cache: Self)
        requires
            limit >= 1,
        ensures
            cache.wf(),
            cache@.limit == limit,
            cache@.entries == Map::<Seq<char>, RecentView>::empty(),
            cache@.queue == Seq::<Seq<char>>::empty(),
    {
        let cache = RecentCache { limit, entries: Vec::new(), queue: VecDeque::new() };
        assert(cache@.entries =~= Map::<Seq<char>, RecentView>::empty());
        assert(cache@.queue =~= Seq::<Seq<char>>::empty());
        cache
    }

    /// The number of recent tips that the cache holds at most.
    pub fn limit(&self) -> (limit: usize)
        ensures
            limit == self@.limit,
    {
        self.limit
    }

    /// Where the entry of `hash` stands in the list, if it has one.
    fn position(&self, hash: &String) -> (at: Option<usize>)
        ensures
            match at {
                Some(i) => i < self.entries@.len() && self.entries@[i as int].hash@ == hash@,
                None => !keys_of(self.entries@).contains(hash@),
            },
    {
        let mut i: usize = 0;
        while i < self.entries.len()
            invariant
                i <= self.entries.len(),
                forall|j: int| 0 <= j < i ==> keys_of(self.entries@)[j] != hash@,
            decreases self.entries.len() - i,
        {
            if self.entries[i].hash == *hash {
                return Some(i);
            }
            i = i + 1;
        }
        None
    }

    /// The entry of `hash`, if the cache has one.
    pub fn get(&self, hash: &String) -> (found: Option<&RecentBlock>)
        requires
            self.wf(),
        ensures
            match found {
                Some(entry) => {
                    &&& self@.entries.dom().contains(hash@)
                    &&& entry@ == self@.entries[hash@]
                    &&& entry.wf()
                },
                None => !self@.entries.dom().contains(hash@),
            },
    {
        match self.position(hash) {
            Some(i) => {
                proof {
                    lemma_entries_map_at(self.entries@, i as int);
                }
                Some(&self.entries[i])
            },
            None => None,
        }
    }

    /// Removes the entry of `hash`, if there is one.
    fn forget(&mut self, hash: &String)
        requires
            keys_of(old(self).entries@).no_duplicates(),
            forall|i: int|
                0 <= i < old(self).entries@.len() ==> (#[trigger] old(self).entries@[i]).wf(),
        ensures
            keys_of(final(self).entries@).no_duplicates(),
            forall|i: int|
                0 <= i < final(self).entries@.len() ==> (#[trigger] final(self).entries@[i]).wf(),
            !keys_of(final(self).entries@).contains(hash@),
            entries_map(final(self).entries@) == entries_map(old(self).entries@).remove(hash@),
            final(self).queue == old(self).queue,
            final(self).limit == old(self).limit,
    {
        match self.position(hash) {
            Some(i) => {
                proof {
                    lemma_entries_map_remove(self.entries@, i as int);
                }
                let ghost before = self.entries@;
                let _ = self.entries.remove(i);
                assert forall|j: int| 0 <= j < self.entries@.len() implies (
                #[trigger] self.entries@[j]).wf() by {
                    let k = if j < i {
                        j
                    } else {
                        j + 1
                    };
                    assert(self.entries@[j] == before[k]);
                }
            },
            None => {
                assert(entries_map(self.entries@).remove(hash@) =~= entries_map(self.entries@));
            },
        }
    }

    /// Records a block that became the tip of the main chain. Where the
    /// queue is full, the oldest hash and its entry leave first.
    pub fn record(&mut self, entry: RecentBlock)
        requires
            old(self).wf(),
            entry.wf(),
        ensures
            final(self).wf(),
            final(self)@ == old(self)@.recorded(entry@),
    {
        let ghost before = self@;
        if self.queue.len() == self.limit {
            match self.queue.pop_front() {
                Some(oldest) => {
                    self.forget(&oldest);
                },
                None => {},
            }
        }
        assert(entries_map(self.entries@) == before.entries_with_room());
        assert(Seq::new(self.queue@.len(), |i: int| self.queue@[i]@) =~= before.queue_with_room());
        self.forget(&entry.hash);
        assert(entries_map(self.entries@).insert(entry.hash@, entry@)
            =~= before.entries_with_room().insert(entry.hash@, entry@));
        proof {
            lemma_entries_map_push(self.entries@, entry);
        }
        self.queue.push_back(entry.hash.clone());
        let ghost rest = self.entries@;
        self.entries.push(entry);
        proof {
            assert(self@.queue =~= before.queue_with_room().push(entry.hash@));
            assert forall|i: int| 0 <= i < self.entries@.len() implies (
            #[trigger] self.entries@[i]).wf() by {
                if i < rest.len() {
                    assert(self.entries@[i] == rest[i]);
                }
            }
            lemma_recorded_wf(before, entry@);
        }
    }

    /// The queued hashes whose entry lies above `height`.
    pub fn later_than(&self, height: u64) -> (later: Hashes)
        requires
            self.wf(),
        ensures
            later.wf(),
            later@ == self@.later_than(height),
    {
        let mut later = Hashes::new();
        let mut i: usize = 0;
        while i < self.queue.len()
            invariant
                i <= self.queue.len(),
                self.wf(),
                later.wf(),
                forall|h: Seq<char>|
                    later@.contains(h) <==> (self@.queue.take(i as int).contains(h)
                        && self@.entries.dom().contains(h) && self@.entries[h].height > height),
            decreases self.queue.len() - i,
        {
            let hash = &self.queue[i];
            let ghost prev = later@;
            proof {
                let next = self@.queue.take(i + 1);
                assert(next =~= self@.queue.take(i as int).push(hash@));
                assert forall|h: Seq<char>| next.contains(h) <==> (self@.queue.take(
                    i as int,
                ).contains(h) || h == hash@) by {
                    if next.contains(h) {
                        let j = choose|j: int| 0 <= j < next.len() && next[j] == h;
                        if j < i {
                            assert(self@.queue.take(i as int)[j] == h);
                        }
                    }
                    if self@.queue.take(i as int).contains(h) {
                        let j = choose|j: int|
                            0 <= j < i && self@.queue.take(i as int)[j] == h;
                        assert(next[j] == h);
                    }
                    if h == hash@ {
                        assert(next[i as int] == h);
                    }
                }
            }
            match self.get(hash) {
                Some(entry) => {
                    if entry.height > height {
                        later.insert(hash.clone());
                    }
                },
                None => {},
            }
            proof {
                let next = self@.queue.take(i + 1);
                assert forall|h: Seq<char>| later@.contains(h) <==> (next.contains(h)
                    && self@.entries.dom().contains(h) && self@.entries[h].height > height) by {
                    assert(prev.contains(h) <==> (self@.queue.take(i as int).contains(h)
                        && self@.entries.dom().contains(h) && self@.entries[h].height > height));
                    assert(next.contains(h) <==> (self@.queue.take(i as int).contains(h) || h
                        == hash@));
                }
            }
            i = i + 1;
        }
        proof {
            assert(self@.queue.take(i as int) =~= self@.queue);
            assert(later@ =~= self@.later_than(height));
        }
        later
    }

    /// The queue of hashes, oldest first.
    pub fn queue(&self) -> (list: Vec<String>)
        ensures
            list@.len() == self@.queue.len(),
            forall|i: int| 0 <= i < list@.len() ==> list@[i]@ == self@.queue[i],
    {
        let mut list: Vec<String> = Vec::new();
        let mut i: usize = 0;
        while i < self.queue.len()
            invariant
                i <= self.queue.len(),
                list@.len() == i,
                forall|j: int| 0 <= j < i ==> list@[j]@ == self@.queue[j],
            decreases self.queue.len() - i,
        {
            list.push(self.queue[i].clone());
            i = i + 1;
        }
        list
    }

    /// The hashes that have an entry.
    pub fn keys(&self) -> (list: Vec<String>)
        requires
            self.wf(),
        ensures
            forall|h: Seq<char>|
                self@.entries.dom().contains(h) <==> exists|i: int|
                    0 <= i < list@.len() && #[trigger] list@[i]@ == h,
    {
        let mut list: Vec<String> = Vec::new();
        let mut i: usize = 0;
        while i < self.entries.len()
            invariant
                i <= self.entries.len(),
                list@.len() == i,
                forall|j: int| 0 <= j < i ==> list@[j]@ == keys_of(self.entries@)[j],
            decreases self.entries.len() - i,
        {
            list.push(self.entries[i].hash.clone());
            i = i + 1;
        }
        proof {
            assert forall|h: Seq<char>| self@.entries.dom().contains(h) <==> exists|i: int|
                0 <= i < list@.len() && #[trigger] list@[i]@ == h by {
                if self@.entries.dom().contains(h) {
                    let k = choose|k: int|
                        0 <= k < self.entries@.len() && keys_of(self.entries@)[k] == h;
                    assert(list@[k]@ == h);
                }
                if exists|i: int| 0 <= i < list@.len() && #[trigger] list@[i]@ == h {
                    let k = choose|k: int| 0 <= k < list@.len() && #[trigger] list@[k]@ == h;
                    assert(keys_of(self.entries@)[k] == h);
                }
            }
        }
        list
    }
}

} // verus!
