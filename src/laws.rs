use vstd::prelude::*;
use crate::depths::{after_push, queue_capacity};
use crate::replay::{lemma_replay_round_trip, parse_log};
use crate::segment::FileMap;
use crate::store::{depth_of, lemma_suffix_miss, merged, KeyValMap, DEPTH_CAPACITY};

verus! {

/// After a put of `v` under `k` (`t@ == s@.insert(k, v)`, as `add` ensures), a
/// get of `k` returns `v`.
pub proof fn law_put_then_get(s: KeyValMap, t: KeyValMap, k: Seq<char>, v: Seq<char>)
    requires
        t@ == s@.insert(k, v),
    ensures
        t.lookup(k) == Some(v),
{
}

/// A put under `k` leaves what a get of every other key returns.
pub proof fn law_put_keeps_other_keys(
    s: KeyValMap,
    t: KeyValMap,
    k: Seq<char>,
    v: Seq<char>,
    k2: Seq<char>,
)
    requires
        t@ == s@.insert(k, v),
        k2 != k,
    ensures
        t.lookup(k2) == s.lookup(k2),
{
}

/// Of two puts under one key, a get returns the second value.
pub proof fn law_last_write_wins(
    s: KeyValMap,
    t: KeyValMap,
    u: KeyValMap,
    k: Seq<char>,
    v1: Seq<char>,
    v2: Seq<char>,
)
    requires
        t@ == s@.insert(k, v1),
        u@ == t@.insert(k, v2),
    ensures
        u.lookup(k) == Some(v2),
{
}

/// A key that no segment holds is absent, and its lookup examines every
/// segment.
pub proof fn law_never_written(s: KeyValMap, k: Seq<char>)
    requires
        forall|i: int| 0 <= i < s.files@.len() ==> !(#[trigger] s.files@[i]@).contains_key(k),
    ensures
        s.lookup(k) == None::<Seq<char>>,
        depth_of(s.files@, k) == s.files@.len(),
{
    lemma_suffix_miss(s.files@, 0, k);
    assert(s.files@.take(0) =~= Seq::<FileMap>::empty());
}

proof fn lemma_miss_depth(files: Seq<FileMap>, k: Seq<char>)
    requires
        !merged(files).contains_key(k),
    ensures
        depth_of(files, k) == files.len(),
    decreases files.len(),
{
    if files.len() > 0 {
        assert(!files.last()@.contains_key(k));
        lemma_miss_depth(files.drop_last(), k);
    }
}

proof fn lemma_last_sample(s: KeyValMap, t: KeyValMap, d: usize)
    requires
        s.wf(),
        t.depth_history() == after_push(s.depth_history(), queue_capacity(s.read_depths), d),
    ensures
        t.depth_history().len() > 0,
        t.depth_history().last() == d,
{
}

/// A get that misses (`t` being the store after it, as `get` ensures) records
/// as its depth the number of segments.
pub proof fn law_miss_depth(s: KeyValMap, t: KeyValMap, k: Seq<char>)
    requires
        s.wf(),
        s.lookup(k) is None,
        t.depth_history() == after_push(
            s.depth_history(),
            queue_capacity(s.read_depths),
            depth_of(s.files@, k) as usize,
        ),
    ensures
        t.depth_history().last() == s.files@.len(),
{
    lemma_miss_depth(s.files@, k);
    lemma_last_sample(s, t, depth_of(s.files@, k) as usize);
}

/// A key that the active segment holds is found there, whatever older
/// segments hold, and the get records depth one.
pub proof fn law_newest_segment_wins(s: KeyValMap, t: KeyValMap, k: Seq<char>)
    requires
        s.wf(),
        s.active()@.contains_key(k),
        t.depth_history() == after_push(
            s.depth_history(),
            queue_capacity(s.read_depths),
            depth_of(s.files@, k) as usize,
        ),
    ensures
        s.lookup(k) == Some(s.active()@[k]),
        t.depth_history().last() == 1,
{
    lemma_last_sample(s, t, depth_of(s.files@, k) as usize);
}

/// A put (`t` being the store after it, as `add` ensures) opens a new segment
/// exactly when the active one has reached the threshold, and the put lands in
/// the active segment; the segments before stay as they were.
pub proof fn law_rotation(s: KeyValMap, t: KeyValMap, k: Seq<char>, v: Seq<char>)
    requires
        s.wf(),
        t.wf(),
        t.files@.drop_last() == if s.rotates() {
            s.files@
        } else {
            s.files@.drop_last()
        },
        t.active()@ == if s.rotates() {
            Map::<Seq<char>, Seq<char>>::empty().insert(k, v)
        } else {
            s.active()@.insert(k, v)
        },
        t.active().writes == if s.rotates() {
            1
        } else {
            s.active().writes + 1
        },
    ensures
        s.active().writes >= s.file_write_max ==> {
            &&& t.files@.len() == s.files@.len() + 1
            &&& t.active().writes == 1
            &&& t.active()@ == Map::<Seq<char>, Seq<char>>::empty().insert(k, v)
        },
        s.active().writes < s.file_write_max ==> {
            &&& t.files@.len() == s.files@.len()
            &&& t.active().writes == s.active().writes + 1
            &&& t.active()@ == s.active()@.insert(k, v)
        },
        forall|i: int| 0 <= i < s.files@.len() - 1 ==> #[trigger] t.files@[i] == s.files@[i],
{
    assert(t.files@.drop_last().len() == t.files@.len() - 1);
    assert forall|i: int| 0 <= i < s.files@.len() - 1 implies #[trigger] t.files@[i]
        == s.files@[i] by {
        assert(t.files@[i] == t.files@.drop_last()[i]);
        if !s.rotates() {
            assert(s.files@[i] == s.files@.drop_last()[i]);
        }
    }
}

/// Replaying the bytes of a segment gives back its records.
pub proof fn law_segment_replay(f: FileMap)
    requires
        f.wf(),
    ensures
        parse_log(f.data@, 0) == f.log@,
{
    lemma_replay_round_trip(f.log@);
}

/// A store rebuilt from the bytes of another's segments answers every get as
/// that store did.
pub proof fn law_store_reopen(s: KeyValMap, r: KeyValMap)
    requires
        s.wf(),
        r.files@.len() == s.files@.len(),
        forall|i: int|
            0 <= i < s.files@.len() ==> (#[trigger] r.files@[i]).log@ == parse_log(
                s.files@[i].data@,
                0,
            ),
    ensures
        forall|k: Seq<char>| #[trigger] r.lookup(k) == s.lookup(k),
{
    assert forall|i: int| 0 <= i < s.files@.len() implies (#[trigger] r.files@[i])@
        == s.files@[i]@ by {
        law_segment_replay(s.files@[i]);
    }
    lemma_merged_same_views(r.files@, s.files@);
}

proof fn lemma_merged_same_views(a: Seq<FileMap>, b: Seq<FileMap>)
    requires
        a.len() == b.len(),
        forall|i: int| 0 <= i < a.len() ==> (#[trigger] a[i])@ == b[i]@,
    ensures
        merged(a) == merged(b),
    decreases a.len(),
{
    if a.len() > 0 {
        let (a2, b2) = (a.drop_last(), b.drop_last());
        assert forall|i: int| 0 <= i < a2.len() implies (#[trigger] a2[i])@ == b2[i]@ by {
            assert(a2[i] == a[i] && b2[i] == b[i]);
        }
        lemma_merged_same_views(a2, b2);
        assert(a.last()@ == b.last()@);
    }
}

} // verus!
