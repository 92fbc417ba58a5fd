use vstd::prelude::*;
use circular_queue::CircularQueue;
use vstd::utf8::encode_utf8;
use crate::codec::{has_no_sep, record_bytes, LEN_LIMIT};
use crate::depths::{
    after_push, depths_oldest_first, new_depth_queue, push_depth, queue_capacity, queued_depths,
};
use crate::replay::parse_log;
use crate::segment::FileMap;

verus! {

/// The number of writes after which the active segment is rotated.
pub const WRITE_MAX: u32 = 55;

/// How many lookup depths the store remembers.
pub const DEPTH_CAPACITY: usize = 128;

pub open spec fn digit_char(d: nat) -> char {
    seq!['0', '1', '2', '3', '4', '5', '6', '7', '8', '9'][d as int]
}

/// `n` in decimal, without leading zeros.
pub open spec fn decimal(n: nat) -> Seq<char>
    decreases n,
{
    if n < 10 {
        seq![digit_char(n)]
    } else {
        decimal(n / 10).push(digit_char(n % 10))
    }
}

/// The name of the `n`-th segment file under `prefix`: `<prefix>_<n>.dat`.
pub open spec fn segment_path(prefix: Seq<char>, n: nat) -> Seq<char> {
    prefix + seq!['_'] + decimal(n) + seq!['.', 'd', 'a', 't']
}

/// Relies on usize's ToString: the number in decimal, without leading zeros.
#[verifier::external_body]
fn decimal_string(n: usize) -> (r: String)
    ensures
        r@ == decimal(n as nat),
{
    n.to_string()
}

/// The file name of the `n`-th segment under `prefix`.
pub fn segment_file_name(prefix: &String, n: usize) -> (r: String)
    ensures
        r@ == segment_path(prefix@, n as nat),
{
    let mut name = prefix.clone();
    name.append("_");
    let digits = decimal_string(n);
    name.append(digits.as_str());
    name.append(".dat");
    proof {
        reveal_strlit("_");
        reveal_strlit(".dat");
        assert(name@ =~= segment_path(prefix@, n as nat));
    }
    name
}

/// The text of an optional string.
pub open spec fn text_of(r: Option<String>) -> Option<Seq<char>> {
    match r {
        Some(s) => Some(s@),
        None => None,
    }
}

/// What a sequence of segments maps each key to: a later segment shadows an
/// earlier one.
pub open spec fn merged(files: Seq<FileMap>) -> Map<Seq<char>, Seq<char>>
    decreases files.len(),
{
    if files.len() == 0 {
        Map::empty()
    } else {
        merged(files.drop_last()).union_prefer_right(files.last()@)
    }
}

/// How many segments a lookup of `k` examines, newest first: up to and
/// including the first that holds it, or all of them.
pub open spec fn depth_of(files: Seq<FileMap>, k: Seq<char>) -> nat
    decreases files.len(),
{
    if files.len() == 0 {
        0
    } else if files.last()@.contains_key(k) {
        1
    } else {
        1 + depth_of(files.drop_last(), k)
    }
}

/// Segments from `m` on that miss `k` change neither its lookup nor, but for
/// their count, its depth.
pub proof fn lemma_suffix_miss(files: Seq<FileMap>, m: int, k: Seq<char>)
    requires
        0 <= m <= files.len(),
        forall|j: int| m <= j < files.len() ==> !(#[trigger] files[j]@).contains_key(k),
    ensures
        merged(files).contains_key(k) == merged(files.take(m)).contains_key(k),
        merged(files.take(m)).contains_key(k) ==> merged(files)[k] == merged(files.take(m))[k],
        depth_of(files, k) == (files.len() - m) + depth_of(files.take(m), k),
    decreases files.len(),
{
    if m < files.len() {
        let prev = files.drop_last();
        assert(!files[files.len() - 1]@.contains_key(k));
        assert forall|j: int| m <= j < prev.len() implies !(#[trigger] prev[j]@).contains_key(k) by {
            assert(prev[j] == files[j]);
        }
        lemma_suffix_miss(prev, m, k);
        assert(prev.take(m) =~= files.take(m));
    } else {
        assert(files.take(m) =~= files);
    }
}

/// An ordered run of segments, the last of them active, with a rotation
/// threshold and a bounded history of lookup depths.
pub struct KeyValMap {
    pub storage_dir: String,
    pub files: Vec<FileMap>,
    pub file_write_max: u32,
    pub read_depths: CircularQueue<usize>,
}

impl View for KeyValMap {
    type V = Map<Seq<char>, Seq<char>>;

    open spec fn view(&self) -> Map<Seq<char>, Seq<char>> {
        merged(self.files@)
    }
}

impl KeyValMap {
    pub open spec fn wf(&self) -> bool {
        &&& 1 <= self.files@.len() <= usize::MAX
        &&& self.file_write_max > 0
        &&& queue_capacity(self.read_depths) == DEPTH_CAPACITY
        &&& forall|i: int| 0 <= i < self.files@.len() ==> (#[trigger] self.files@[i]).wf()
        &&& forall|i: int|
            0 <= i < self.files@.len() ==> (#[trigger] self.files@[i]).path@ == segment_path(
                self.storage_dir@,
                (i + 1) as nat,
            )
    }

    /// The active segment.
    pub open spec fn active(&self) -> FileMap {
        self.files@.last()
    }

    /// What a get of `k` returns.
    pub open spec fn lookup(&self, k: Seq<char>) -> Option<Seq<char>> {
        if self@.contains_key(k) {
            Some(self@[k])
        } else {
            None
        }
    }

    /// Whether the next write goes to a fresh segment.
    pub open spec fn rotates(&self) -> bool {
        self.active().writes >= self.file_write_max
    }

    /// Whether `add` can store `key` and `value`.
    pub open spec fn can_add(&self, key: Seq<char>, value: Seq<char>) -> bool {
        &&& has_no_sep(encode_utf8(key))
        &&& encode_utf8(value).len() < LEN_LIMIT
        &&& self.files@.len() < usize::MAX
        &&& (if self.rotates() {
            0
        } else {
            self.active().data@.len()
        }) + FileMap::record_len(key, value) <= usize::MAX
    }

    /// The samples of lookup depth, oldest first.
    pub open spec fn depth_history(&self) -> Seq<usize> {
        queued_depths(self.read_depths)
    }

    /// A store under `new_storage_dir` with one empty segment, `<dir>_1.dat`.
    pub fn new(new_storage_dir: String) -> (r: KeyValMap)
        ensures
            r.wf(),
            r@ == Map::<Seq<char>, Seq<char>>::empty(),
            r.storage_dir == new_storage_dir,
            r.files@.len() == 1,
            r.files@[0].data@.len() == 0,
            r.files@[0].writes == 0,
            r.file_write_max == WRITE_MAX,
            r.depth_history() == Seq::<usize>::empty(),
            queue_capacity(r.read_depths) == DEPTH_CAPACITY,
    {
        let first_map = FileMap::new(segment_file_name(&new_storage_dir, 1));
        let mut files: Vec<FileMap> = Vec::new();
        files.push(first_map);
        let r = KeyValMap {
            storage_dir: new_storage_dir,
            files,
            file_write_max: WRITE_MAX,
            read_depths: new_depth_queue(DEPTH_CAPACITY),
        };
        proof {
            assert(r.files@.drop_last() =~= Seq::<FileMap>::empty());
            assert(r.files@.last()@ =~= Map::<Seq<char>, Seq<char>>::empty());
            assert(merged(r.files@.drop_last()) == Map::<Seq<char>, Seq<char>>::empty());
            assert(r@ =~= Map::<Seq<char>, Seq<char>>::empty());
        }
        r
    }

    /// Reopens the store under `old_storage_dir` from the bytes of its segment
    /// files, in creation order, replaying each; with no files it starts with
    /// one empty segment.
    pub fn rebuild(old_storage_dir: String, segments: Vec<Vec<u8>>) -> (r: KeyValMap)
        ensures
            r.wf(),
            r.storage_dir == old_storage_dir,
            r.files@.len() == if segments@.len() == 0 {
                1
            } else {
                segments@.len()
            },
            forall|i: int|
                0 <= i < segments@.len() ==> (#[trigger] r.files@[i]).log@ == parse_log(
                    segments@[i]@,
                    0,
                ),
            segments@.len() == 0 ==> r@ == Map::<Seq<char>, Seq<char>>::empty(),
            r.file_write_max == WRITE_MAX,
            r.depth_history() == Seq::<usize>::empty(),
            queue_capacity(r.read_depths) == DEPTH_CAPACITY,
    {
        if segments.len() == 0 {
            return KeyValMap::new(old_storage_dir);
        }
        let mut files: Vec<FileMap> = Vec::new();
        let mut i: usize = 0;
        while i < segments.len()
            invariant
                i <= segments@.len(),
                files@.len() == i,
                forall|j: int| 0 <= j < i ==> (#[trigger] files@[j]).wf(),
                forall|j: int|
                    0 <= j < i ==> (#[trigger] files@[j]).path@ == segment_path(
                        old_storage_dir@,
                        (j + 1) as nat,
                    ),
                forall|j: int|
                    0 <= j < i ==> (#[trigger] files@[j]).log@ == parse_log(segments@[j]@, 0),
            decreases segments@.len() - i,
        {
            let bytes = segments[i].clone();
            assert(bytes@ =~= segments@[i as int]@);
            let seg = FileMap::rebuild(segment_file_name(&old_storage_dir, i + 1), bytes);
            files.push(seg);
            i = i + 1;
        }
        KeyValMap {
            storage_dir: old_storage_dir,
            files,
            file_write_max: WRITE_MAX,
            read_depths: new_depth_queue(DEPTH_CAPACITY),
        }
    }

    /// Whether the next write goes to a fresh segment.
    pub fn next_put_rotates(&self) -> (r: bool)
        requires
            self.wf(),
        ensures
            r == self.rotates(),
    {
        self.files[self.files.len() - 1].writes >= self.file_write_max
    }

    /// The file name of the segment that a rotation would open next.
    pub fn next_segment_path(&self) -> (r: String)
        requires
            self.wf(),
            self.files@.len() < usize::MAX,
        ensures
            r@ == segment_path(self.storage_dir@, self.files@.len() + 1),
    {
        segment_file_name(&self.storage_dir, self.files.len() + 1)
    }

    /// Stores `value` under `key` in the active segment, first opening a new
    /// segment when the active one has reached the threshold; returns the
    /// bytes appended to the active segment.
    pub fn add(&mut self, key: String, value: String) -> (r: Vec<u8>)
        requires
            old(self).wf(),
            old(self).can_add(key@, value@),
        ensures
            final(self).wf(),
            final(self)@ == old(self)@.insert(key@, value@),
            r@ == record_bytes(encode_utf8(key@), encode_utf8(value@)),
            final(self).active().data@ == if old(self).rotates() {
                r@
            } else {
                old(self).active().data@ + r@
            },
            final(self).active().writes == if old(self).rotates() {
                1
            } else {
                old(self).active().writes + 1
            },
            final(self).active()@ == if old(self).rotates() {
                Map::<Seq<char>, Seq<char>>::empty().insert(key@, value@)
            } else {
                old(self).active()@.insert(key@, value@)
            },
            final(self).files@.drop_last() == if old(self).rotates() {
                old(self).files@
            } else {
                old(self).files@.drop_last()
            },
            final(self).storage_dir == old(self).storage_dir,
            final(self).file_write_max == old(self).file_write_max,
            final(self).read_depths == old(self).read_depths,
    {
        let n = self.files.len();
        let ghost old_files = self.files@;
        if self.files[n - 1].writes >= self.file_write_max {
            let new_file = FileMap::new(segment_file_name(&self.storage_dir, n + 1));
            self.files.push(new_file);
            proof {
                assert(self.files@.drop_last() == old_files);
                assert(merged(self.files@) =~= merged(old_files));
            }
        }
        let ghost mid_files = self.files@;
        let ghost mid_view = merged(mid_files);
        let mut active = self.files.pop().unwrap();
        proof {
            assert(mid_files.drop_last() == self.files@);
            assert(mid_files.last() == active);
        }
        let r = active.add(key, value);
        self.files.push(active);
        proof {
            assert(self.files@.drop_last() == mid_files.drop_last());
            assert(self.files@.last() == active);
            assert(merged(self.files@) =~= mid_view.insert(key@, value@));
            assert forall|i: int| 0 <= i < self.files@.len() implies (#[trigger] self.files@[i]).wf()
                && self.files@[i].path@ == segment_path(self.storage_dir@, (i + 1) as nat) by {
                if i < self.files@.len() - 1 {
                    assert(self.files@[i] == mid_files[i]);
                    if i < old_files.len() {
                        assert(mid_files[i] == old_files[i]);
                    }
                }
            }
        }
        r
    }

    /// The value last stored under `key`, looking through the segments newest
    /// first; records how many segments were examined.
    pub fn get(&mut self, key: String) -> (r: Option<String>)
        requires
            old(self).wf(),
        ensures
            final(self).wf(),
            text_of(r) == old(self).lookup(key@),
            final(self).depth_history() == after_push(
                old(self).depth_history(),
                queue_capacity(old(self).read_depths),
                depth_of(old(self).files@, key@) as usize,
            ),
            queue_capacity(final(self).read_depths) == queue_capacity(old(self).read_depths),
            final(self).files == old(self).files,
            final(self).storage_dir == old(self).storage_dir,
            final(self).file_write_max == old(self).file_write_max,
    {
        let length = self.files.len();
        let mut unseen: usize = length;
        while unseen > 0
            invariant
                self == old(self),
                self.wf(),
                length == self.files@.len(),
                unseen <= length,
                forall|j: int|
                    unseen <= j < length ==> !(#[trigger] self.files@[j]@).contains_key(key@),
            decreases unseen,
        {
            let idx = unseen - 1;
            match self.files[idx].get(key.clone()) {
                Some(val) => {
                    proof {
                        let files = self.files@;
                        lemma_suffix_miss(files, unseen as int, key@);
                        let t = files.take(unseen as int);
                        assert(t.last() == files[idx as int]);
                        assert(t.drop_last() =~= files.take(idx as int));
                    }
                    push_depth(&mut self.read_depths, length - idx);
                    return Some(val);
                },
                None => {
                    unseen = idx;
                },
            }
        }
        proof {
            lemma_suffix_miss(self.files@, 0, key@);
            assert(self.files@.take(0) =~= Seq::<FileMap>::empty());
        }
        push_depth(&mut self.read_depths, length);
        None
    }

    /// The lookup depths recorded so far, oldest first.
    pub fn depths(&self) -> (r: Vec<usize>)
        ensures
            r@ == self.depth_history(),
    {
        depths_oldest_first(&self.read_depths)
    }
}

} // verus!
