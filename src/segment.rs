use vstd::prelude::*;
use vstd::string::StrSliceExecFns;
use vstd::utf8::{decode_utf8, encode_utf8, encode_utf8_decode_utf8, encode_utf8_valid_utf8, valid_utf8};
use vstd::slice::{slice_subrange, slice_to_vec};
use crate::replay::{
    lemma_digits_value_bound, lemma_record_at_bytes, lemma_sep_index_found, parse_log, record_at,
    sep_index,
};
use crate::codec::{
    lemma_pow10_width, length_field, LEN_WIDTH, SEP,
    decode_value, encode_record, has_no_sep, header_len, lemma_decode_record,
    lemma_value_at_extend, record_bytes, value_at, DecodeError, LEN_LIMIT,
};

verus! {

/// One record of a log, as key bytes and value bytes.
pub type Entry = (Seq<u8>, Seq<u8>);

/// A record that a segment can hold: a key free of the separator and a value
/// whose length fits the length field and whose bytes are UTF-8.
pub open spec fn valid_record(k: Seq<u8>, v: Seq<u8>) -> bool {
    has_no_sep(k) && v.len() < LEN_LIMIT && valid_utf8(v)
}

pub open spec fn valid_log(log: Seq<Entry>) -> bool {
    forall|i: int| 0 <= i < log.len() ==> valid_record(#[trigger] log[i].0, log[i].1)
}

/// The bytes of a log: its records one after the other.
pub open spec fn log_bytes(log: Seq<Entry>) -> Seq<u8>
    decreases log.len(),
{
    if log.len() == 0 {
        seq![]
    } else {
        log_bytes(log.drop_last()) + record_bytes(log.last().0, log.last().1)
    }
}

/// Where the latest record of each key starts.
pub open spec fn log_offsets(log: Seq<Entry>) -> Map<Seq<u8>, int>
    decreases log.len(),
{
    if log.len() == 0 {
        Map::empty()
    } else {
        log_offsets(log.drop_last()).insert(log.last().0, log_bytes(log.drop_last()).len() as int)
    }
}

/// The latest value written for each key.
pub open spec fn log_values(log: Seq<Entry>) -> Map<Seq<u8>, Seq<u8>>
    decreases log.len(),
{
    if log.len() == 0 {
        Map::empty()
    } else {
        log_values(log.drop_last()).insert(log.last().0, log.last().1)
    }
}

/// A byte-level key-value map read as text: keys and values are the
/// characters whose UTF-8 encodings are stored.
pub open spec fn text_map(m: Map<Seq<u8>, Seq<u8>>) -> Map<Seq<char>, Seq<char>> {
    Map::new(
        |k: Seq<char>| m.contains_key(encode_utf8(k)),
        |k: Seq<char>| decode_utf8(m[encode_utf8(k)]),
    )
}

/// Each indexed key's record decodes, at its offset, to the key's latest value.
pub proof fn lemma_log_index_sound(log: Seq<Entry>)
    requires
        valid_log(log),
    ensures
        log_offsets(log).dom() == log_values(log).dom(),
        forall|k: Seq<u8>| #[trigger]
            log_offsets(log).contains_key(k) ==> 0 <= log_offsets(log)[k] && value_at(
                log_bytes(log),
                log_offsets(log)[k],
                k.len() as int,
            ) == Ok::<Seq<u8>, DecodeError>(log_values(log)[k]),
    decreases log.len(),
{
    if log.len() > 0 {
        let prev = log.drop_last();
        assert forall|i: int| 0 <= i < prev.len() implies valid_record(
            #[trigger] prev[i].0,
            prev[i].1,
        ) by {
            assert(prev[i] == log[i]);
        }
        lemma_log_index_sound(prev);
        let (k, v) = log.last();
        assert(valid_record(log[log.len() - 1].0, log[log.len() - 1].1));
        let pb = log_bytes(prev);
        let r = record_bytes(k, v);
        assert((pb + r).subrange(pb.len() as int, (pb.len() + r.len()) as int) =~= r);
        lemma_decode_record(pb + r, pb.len() as int, k, v);
        assert forall|k2: Seq<u8>| #[trigger]
            log_offsets(log).contains_key(k2) implies 0 <= log_offsets(log)[k2] && value_at(
                log_bytes(log),
                log_offsets(log)[k2],
                k2.len() as int,
            ) == Ok::<Seq<u8>, DecodeError>(log_values(log)[k2]) by {
            if k2 != k {
                assert(log_offsets(prev).contains_key(k2));
                lemma_value_at_extend(pb, r, log_offsets(prev)[k2], k2.len() as int);
            }
        }
        assert(log_offsets(log).dom() =~= log_values(log).dom());
    }
}

/// The position of one key's latest record in a segment.
pub struct IndexEntry {
    pub key: Vec<u8>,
    pub offset: u64,
}

/// One append-only log: its bytes, an index from each key to the start of its
/// latest record, the number of writes and the append cursor.
pub struct FileMap {
    pub path: String,
    pub data: Vec<u8>,
    pub index: Vec<IndexEntry>,
    pub writes: u32,
    pub end: u64,
    /// The records that make up `data`, oldest first.
    pub log: Ghost<Seq<Entry>>,
}

impl View for FileMap {
    type V = Map<Seq<char>, Seq<char>>;

    open spec fn view(&self) -> Map<Seq<char>, Seq<char>> {
        text_map(log_values(self.log@))
    }
}

/// Relies on String::from_utf8: it succeeds exactly on valid UTF-8 and then
/// holds the characters that the bytes encode.
#[verifier::external_body]
fn string_from_utf8(bytes: &[u8]) -> (r: Option<String>)
    ensures
        r is Some <==> valid_utf8(bytes@),
        r is Some ==> r->0@ == decode_utf8(bytes@),
{
    String::from_utf8(bytes.to_vec()).ok()
}

/// Whether two byte strings are equal.
fn bytes_eq(a: &[u8], b: &[u8]) -> (r: bool)
    ensures
        r == (a@ == b@),
{
    if a.len() != b.len() {
        return false;
    }
    let mut i: usize = 0;
    while i < a.len()
        invariant
            i <= a@.len() == b@.len(),
            a@.subrange(0, i as int) == b@.subrange(0, i as int),
        decreases a@.len() - i,
    {
        if a[i] != b[i] {
            return false;
        }
        proof {
            assert(a@.subrange(0, i + 1) =~= a@.subrange(0, i as int).push(a[i as int]));
            assert(b@.subrange(0, i + 1) =~= b@.subrange(0, i as int).push(b[i as int]));
        }
        i = i + 1;
    }
    proof {
        assert(a@ =~= a@.subrange(0, i as int));
        assert(b@ =~= b@.subrange(0, i as int));
    }
    true
}

pub proof fn lemma_encode_injective(a: Seq<char>, b: Seq<char>)
    ensures
        encode_utf8(a) == encode_utf8(b) ==> a == b,
{
    encode_utf8_decode_utf8(a);
    encode_utf8_decode_utf8(b);
}

/// The number of bytes that a log takes.
pub open spec fn log_len(log: Seq<Entry>) -> int {
    log_bytes(log).len() as int
}

impl FileMap {
    pub open spec fn wf(&self) -> bool {
        &&& valid_log(self.log@)
        &&& self.data@ == log_bytes(self.log@)
        &&& self.end == self.data@.len()
        &&& forall|i: int, j: int|
            0 <= i < j < self.index@.len() ==> self.index@[i].key@ != self.index@[j].key@
        &&& forall|i: int|
            0 <= i < self.index@.len() ==> {
                &&& #[trigger] log_offsets(self.log@).contains_key(self.index@[i].key@)
                &&& log_offsets(self.log@)[self.index@[i].key@] == self.index@[i].offset
            }
        &&& forall|k: Seq<u8>| #[trigger]
            log_offsets(self.log@).contains_key(k) ==> exists|i: int|
                0 <= i < self.index@.len() && #[trigger] self.index@[i].key@ == k
    }

    /// The number of bytes that a record of `key` and `value` takes.
    pub open spec fn record_len(key: Seq<char>, value: Seq<char>) -> nat {
        header_len(encode_utf8(key).len()) + encode_utf8(value).len()
    }

    /// Whether `add` can append a record of `key` and `value`.
    pub open spec fn can_add(&self, key: Seq<char>, value: Seq<char>) -> bool {
        &&& has_no_sep(encode_utf8(key))
        &&& encode_utf8(value).len() < LEN_LIMIT
        &&& self.writes < u32::MAX
        &&& self.data@.len() + Self::record_len(key, value) <= usize::MAX
    }

    /// An empty segment for the log file at `path`.
    pub fn new(path: String) -> (r: FileMap)
        ensures
            r.wf(),
            r@ == Map::<Seq<char>, Seq<char>>::empty(),
            r.path == path,
            r.data@.len() == 0,
            r.writes == 0,
    {
        let r = FileMap {
            path,
            data: Vec::new(),
            index: Vec::new(),
            writes: 0,
            end: 0,
            log: Ghost(Seq::empty()),
        };
        assert(r@ =~= Map::<Seq<char>, Seq<char>>::empty());
        r
    }

    /// Where the index holds `key`, if it does.
    fn find(&self, key: &[u8]) -> (r: Option<usize>)
        ensures
            match r {
                Some(i) => i < self.index@.len() && self.index@[i as int].key@ == key@,
                None => forall|i: int|
                    0 <= i < self.index@.len() ==> #[trigger] self.index@[i].key@ != key@,
            },
    {
        let mut i: usize = 0;
        while i < self.index.len()
            invariant
                i <= self.index@.len(),
                forall|j: int| 0 <= j < i ==> #[trigger] self.index@[j].key@ != key@,
            decreases self.index@.len() - i,
        {
            if bytes_eq(self.index[i].key.as_slice(), key) {
                return Some(i);
            }
            i = i + 1;
        }
        None
    }

    /// Appends the record of `k` and `v` and points the key's index entry at it.
    fn append_record(&mut self, k: Vec<u8>, v: &[u8]) -> (r: Vec<u8>)
        requires
            old(self).wf(),
            valid_record(k@, v@),
            old(self).data@.len() + header_len(k@.len()) + v@.len() <= usize::MAX,
        ensures
            final(self).wf(),
            final(self).log@ == old(self).log@.push((k@, v@)),
            r@ == record_bytes(k@, v@),
            final(self).data@ == old(self).data@ + r@,
            final(self).writes == old(self).writes,
            final(self).path == old(self).path,
    {
        let position = self.end;
        let rec = encode_record(k.as_slice(), v);
        self.data.extend_from_slice(rec.as_slice());
        self.end = self.end + rec.len() as u64;
        let ghost old_log = self.log@;
        let ghost old_index = self.index@;
        let ghost kv = k@;
        let ghost new_log = old_log.push((k@, v@));
        proof {
            assert(new_log.drop_last() =~= old_log);
            assert(log_offsets(new_log) == log_offsets(old_log).insert(
                kv,
                log_len(old_log),
            ));
            self.log = Ghost(new_log);
        }
        let found = self.find(k.as_slice());
        match found {
            Some(i) => {
                self.index.set(i, IndexEntry { key: k, offset: position });
            },
            None => {
                self.index.push(IndexEntry { key: k, offset: position });
            },
        }
        proof {
            let offs = log_offsets(new_log);
            assert forall|i: int| 0 <= i < new_log.len() implies valid_record(
                #[trigger] new_log[i].0,
                new_log[i].1,
            ) by {
                if i < old_log.len() {
                    assert(new_log[i] == old_log[i]);
                }
            }
            assert forall|i: int| 0 <= i < self.index@.len() implies {
                &&& #[trigger] offs.contains_key(self.index@[i].key@)
                &&& offs[self.index@[i].key@] == self.index@[i].offset
            } by {
                if i < old_index.len() && self.index@[i].key@ != kv {
                    assert(self.index@[i] == old_index[i]);
                }
            }
            assert forall|k2: Seq<u8>| #[trigger] offs.contains_key(k2) implies exists|i: int|
                0 <= i < self.index@.len() && #[trigger] self.index@[i].key@ == k2 by {
                if k2 != kv {
                    assert(log_offsets(old_log).contains_key(k2));
                    let j = choose|j: int|
                        0 <= j < old_index.len() && #[trigger] old_index[j].key@ == k2;
                    assert(self.index@[j] == old_index[j]);
                } else {
                    match found {
                        Some(i) => assert(self.index@[i as int].key@ == k2),
                        None => assert(self.index@[old_index.len() as int].key@ == k2),
                    }
                }
            }
            assert forall|i: int, j: int|
                0 <= i < j < self.index@.len() implies self.index@[i].key@
                != self.index@[j].key@ by {
                if j < old_index.len() {
                    if self.index@[i].key@ == kv || self.index@[j].key@ == kv {
                    } else {
                        assert(self.index@[i] == old_index[i]);
                        assert(self.index@[j] == old_index[j]);
                    }
                }
            }
            assert(valid_log(new_log));
            assert(log_bytes(new_log) == log_bytes(old_log) + rec@);
            assert(self.data@ == log_bytes(new_log));
            assert(self.end == self.data@.len());
        }
        rec
    }

    /// Appends a record of `key` and `value` and points the key's index entry
    /// at it; returns the bytes appended.
    pub fn add(&mut self, key: String, value: String) -> (r: Vec<u8>)
        requires
            old(self).wf(),
            old(self).can_add(key@, value@),
        ensures
            final(self).wf(),
            final(self)@ == old(self)@.insert(key@, value@),
            r@ == record_bytes(encode_utf8(key@), encode_utf8(value@)),
            final(self).data@ == old(self).data@ + r@,
            final(self).writes == old(self).writes + 1,
            final(self).path == old(self).path,
    {
        let kb = key.as_str().as_bytes_vec();
        let vb = value.as_str().as_bytes_vec();
        proof {
            encode_utf8_valid_utf8(value@);
        }
        let ghost kv = kb@;
        let rec = self.append_record(kb, vb.as_slice());
        let ghost appended = *self;
        self.writes = self.writes + 1;
        proof {
            assert(appended.wf());
            assert(self.index@ == appended.index@);
            assert(self.log@ == appended.log@);
            let old_log = old(self).log@;
            assert(self.log@.drop_last() =~= old_log);
            assert(log_values(self.log@) == log_values(old_log).insert(kv, vb@));
            assert forall|k: Seq<char>| #[trigger]
                old(self)@.insert(key@, value@).contains_key(k) == self@.contains_key(k) by {
                lemma_encode_injective(k, key@);
            }
            assert forall|k: Seq<char>| #[trigger] self@.contains_key(k) implies old(self)@.insert(
                key@,
                value@,
            )[k] == self@[k] by {
                lemma_encode_injective(k, key@);
                encode_utf8_decode_utf8(value@);
            }
            assert(self@ =~= old(self)@.insert(key@, value@));
        }
        rec
    }

    /// The value last written for `key`, if any.
    pub fn get(&self, key: String) -> (r: Option<String>)
        requires
            self.wf(),
        ensures
            match r {
                Some(s) => self@.contains_key(key@) && s@ == self@[key@],
                None => !self@.contains_key(key@),
            },
    {
        let kb = key.as_str().as_bytes_vec();
        let ghost log = self.log@;
        proof {
            lemma_log_index_sound(log);
        }
        match self.find(kb.as_slice()) {
            None => {
                proof {
                    if log_offsets(log).contains_key(kb@) {
                        let j = choose|j: int|
                            0 <= j < self.index@.len() && #[trigger] self.index@[j].key@ == kb@;
                        assert(false);
                    }
                }
                None
            },
            Some(i) => {
                let off = self.index[i].offset;
                proof {
                    assert(log_offsets(log).contains_key(self.index@[i as int].key@));
                    assert(value_at(self.data@, off as int, kb@.len() as int) == Ok::<
                        Seq<u8>,
                        DecodeError,
                    >(log_values(log)[kb@]));
                    lemma_log_values_valid(log, kb@);
                }
                let dl = self.data.len();
                assert(off < dl);
                match decode_value(self.data.as_slice(), off as usize, kb.len()) {
                    Ok(vb) => string_from_utf8(vb.as_slice()),
                    Err(_) => {
                        // Every indexed offset starts a whole record.
                        assert(false);
                        None
                    },
                }
            },
        }
    }
}

/// The first separator at or after `pos`.
fn find_sep(data: &[u8], pos: usize) -> (r: Option<usize>)
    ensures
        match r {
            Some(j) => sep_index(data@, pos as int) == Some(j as int),
            None => sep_index(data@, pos as int) is None,
        },
{
    let mut j: usize = pos;
    while j < data.len()
        invariant
            pos <= j,
            sep_index(data@, pos as int) == sep_index(data@, j as int),
        decreases data@.len() - j,
    {
        if data[j] == SEP {
            return Some(j);
        }
        j = j + 1;
    }
    None
}

impl FileMap {
    /// Rebuilds a segment from the bytes of its log file: reads whole records
    /// from the start, indexing each key at its latest record, and stops at the
    /// end of the data or at the first bytes that are not a whole record, which
    /// are left out.
    pub fn rebuild(file_path: String, contents: Vec<u8>) -> (r: FileMap)
        ensures
            r.wf(),
            r.path == file_path,
            r.log@ == parse_log(contents@, 0),
            r.data@ == contents@.subrange(0, r.data@.len() as int),
            r.writes == if r.log@.len() < u32::MAX {
                r.log@.len()
            } else {
                u32::MAX as nat
            },
    {
        let mut seg = FileMap::new(file_path);
        let data = contents.as_slice();
        let mut pos: usize = 0;
        let mut count: u32 = 0;
        let mut go = true;
        while go && pos < data.len()
            invariant
                seg.wf(),
                seg.path == file_path,
                data@ == contents@,
                pos <= data@.len(),
                seg.data@ == data@.subrange(0, pos as int),
                seg.log@ + parse_log(data@, pos as int) == parse_log(data@, 0),
                !go ==> parse_log(data@, pos as int) == Seq::<Entry>::empty(),
                count == if seg.log@.len() < u32::MAX {
                    seg.log@.len()
                } else {
                    u32::MAX as nat
                },
            decreases data@.len() - pos, if go { 1int } else { 0int },
        {
            match find_sep(data, pos) {
                None => {
                    go = false;
                },
                Some(j) => {
                    proof {
                        lemma_sep_index_found(data@, pos as int);
                    }
                    match decode_value(data, pos, j - pos) {
                        Err(_) => {
                            go = false;
                        },
                        Ok(v) => {
                            if string_from_utf8(v.as_slice()).is_none() {
                                go = false;
                            } else {
                                let key = slice_to_vec(slice_subrange(data, pos, j));
                                let ghost e = (key@, v@);
                                proof {
                                    let f = length_field(data@, pos as int, j - pos);
                                    lemma_digits_value_bound(f);
                                    lemma_pow10_width();
                                    assert(has_no_sep(key@)) by {
                                        assert forall|i: int| 0 <= i < key@.len() implies #[trigger] key@[i]
                                            != SEP by {
                                            assert(key@[i] == data@[pos + i]);
                                        }
                                    }
                                    assert(record_at(data@, pos as int) == Some(e));
                                    lemma_record_at_bytes(data@, pos as int);
                                }
                                let next = pos + (j - pos) + LEN_WIDTH + 2 + v.len();
                                let ghost before = seg.log@;
                                let rec = seg.append_record(key, v.as_slice());
                                proof {
                                    assert(seg.data@ =~= data@.subrange(0, next as int));
                                    assert(before.push(e) + parse_log(data@, next as int) =~= before
                                        + parse_log(data@, pos as int));
                                }
                                if count < u32::MAX {
                                    count = count + 1;
                                }
                                pos = next;
                            }
                        },
                    }
                },
            }
        }
        proof {
            assert(parse_log(data@, pos as int) == Seq::<Entry>::empty());
            assert(seg.log@ + Seq::<Entry>::empty() =~= seg.log@);
        }
        let ghost replayed = seg;
        seg.writes = count;
        proof {
            assert(replayed.wf());
            assert(seg.index@ == replayed.index@);
            assert(seg.log@ == replayed.log@);
        }
        seg
    }
}

/// Every value that a valid log holds is a valid record's value.
pub proof fn lemma_log_values_valid(log: Seq<Entry>, k: Seq<u8>)
    requires
        valid_log(log),
        log_values(log).contains_key(k),
    ensures
        valid_record(k, log_values(log)[k]),
    decreases log.len(),
{
    let prev = log.drop_last();
    assert(valid_record(log[log.len() - 1].0, log[log.len() - 1].1));
    if k != log.last().0 {
        assert forall|i: int| 0 <= i < prev.len() implies valid_record(
            #[trigger] prev[i].0,
            prev[i].1,
        ) by {
            assert(prev[i] == log[i]);
        }
        lemma_log_values_valid(prev, k);
    }
}

} // verus!
