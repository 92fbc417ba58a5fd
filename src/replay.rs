use vstd::prelude::*;
use crate::codec::{
    all_digits, digits, digits_value, pow10, header_len, lemma_decode_record, length_field, record_bytes,
    value_at, DecodeError, LEN_WIDTH, SEP,
};
use crate::segment::{log_bytes, valid_log, valid_record, Entry};

verus! {

/// The first separator at or after `pos`.
pub open spec fn sep_index(data: Seq<u8>, pos: int) -> Option<int>
    decreases data.len() - pos,
{
    if pos < 0 || pos >= data.len() {
        None
    } else if data[pos] == SEP {
        Some(pos)
    } else {
        sep_index(data, pos + 1)
    }
}

/// The record that starts at `pos`, if a whole one does: its key runs to the
/// first separator, and its value must be UTF-8.
pub open spec fn record_at(data: Seq<u8>, pos: int) -> Option<Entry> {
    match sep_index(data, pos) {
        None => None,
        Some(j) => match value_at(data, pos, j - pos) {
            Ok(v) => if valid_record(data.subrange(pos, j), v) {
                Some((data.subrange(pos, j), v))
            } else {
                None
            },
            Err(_) => None,
        },
    }
}

/// The records that replay reads from `pos` on: one after another, until the
/// data ends or what follows is not a whole record.
pub open spec fn parse_log(data: Seq<u8>, pos: int) -> Seq<Entry>
    decreases data.len() - pos,
{
    if pos < 0 || pos >= data.len() {
        seq![]
    } else {
        match record_at(data, pos) {
            None => seq![],
            Some(e) => {
                let next = pos + header_len(e.0.len()) + e.1.len();
                if next <= data.len() {
                    seq![e] + parse_log(data, next)
                } else {
                    seq![]
                }
            },
        }
    }
}

pub proof fn lemma_sep_index(data: Seq<u8>, pos: int, j: int)
    requires
        0 <= pos <= j < data.len(),
        data[j] == SEP,
        forall|t: int| pos <= t < j ==> data[t] != SEP,
    ensures
        sep_index(data, pos) == Some(j),
    decreases j - pos,
{
    if pos < j {
        lemma_sep_index(data, pos + 1, j);
    }
}

/// A field of decimal digits is the padded form of the number it spells.
pub proof fn lemma_digits_canonical(f: Seq<u8>)
    requires
        all_digits(f),
    ensures
        digits(digits_value(f), f.len()) == f,
    decreases f.len(),
{
    if f.len() > 0 {
        let p = f.drop_last();
        assert(all_digits(p)) by {
            assert forall|i: int| 0 <= i < p.len() implies crate::codec::is_digit(#[trigger] p[i]) by {
                assert(p[i] == f[i]);
            }
        }
        lemma_digits_canonical(p);
        let n = digits_value(f);
        let d = (f.last() - 48) as nat;
        assert(crate::codec::is_digit(f[f.len() - 1]));
        assert(n == digits_value(p) * 10 + d);
        assert(n / 10 == digits_value(p) && n % 10 == d) by (nonlinear_arith)
            requires n == digits_value(p) * 10 + d, d < 10;
        assert(digits(n, f.len()) =~= f);
    }
}

/// The record that `record_at` reads is exactly the bytes it covers.
pub proof fn lemma_record_at_bytes(data: Seq<u8>, pos: int)
    requires
        record_at(data, pos) is Some,
    ensures
        ({
            let e = record_at(data, pos)->0;
            &&& pos + header_len(e.0.len()) + e.1.len() <= data.len()
            &&& data.subrange(pos, pos + header_len(e.0.len()) + e.1.len()) == record_bytes(
                e.0,
                e.1,
            )
        }),
{
    let j = sep_index(data, pos)->0;
    lemma_sep_index_found(data, pos);
    let e = record_at(data, pos)->0;
    let (k, v) = e;
    let kl = j - pos;
    let f = length_field(data, pos, kl);
    lemma_digits_canonical(f);
    let end = pos + header_len(k.len()) + v.len();
    let r = record_bytes(k, v);
    assert(v.len() == digits_value(f));
    assert(data.subrange(pos, end) =~= r);
}

pub proof fn lemma_sep_index_found(data: Seq<u8>, pos: int)
    requires
        sep_index(data, pos) is Some,
    ensures
        pos <= sep_index(data, pos)->0 < data.len(),
        0 <= pos,
        data[sep_index(data, pos)->0] == SEP,
        forall|t: int| pos <= t < sep_index(data, pos)->0 ==> data[t] != SEP,
    decreases data.len() - pos,
{
    if data[pos] != SEP {
        lemma_sep_index_found(data, pos + 1);
    }
}

/// A run of digits spells a number below ten to the power of its length.
pub proof fn lemma_digits_value_bound(f: Seq<u8>)
    requires
        all_digits(f),
    ensures
        digits_value(f) < pow10(f.len()),
    decreases f.len(),
{
    if f.len() > 0 {
        let p = f.drop_last();
        assert(all_digits(p)) by {
            assert forall|i: int| 0 <= i < p.len() implies crate::codec::is_digit(#[trigger] p[i]) by {
                assert(p[i] == f[i]);
            }
        }
        lemma_digits_value_bound(p);
        assert(crate::codec::is_digit(f[f.len() - 1]));
        let a = digits_value(p);
        let d = (f.last() - 48) as nat;
        let q = pow10(p.len());
        assert(a * 10 + d < 10 * q) by (nonlinear_arith)
            requires a < q, d < 10;
    }
}

/// Log bytes of a prefix are a prefix of the log bytes.
pub proof fn lemma_log_bytes_prefix(log: Seq<Entry>, i: int)
    requires
        0 <= i <= log.len(),
    ensures
        log_bytes(log.take(i)) == log_bytes(log).subrange(0, log_bytes(log.take(i)).len() as int),
        log_bytes(log.take(i)).len() <= log_bytes(log).len(),
    decreases log.len() - i,
{
    if i < log.len() {
        lemma_log_bytes_prefix(log, i + 1);
        let t = log.take(i + 1);
        assert(t.drop_last() =~= log.take(i));
        assert(log_bytes(t).subrange(0, log_bytes(log.take(i)).len() as int) =~= log_bytes(
            log.take(i),
        ));
        assert(log_bytes(log).subrange(0, log_bytes(log.take(i)).len() as int) =~= log_bytes(
            log,
        ).subrange(0, log_bytes(t).len() as int).subrange(0, log_bytes(log.take(i)).len() as int));
    } else {
        assert(log.take(i) =~= log);
        assert(log_bytes(log).subrange(0, log_bytes(log).len() as int) =~= log_bytes(log));
    }
}

/// Reading the bytes of a valid log gives back its records, from any record
/// boundary on.
proof fn lemma_parse_from(log: Seq<Entry>, i: int)
    requires
        valid_log(log),
        0 <= i <= log.len(),
    ensures
        parse_log(log_bytes(log), log_bytes(log.take(i)).len() as int) == log.skip(i),
    decreases log.len() - i,
{
    let data = log_bytes(log);
    let pos = log_bytes(log.take(i)).len() as int;
    lemma_log_bytes_prefix(log, i);
    if i == log.len() {
        assert(log.take(i) =~= log);
        assert(log.skip(i) =~= Seq::<Entry>::empty());
    } else {
        let (k, v) = log[i];
        assert(valid_record(log[i].0, log[i].1));
        let t = log.take(i + 1);
        assert(t.drop_last() =~= log.take(i));
        lemma_log_bytes_prefix(log, i + 1);
        let r = record_bytes(k, v);
        let end = pos + r.len();
        assert(log_bytes(t) == log_bytes(log.take(i)) + r);
        assert(data.subrange(pos, end) =~= r) by {
            assert(data.subrange(0, end) == log_bytes(t));
            assert forall|q: int| 0 <= q < r.len() implies data.subrange(pos, end)[q] == r[q] by {
                assert(data.subrange(0, end)[pos + q] == log_bytes(t)[pos + q]);
            }
        }
        lemma_decode_record(data, pos, k, v);
        assert forall|q: int| pos <= q < pos + k.len() implies data[q] != SEP by {
            assert(data[q] == data.subrange(pos, end)[q - pos]);
            assert(k[q - pos] != SEP);
        }
        assert(data[pos + k.len()] == data.subrange(pos, end)[k.len() as int]);
        lemma_sep_index(data, pos, pos + k.len());
        assert(data.subrange(pos, pos + k.len()) =~= k) by {
            assert forall|q: int| 0 <= q < k.len() implies data.subrange(pos, pos + k.len())[q]
                == k[q] by {
                assert(data[pos + q] == data.subrange(pos, end)[q]);
            }
        }
        assert(record_at(data, pos) == Some((k, v)));
        lemma_parse_from(log, i + 1);
        assert(log.skip(i) =~= seq![(k, v)] + log.skip(i + 1));
    }
}

/// Replay reads back exactly the records that were written.
pub proof fn lemma_replay_round_trip(log: Seq<Entry>)
    requires
        valid_log(log),
    ensures
        parse_log(log_bytes(log), 0) == log,
{
    lemma_parse_from(log, 0);
    assert(log.take(0) =~= Seq::<Entry>::empty());
    assert(log.skip(0) =~= log);
}

} // verus!
