use vstd::prelude::*;
use vstd::slice::{slice_subrange, slice_to_vec};

verus! {

/// The byte that separates the fields of a record.
pub const SEP: u8 = 44;

/// The width of the zero-padded decimal length field.
pub const LEN_WIDTH: usize = 10;

/// The first value length that the length field cannot hold.
pub const LEN_LIMIT: u64 = 10_000_000_000;

/// A record at an offset could not be decoded.
#[derive(Debug, PartialEq, Eq, Structural)]
pub enum DecodeError {
    /// The header runs past the end of the data.
    TruncatedHeader,
    /// The length field holds something other than decimal digits.
    BadLength,
    /// The byte after the length field is not the separator.
    MissingSeparator,
    /// The value runs past the end of the data.
    TruncatedValue,
}

pub open spec fn pow10(n: nat) -> nat
    decreases n,
{
    if n == 0 { 1 } else { 10 * pow10((n - 1) as nat) }
}

/// `n` written in exactly `w` decimal digits, zero-padded on the left.
pub open spec fn digits(n: nat, w: nat) -> Seq<u8>
    decreases w,
{
    if w == 0 {
        seq![]
    } else {
        digits(n / 10, (w - 1) as nat).push((48 + n % 10) as u8)
    }
}

pub open spec fn is_digit(b: u8) -> bool {
    48 <= b <= 57
}

pub open spec fn all_digits(s: Seq<u8>) -> bool {
    forall|i: int| 0 <= i < s.len() ==> is_digit(#[trigger] s[i])
}

/// The number that a run of decimal digits spells.
pub open spec fn digits_value(s: Seq<u8>) -> nat
    decreases s.len(),
{
    if s.len() == 0 {
        0
    } else {
        digits_value(s.drop_last()) * 10 + (s.last() - 48) as nat
    }
}

pub open spec fn has_no_sep(k: Seq<u8>) -> bool {
    forall|i: int| 0 <= i < k.len() ==> #[trigger] k[i] != SEP
}

/// The on-disk form of one record: key, separator, length field, separator, value.
pub open spec fn record_bytes(k: Seq<u8>, v: Seq<u8>) -> Seq<u8> {
    k + seq![SEP] + digits(v.len(), LEN_WIDTH as nat) + seq![SEP] + v
}

pub open spec fn header_len(klen: nat) -> nat {
    klen + LEN_WIDTH as nat + 2
}

/// The length field of the record that starts at `off` with a key of `klen` bytes.
pub open spec fn length_field(data: Seq<u8>, off: int, klen: int) -> Seq<u8> {
    data.subrange(off + klen + 1, off + klen + 1 + LEN_WIDTH)
}

/// Decoding of the record at `off` whose key is `klen` bytes long.
pub open spec fn value_at(data: Seq<u8>, off: int, klen: int) -> Result<Seq<u8>, DecodeError> {
    let h = off + header_len(klen as nat);
    if h > data.len() {
        Err(DecodeError::TruncatedHeader)
    } else if !all_digits(length_field(data, off, klen)) {
        Err(DecodeError::BadLength)
    } else if data[h - 1] != SEP {
        Err(DecodeError::MissingSeparator)
    } else if h + digits_value(length_field(data, off, klen)) > data.len() {
        Err(DecodeError::TruncatedValue)
    } else {
        Ok(data.subrange(h, h + digits_value(length_field(data, off, klen))))
    }
}

pub proof fn lemma_digits_len(n: nat, w: nat)
    ensures
        digits(n, w).len() == w,
        all_digits(digits(n, w)),
    decreases w,
{
    if w > 0 {
        lemma_digits_len(n / 10, (w - 1) as nat);
    }
}

pub proof fn lemma_digits_value(n: nat, w: nat)
    requires
        n < pow10(w),
    ensures
        digits_value(digits(n, w)) == n,
    decreases w,
{
    if w > 0 {
        let p = pow10((w - 1) as nat);
        assert(n / 10 < p) by (nonlinear_arith)
            requires n < 10 * p;
        lemma_digits_value(n / 10, (w - 1) as nat);
        let d = digits(n, w);
        assert(d.drop_last() == digits(n / 10, (w - 1) as nat));
        assert(n == (n / 10) * 10 + n % 10) by (nonlinear_arith);
    }
}

pub proof fn lemma_pow10_width()
    ensures
        pow10(LEN_WIDTH as nat) == LEN_LIMIT,
{
    reveal_with_fuel(pow10, 11);
}

/// A record's bytes decode, at its start, to its value.
pub proof fn lemma_decode_record(data: Seq<u8>, off: int, k: Seq<u8>, v: Seq<u8>)
    requires
        0 <= off,
        off + record_bytes(k, v).len() <= data.len(),
        data.subrange(off, off + record_bytes(k, v).len()) == record_bytes(k, v),
        v.len() < LEN_LIMIT,
    ensures
        value_at(data, off, k.len() as int) == Ok::<Seq<u8>, DecodeError>(v),
        record_bytes(k, v).len() == header_len(k.len()) + v.len(),
{
    let r = record_bytes(k, v);
    let w = LEN_WIDTH as nat;
    lemma_digits_len(v.len(), w);
    lemma_pow10_width();
    lemma_digits_value(v.len(), w);
    let kl = k.len() as int;
    assert(r.len() == header_len(k.len()) + v.len());
    assert forall|i: int| 0 <= i < r.len() implies data[off + i] == r[i] by {
        assert(data.subrange(off, off + r.len())[i] == r[i]);
    }
    let f = length_field(data, off, kl);
    assert(f =~= digits(v.len(), w)) by {
        assert forall|i: int| 0 <= i < w implies f[i] == digits(v.len(), w)[i] by {
            assert(data[off + kl + 1 + i] == r[kl + 1 + i]);
        }
    }
    let h = off + header_len(k.len());
    assert(data[h - 1] == r[kl + 1 + w]);
    assert(data.subrange(h, h + v.len()) =~= v) by {
        assert forall|i: int| 0 <= i < v.len() implies data.subrange(h, h + v.len())[i] == v[i] by {
            assert(data[h + i] == r[kl + 2 + w + i]);
        }
    }
}

/// Decoding at `off` reads only bytes before `data.len()`; appending keeps it.
pub proof fn lemma_value_at_extend(data: Seq<u8>, more: Seq<u8>, off: int, klen: int)
    requires
        0 <= off,
        0 <= klen,
        value_at(data, off, klen) is Ok,
    ensures
        value_at(data + more, off, klen) == value_at(data, off, klen),
{
    let d2 = data + more;
    assert(length_field(d2, off, klen) =~= length_field(data, off, klen));
    let h = off + header_len(klen as nat);
    let n = digits_value(length_field(data, off, klen));
    assert(d2.subrange(h, h + n) =~= data.subrange(h, h + n));
}

/// Writes `n` as `w` zero-padded decimal digits at the end of `out`.
fn push_digits(out: &mut Vec<u8>, n: u64, w: usize)
    ensures
        final(out)@ == old(out)@ + digits(n as nat, w as nat),
    decreases w,
{
    if w > 0 {
        push_digits(out, n / 10, w - 1);
        out.push((48 + n % 10) as u8);
    } else {
        assert(old(out)@ + digits(n as nat, 0) =~= old(out)@);
    }
}

/// Encodes one record: the key, the separator, the value's length in a
/// fixed-width zero-padded decimal field, the separator and the value.
pub fn encode_record(key: &[u8], value: &[u8]) -> (r: Vec<u8>)
    requires
        value@.len() < LEN_LIMIT,
        key@.len() + value@.len() + LEN_WIDTH + 2 <= usize::MAX,
    ensures
        r@ == record_bytes(key@, value@),
        r@.len() == header_len(key@.len()) + value@.len(),
{
    let mut out: Vec<u8> = Vec::new();
    out.extend_from_slice(key);
    out.push(SEP);
    push_digits(&mut out, value.len() as u64, LEN_WIDTH);
    out.push(SEP);
    out.extend_from_slice(value);
    proof {
        lemma_digits_len(value@.len(), LEN_WIDTH as nat);
        assert(out@ =~= record_bytes(key@, value@));
    }
    out
}

/// Reads a run of decimal digits as a number; `None` if a byte is not a digit.
pub fn parse_length(field: &[u8]) -> (r: Option<u64>)
    requires
        field@.len() <= LEN_WIDTH,
    ensures
        r is Some <==> all_digits(field@),
        r is Some ==> r->0 as nat == digits_value(field@),
{
    let mut acc: u64 = 0;
    let mut i: usize = 0;
    proof {
        lemma_pow10_width();
    }
    while i < field.len()
        invariant
            i <= field@.len() <= LEN_WIDTH,
            all_digits(field@.subrange(0, i as int)),
            acc as nat == digits_value(field@.subrange(0, i as int)),
            acc < pow10(i as nat),
            pow10(LEN_WIDTH as nat) == LEN_LIMIT,
        decreases field@.len() - i,
    {
        let b = field[i];
        if b < 48 || b > 57 {
            proof {
                assert(field@.subrange(0, i as int + 1)[i as int] == b);
            }
            return None;
        }
        proof {
            let s = field@.subrange(0, i as int + 1);
            assert(s.drop_last() =~= field@.subrange(0, i as int));
            lemma_pow10_mono(i as nat + 1, LEN_WIDTH as nat);
            let p = pow10(i as nat);
            assert(acc * 10 + (b - 48) < 10 * p) by (nonlinear_arith)
                requires acc < p, b - 48 < 10;
        }
        acc = acc * 10 + (b - 48) as u64;
        i = i + 1;
    }
    proof {
        assert(field@.subrange(0, i as int) =~= field@);
    }
    Some(acc)
}

pub proof fn lemma_pow10_mono(a: nat, b: nat)
    requires
        a <= b,
    ensures
        pow10(a) <= pow10(b),
    decreases b,
{
    if a < b {
        lemma_pow10_mono(a, (b - 1) as nat);
    }
}

/// Decodes the value of the record that starts at `off` and whose key is
/// `klen` bytes long.
pub fn decode_value(data: &[u8], off: usize, klen: usize) -> (r: Result<Vec<u8>, DecodeError>)
    ensures
        match r {
            Ok(v) => value_at(data@, off as int, klen as int) == Ok::<Seq<u8>, DecodeError>(v@),
            Err(e) => value_at(data@, off as int, klen as int) == Err::<Seq<u8>, DecodeError>(e),
        },
{
    let len = data.len();
    if off > len || klen > len - off || LEN_WIDTH + 2 > len - off - klen {
        return Err(DecodeError::TruncatedHeader);
    }
    let start = off + klen + 1;
    let h = start + LEN_WIDTH + 1;
    let field = slice_subrange(data, start, start + LEN_WIDTH);
    assert(field@ =~= length_field(data@, off as int, klen as int));
    let n = match parse_length(field) {
        Some(n) => n,
        None => {
            return Err(DecodeError::BadLength);
        },
    };
    if data[h - 1] != SEP {
        return Err(DecodeError::MissingSeparator);
    }
    if n > (len - h) as u64 {
        return Err(DecodeError::TruncatedValue);
    }
    let v = slice_to_vec(slice_subrange(data, h, h + n as usize));
    Ok(v)
}

} // verus!
