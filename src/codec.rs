//! The self-delimiting encoding shared by log records and wire messages.
//!
//! A value is one tag byte followed by its string fields; each field is its
//! UTF-8 length as eight big-endian bytes, then the UTF-8 bytes themselves.
//! The tag fixes how many fields follow, so a value carries its own end and
//! values can be written back to back with nothing between them.
use vstd::prelude::*;
use vstd::slice::{slice_subrange, slice_to_vec};
use vstd::utf8::*;

use crate::error::KvsError;

verus! {

/// What decoding finds at the front of a byte sequence.
pub ghost enum Parse<T> {
    /// A whole value, and the offset just past its last byte.
    Done(T, int),
    /// The bytes end before the value does: more bytes may complete it.
    Partial,
    /// The bytes can never begin a value.
    Bad,
}

/// How a decoder reports what it found: `Ok(Some((value, end)))` for a whole
/// value, `Ok(None)` for bytes that end too early, `Err(Serialization)` for
/// malformed bytes.
pub open spec fn reports<T: View>(p: Parse<T::V>, r: Result<Option<(T, usize)>, KvsError>) -> bool {
    match p {
        Parse::Done(v, e) => r matches Ok(Some((x, n))) && x@ == v && n == e,
        Parse::Partial => r matches Ok(None),
        Parse::Bad => r matches Err(KvsError::Serialization),
    }
}

/// The eight big-endian bytes of `n`.
pub open spec fn u64_be(n: u64) -> Seq<u8> {
    seq![
        (n >> 56u64) as u8,
        (n >> 48u64) as u8,
        (n >> 40u64) as u8,
        (n >> 32u64) as u8,
        (n >> 24u64) as u8,
        (n >> 16u64) as u8,
        (n >> 8u64) as u8,
        n as u8,
    ]
}

/// The number whose big-endian bytes are the first eight of `b`.
pub open spec fn be_u64(b: Seq<u8>) -> u64 {
    ((b[0] as u64) << 56u64) | ((b[1] as u64) << 48u64) | ((b[2] as u64) << 40u64) | ((
    b[3] as u64) << 32u64) | ((b[4] as u64) << 24u64) | ((b[5] as u64) << 16u64) | ((
    b[6] as u64) << 8u64) | (b[7] as u64)
}

/// A string whose UTF-8 length can be written in a length header.
pub open spec fn field_fits(s: Seq<char>) -> bool {
    encode_utf8(s).len() <= u64::MAX
}

pub open spec fn fields_fit(fs: Seq<Seq<char>>) -> bool {
    forall|i: int| 0 <= i < fs.len() ==> field_fits(#[trigger] fs[i])
}

/// The bytes of one string field: length header, then the UTF-8 bytes.
pub open spec fn field_bytes(s: Seq<char>) -> Seq<u8> {
    u64_be(encode_utf8(s).len() as u64) + encode_utf8(s)
}

pub open spec fn fields_bytes(fs: Seq<Seq<char>>) -> Seq<u8>
    decreases fs.len(),
{
    if fs.len() == 0 {
        Seq::empty()
    } else {
        field_bytes(fs[0]) + fields_bytes(fs.drop_first())
    }
}

/// The bytes of a value: its tag, then its fields in order.
pub open spec fn frame_bytes(tag: u8, fs: Seq<Seq<char>>) -> Seq<u8> {
    seq![tag] + fields_bytes(fs)
}

/// Decodes one string field that starts at offset `i` of `b`.
pub open spec fn parse_field(b: Seq<u8>, i: int) -> Parse<Seq<char>> {
    if b.len() < i + 8 {
        Parse::Partial
    } else {
        let n = be_u64(b.subrange(i, i + 8)) as int;
        if b.len() < i + 8 + n {
            Parse::Partial
        } else if valid_utf8(b.subrange(i + 8, i + 8 + n)) {
            Parse::Done(decode_utf8(b.subrange(i + 8, i + 8 + n)), i + 8 + n)
        } else {
            Parse::Bad
        }
    }
}

/// Decodes `k` string fields, one after the other, from offset `i` of `b`.
pub open spec fn parse_fields(b: Seq<u8>, i: int, k: nat) -> Parse<Seq<Seq<char>>>
    decreases k,
{
    if k == 0 {
        Parse::Done(Seq::empty(), i)
    } else {
        match parse_field(b, i) {
            Parse::Done(s, j) => match parse_fields(b, j, (k - 1) as nat) {
                Parse::Done(rest, e) => Parse::Done(seq![s] + rest, e),
                Parse::Partial => Parse::Partial,
                Parse::Bad => Parse::Bad,
            },
            Parse::Partial => Parse::Partial,
            Parse::Bad => Parse::Bad,
        }
    }
}

/// Decodes the fields of a value whose tag, read at offset 0, announces
/// `arity` fields (`None` for an unknown tag).
pub open spec fn parse_frame(b: Seq<u8>, arity: Option<nat>) -> Parse<Seq<Seq<char>>> {
    match arity {
        None => Parse::Bad,
        Some(k) => parse_fields(b, 1, k),
    }
}

pub proof fn lemma_be_u64_round_trip(n: u64)
    ensures
        be_u64(u64_be(n)) == n,
{
    let b = u64_be(n);
    assert(((((n >> 56u64) as u8) as u64) << 56u64) | ((((n >> 48u64) as u8) as u64) << 48u64)
        | ((((n >> 40u64) as u8) as u64) << 40u64) | ((((n >> 32u64) as u8) as u64) << 32u64)
        | ((((n >> 24u64) as u8) as u64) << 24u64) | ((((n >> 16u64) as u8) as u64) << 16u64)
        | ((((n >> 8u64) as u8) as u64) << 8u64) | ((n as u8) as u64) == n) by (bit_vector);
}

pub proof fn lemma_parse_fields_len(b: Seq<u8>, i: int, k: nat)
    ensures
        parse_fields(b, i, k) matches Parse::Done(fs, _) ==> fs.len() == k,
    decreases k,
{
    if k > 0 {
        if let Parse::Done(s, j) = parse_field(b, i) {
            lemma_parse_fields_len(b, j, (k - 1) as nat);
        }
    }
}

proof fn lemma_field_done(b: Seq<u8>, i: int, s: Seq<char>)
    requires
        0 <= i,
        field_fits(s),
        i + field_bytes(s).len() <= b.len(),
        b.subrange(i, i + field_bytes(s).len()) == field_bytes(s),
    ensures
        parse_field(b, i) == Parse::Done(s, i + field_bytes(s).len()),
{
    let e = encode_utf8(s);
    let f = field_bytes(s);
    let n = e.len() as int;
    lemma_be_u64_round_trip(n as u64);
    assert(b.subrange(i, i + 8) =~= f.subrange(0, 8));
    assert(f.subrange(0, 8) =~= u64_be(n as u64));
    assert(b.subrange(i + 8, i + 8 + n) =~= f.subrange(8, 8 + n));
    assert(f.subrange(8, 8 + n) =~= e);
    encode_utf8_valid_utf8(s);
    encode_utf8_decode_utf8(s);
}

proof fn lemma_field_partial(b: Seq<u8>, i: int, s: Seq<char>)
    requires
        0 <= i <= b.len(),
        field_fits(s),
        b.len() < i + field_bytes(s).len(),
        b.subrange(i, b.len() as int) == field_bytes(s).subrange(0, b.len() - i),
    ensures
        parse_field(b, i) == Parse::<Seq<char>>::Partial,
{
    let e = encode_utf8(s);
    let f = field_bytes(s);
    let n = e.len() as int;
    if b.len() >= i + 8 {
        lemma_be_u64_round_trip(n as u64);
        assert(b.subrange(i, i + 8) =~= f.subrange(0, 8));
        assert(f.subrange(0, 8) =~= u64_be(n as u64));
    }
}

proof fn lemma_fields_done(b: Seq<u8>, i: int, fs: Seq<Seq<char>>)
    requires
        0 <= i,
        fields_fit(fs),
        i + fields_bytes(fs).len() <= b.len(),
        b.subrange(i, i + fields_bytes(fs).len()) == fields_bytes(fs),
    ensures
        parse_fields(b, i, fs.len()) == Parse::Done(fs, i + fields_bytes(fs).len()),
    decreases fs.len(),
{
    if fs.len() == 0 {
        assert(fs =~= Seq::<Seq<char>>::empty());
    } else {
        let f0 = field_bytes(fs[0]);
        let tail = fs.drop_first();
        let rest = fields_bytes(tail);
        let all = fields_bytes(fs);
        assert(all == f0 + rest);
        assert(b.subrange(i, i + f0.len()) =~= all.subrange(0, f0.len() as int));
        assert(all.subrange(0, f0.len() as int) =~= f0);
        lemma_field_done(b, i, fs[0]);
        let j = i + f0.len();
        assert(b.subrange(j, j + rest.len()) =~= all.subrange(f0.len() as int, all.len() as int));
        assert(all.subrange(f0.len() as int, all.len() as int) =~= rest);
        assert(fields_fit(tail)) by {
            assert forall|k: int| 0 <= k < tail.len() implies field_fits(#[trigger] tail[k]) by {
                assert(tail[k] == fs[k + 1]);
            }
        }
        lemma_fields_done(b, j, tail);
        assert(seq![fs[0]] + tail =~= fs);
    }
}

proof fn lemma_fields_partial(b: Seq<u8>, i: int, fs: Seq<Seq<char>>)
    requires
        0 <= i <= b.len(),
        fields_fit(fs),
        b.len() < i + fields_bytes(fs).len(),
        b.subrange(i, b.len() as int) == fields_bytes(fs).subrange(0, b.len() - i),
    ensures
        parse_fields(b, i, fs.len()) == Parse::<Seq<Seq<char>>>::Partial,
    decreases fs.len(),
{
    let all = fields_bytes(fs);
    if fs.len() == 0 {
    } else {
        let f0 = field_bytes(fs[0]);
        let tail = fs.drop_first();
        let rest = fields_bytes(tail);
        assert(all == f0 + rest);
        if b.len() < i + f0.len() {
            assert(b.subrange(i, b.len() as int) =~= f0.subrange(0, b.len() - i));
            lemma_field_partial(b, i, fs[0]);
        } else {
            assert(b.subrange(i, i + f0.len()) =~= all.subrange(0, f0.len() as int));
            assert(all.subrange(0, f0.len() as int) =~= f0);
            lemma_field_done(b, i, fs[0]);
            let j = i + f0.len();
            assert forall|m: int| 0 <= m < b.len() - j implies b.subrange(j, b.len() as int)[m]
                == rest.subrange(0, b.len() - j)[m] by {
                assert(b[j + m] == b.subrange(i, b.len() as int)[f0.len() + m]);
                assert(all[f0.len() + m] == rest[m]);
            }
            assert(b.subrange(j, b.len() as int) =~= rest.subrange(0, b.len() - j));
            assert(fields_fit(tail)) by {
                assert forall|k: int| 0 <= k < tail.len() implies field_fits(#[trigger] tail[k]) by {
                    assert(tail[k] == fs[k + 1]);
                }
            }
            lemma_fields_partial(b, j, tail);
        }
    }
}

proof fn lemma_field_stable(b: Seq<u8>, b2: Seq<u8>, i: int)
    requires
        0 <= i,
        parse_field(b, i) matches Parse::Done(_, j) && j <= b2.len() && b2.take(j) == b.take(j),
    ensures
        parse_field(b2, i) == parse_field(b, i),
{
    let j = parse_field(b, i)->Done_1;
    assert(b2.subrange(i, i + 8) =~= b.subrange(i, i + 8)) by {
        assert forall|m: int| 0 <= m < 8 implies #[trigger] b2.subrange(i, i + 8)[m]
            == b.subrange(i, i + 8)[m] by {
            assert(b2.take(j)[i + m] == b.take(j)[i + m]);
        }
    }
    let n = be_u64(b.subrange(i, i + 8)) as int;
    assert(b2.subrange(i + 8, i + 8 + n) =~= b.subrange(i + 8, i + 8 + n)) by {
        assert forall|m: int| 0 <= m < n implies #[trigger] b2.subrange(i + 8, i + 8 + n)[m]
            == b.subrange(i + 8, i + 8 + n)[m] by {
            assert(b2.take(j)[i + 8 + m] == b.take(j)[i + 8 + m]);
        }
    }
}

/// Decoding fields reads no byte past the end of the last field.
pub proof fn lemma_fields_stable(b: Seq<u8>, b2: Seq<u8>, i: int, k: nat)
    requires
        0 <= i,
        parse_fields(b, i, k) matches Parse::Done(_, e) && e <= b2.len() && b2.take(e) == b.take(
            e,
        ),
    ensures
        parse_fields(b2, i, k) == parse_fields(b, i, k),
    decreases k,
{
    let e = parse_fields(b, i, k)->Done_1;
    if k > 0 {
        let j = parse_field(b, i)->Done_1;
        lemma_fields_end(b, j, (k - 1) as nat);
        lemma_field_end(b, i);
        assert(b2.take(j) =~= b.take(j)) by {
            assert forall|m: int| 0 <= m < j implies #[trigger] b2.take(j)[m] == b.take(j)[m] by {
                assert(b2.take(e)[m] == b.take(e)[m]);
            }
        }
        lemma_field_stable(b, b2, i);
        lemma_fields_stable(b, b2, j, (k - 1) as nat);
    }
}

proof fn lemma_field_end(b: Seq<u8>, i: int)
    ensures
        parse_field(b, i) matches Parse::Done(_, j) ==> i + 8 <= j <= b.len(),
{
}

/// Decoded fields end after they start, within the bytes.
pub proof fn lemma_fields_end(b: Seq<u8>, i: int, k: nat)
    ensures
        parse_fields(b, i, k) matches Parse::Done(_, e) ==> i <= e && (k > 0 ==> e <= b.len()),
    decreases k,
{
    if k > 0 {
        if let Parse::Done(_, j) = parse_field(b, i) {
            lemma_field_end(b, i);
            lemma_fields_end(b, j, (k - 1) as nat);
        }
    }
}

/// The fields of an encoded value, followed by anything, decode to those
/// fields and end where the value ends.
pub proof fn lemma_frame_round_trip(tag: u8, fs: Seq<Seq<char>>, rest: Seq<u8>)
    requires
        fields_fit(fs),
    ensures
        (frame_bytes(tag, fs) + rest)[0] == tag,
        parse_fields(frame_bytes(tag, fs) + rest, 1, fs.len()) == Parse::Done(
            fs,
            frame_bytes(tag, fs).len() as int,
        ),
{
    let b = frame_bytes(tag, fs) + rest;
    let fb = fields_bytes(fs);
    assert(b.subrange(1, 1 + fb.len() as int) =~= fb);
    lemma_fields_done(b, 1, fs);
}

/// Every non-empty strict prefix of an encoded value begins with its tag,
/// and its fields decode as incomplete.
pub proof fn lemma_frame_prefix(tag: u8, fs: Seq<Seq<char>>, j: int)
    requires
        fields_fit(fs),
        0 < j < frame_bytes(tag, fs).len(),
    ensures
        frame_bytes(tag, fs).take(j)[0] == tag,
        parse_fields(frame_bytes(tag, fs).take(j), 1, fs.len()) == Parse::<
            Seq<Seq<char>>,
        >::Partial,
{
    let b = frame_bytes(tag, fs).take(j);
    let fb = fields_bytes(fs);
    assert(b.subrange(1, b.len() as int) =~= fb.subrange(0, b.len() - 1));
    lemma_fields_partial(b, 1, fs);
}

pub proof fn lemma_fields_bytes_one(a: Seq<char>)
    ensures
        fields_bytes(seq![a]) == field_bytes(a),
{
    let s = seq![a];
    assert(s.drop_first() =~= Seq::<Seq<char>>::empty());
    assert(fields_bytes(s.drop_first()) == Seq::<u8>::empty());
    assert(fields_bytes(s) == field_bytes(s[0]) + fields_bytes(s.drop_first()));
    assert(field_bytes(a) + Seq::<u8>::empty() =~= field_bytes(a));
}

pub proof fn lemma_fields_bytes_two(a: Seq<char>, b: Seq<char>)
    ensures
        fields_bytes(seq![a, b]) == field_bytes(a) + field_bytes(b),
{
    assert(seq![a, b].drop_first() =~= seq![b]);
    lemma_fields_bytes_one(b);
}

pub proof fn lemma_fields_bytes_none()
    ensures
        fields_bytes(Seq::<Seq<char>>::empty()) == Seq::<u8>::empty(),
{
}

/// Appends the eight big-endian bytes of `n`.
fn put_u64(out: &mut Vec<u8>, n: u64)
    ensures
        final(out)@ == old(out)@ + u64_be(n),
{
    out.push((n >> 56u64) as u8);
    out.push((n >> 48u64) as u8);
    out.push((n >> 40u64) as u8);
    out.push((n >> 32u64) as u8);
    out.push((n >> 24u64) as u8);
    out.push((n >> 16u64) as u8);
    out.push((n >> 8u64) as u8);
    out.push(n as u8);
    assert(final(out)@ =~= old(out)@ + u64_be(n));
}

/// Appends one string field.
pub(crate) fn put_field(out: &mut Vec<u8>, s: &str)
    ensures
        final(out)@ == old(out)@ + field_bytes(s@),
{
    let bytes = s.as_bytes();
    put_u64(out, bytes.len() as u64);
    let mut body = slice_to_vec(bytes);
    out.append(&mut body);
}

/// Reads the eight big-endian bytes at offset `i`.
fn get_u64(b: &[u8], i: usize) -> (n: u64)
    requires
        i + 8 <= b@.len(),
    ensures
        n == be_u64(b@.subrange(i as int, i + 8)),
{
    let s = Ghost(b@.subrange(i as int, i + 8));
    assert(s@[0] == b@[i as int] && s@[1] == b@[i + 1] && s@[2] == b@[i + 2] && s@[3] == b@[i
        + 3] && s@[4] == b@[i + 4] && s@[5] == b@[i + 5] && s@[6] == b@[i + 6] && s@[7] == b@[i
        + 7]);
    ((b[i] as u64) << 56u64) | ((b[i + 1] as u64) << 48u64) | ((b[i + 2] as u64) << 40u64) | ((
    b[i + 3] as u64) << 32u64) | ((b[i + 4] as u64) << 24u64) | ((b[i + 5] as u64) << 16u64) | ((
    b[i + 6] as u64) << 8u64) | (b[i + 7] as u64)
}

/// Relies on std's `String::from_utf8`: it fails exactly on bytes that are
/// not UTF-8, and otherwise keeps the bytes as the string's contents.
#[verifier::external_body]
pub(crate) fn string_from_utf8(bytes: Vec<u8>) -> (r: Option<String>)
    ensures
        r is Some <==> valid_utf8(bytes@),
        r matches Some(s) ==> s@ == decode_utf8(bytes@),
{
    String::from_utf8(bytes).ok()
}

/// Decodes one string field that starts at offset `i`.
fn get_field(b: &[u8], i: usize) -> (r: Result<Option<(String, usize)>, KvsError>)
    requires
        i <= b@.len(),
    ensures
        reports(parse_field(b@, i as int), r),
{
    if b.len() - i < 8 {
        return Ok(None);
    }
    let n = get_u64(b, i);
    if ((b.len() - i - 8) as u64) < n {
        return Ok(None);
    }
    let end = i + 8 + n as usize;
    let body = slice_to_vec(slice_subrange(b, i + 8, end));
    match string_from_utf8(body) {
        Some(s) => Ok(Some((s, end))),
        None => Err(KvsError::Serialization),
    }
}

/// Decodes `k` string fields, one after the other, from offset `i`.
pub(crate) fn get_fields(b: &[u8], i: usize, k: usize) -> (r: Result<Option<(Vec<String>, usize)>, KvsError>)
    requires
        i <= b@.len(),
    ensures
        match parse_fields(b@, i as int, k as nat) {
            Parse::Done(fs, e) => r matches Ok(Some((v, n))) && n == e && v@.len() == fs.len()
                && forall|m: int| 0 <= m < fs.len() ==> #[trigger] v@[m]@ == fs[m],
            Parse::Partial => r matches Ok(None),
            Parse::Bad => r matches Err(KvsError::Serialization),
        },
    decreases k,
{
    if k == 0 {
        return Ok(Some((Vec::new(), i)));
    }
    match get_field(b, i) {
        Err(e) => Err(e),
        Ok(None) => Ok(None),
        Ok(Some((s, j))) => {
            proof {
                assert(j <= b@.len()) by {
                    assert(parse_field(b@, i as int) is Done);
                }
            }
            match get_fields(b, j, k - 1) {
                Err(e) => Err(e),
                Ok(None) => Ok(None),
                Ok(Some((mut rest, e))) => {
                    rest.insert(0, s);
                    Ok(Some((rest, e)))
                },
            }
        },
    }
}

} // verus!
