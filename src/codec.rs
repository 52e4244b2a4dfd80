use vstd::prelude::*;
use vstd::utf8::{decode_utf8, encode_utf8, valid_utf8};

use crate::coverage::{
    chromosomes_view, CoverageData, CoverageDataModel, intervals_view, ChromosomeData, ChromosomeDataModel, Interval, IntervalModel,
};
use crate::facets::{facets_view, values_view, Facet, FacetCoverage, FacetModel, FacetRange};
use crate::regeffects::{
    payloads_view, Bucket, RegEffectData, RegEffectDataModel, RegEffectFacets, RegEffectFacetsModel,
};

verus! {

broadcast use vstd::utf8::encode_utf8_valid_utf8, vstd::utf8::encode_utf8_decode_utf8;

// The artifact's layout: integers are little-endian and of fixed width; a
// length or a count is a `u64`; a string is its UTF-8 byte length and its
// bytes; an `Option` is a tag byte (0 or 1) and, for 1, the value; a list is
// its count and its items; a struct is its fields in order.

/// The four bytes of a `u32`, least significant first.
pub open spec fn enc_u32(x: u32) -> Seq<u8> {
    seq![(x & 0xff) as u8, ((x >> 8u32) & 0xff) as u8, ((x >> 16u32) & 0xff) as u8, ((x >> 24u32) & 0xff) as u8]
}

/// The `u32` whose little-endian bytes are given.
pub open spec fn u32_of(b0: u8, b1: u8, b2: u8, b3: u8) -> u32 {
    (b0 as u32) | ((b1 as u32) << 8u32) | ((b2 as u32) << 16u32) | ((b3 as u32) << 24u32)
}

/// The eight bytes of a `u64`, least significant first.
pub open spec fn enc_u64(x: u64) -> Seq<u8> {
    seq![
        (x & 0xff) as u8,
        ((x >> 8u64) & 0xff) as u8,
        ((x >> 16u64) & 0xff) as u8,
        ((x >> 24u64) & 0xff) as u8,
        ((x >> 32u64) & 0xff) as u8,
        ((x >> 40u64) & 0xff) as u8,
        ((x >> 48u64) & 0xff) as u8,
        ((x >> 56u64) & 0xff) as u8,
    ]
}

/// The `u64` whose little-endian bytes are the first eight of `b`.
pub open spec fn u64_of(b: Seq<u8>) -> u64
    recommends
        b.len() >= 8,
{
    (b[0] as u64) | ((b[1] as u64) << 8u64) | ((b[2] as u64) << 16u64) | ((b[3] as u64) << 24u64)
        | ((b[4] as u64) << 32u64) | ((b[5] as u64) << 40u64) | ((b[6] as u64) << 48u64) | ((
    b[7] as u64) << 56u64)
}

/// Reads a `u32` at the front of `b`.
pub open spec fn parse_u32(b: Seq<u8>) -> Option<(u32, nat)> {
    if b.len() >= 4 {
        Some((u32_of(b[0], b[1], b[2], b[3]), 4))
    } else {
        None
    }
}

/// Reads a `u64` at the front of `b`.
pub open spec fn parse_u64(b: Seq<u8>) -> Option<(u64, nat)> {
    if b.len() >= 8 {
        Some((u64_of(b), 8))
    } else {
        None
    }
}

/// Reading a `u32` back from its bytes gives the `u32`.
pub proof fn lemma_u32_round_trip(x: u32, rest: Seq<u8>)
    ensures
        parse_u32(enc_u32(x) + rest) == Some((x, 4nat)),
{
    let b = enc_u32(x) + rest;
    let b0 = (x & 0xff) as u8;
    let b1 = ((x >> 8u32) & 0xff) as u8;
    let b2 = ((x >> 16u32) & 0xff) as u8;
    let b3 = ((x >> 24u32) & 0xff) as u8;
    assert(b[0] == b0 && b[1] == b1 && b[2] == b2 && b[3] == b3);
    assert(u32_of(b0, b1, b2, b3) == x) by (bit_vector)
        requires
            b0 == (x & 0xff) as u8,
            b1 == ((x >> 8u32) & 0xff) as u8,
            b2 == ((x >> 16u32) & 0xff) as u8,
            b3 == ((x >> 24u32) & 0xff) as u8,
    ;
}

/// Reading a `u64` back from its bytes gives the `u64`.
pub proof fn lemma_u64_round_trip(x: u64, rest: Seq<u8>)
    ensures
        parse_u64(enc_u64(x) + rest) == Some((x, 8nat)),
{
    let b = enc_u64(x) + rest;
    let b0 = (x & 0xff) as u8;
    let b1 = ((x >> 8u64) & 0xff) as u8;
    let b2 = ((x >> 16u64) & 0xff) as u8;
    let b3 = ((x >> 24u64) & 0xff) as u8;
    let b4 = ((x >> 32u64) & 0xff) as u8;
    let b5 = ((x >> 40u64) & 0xff) as u8;
    let b6 = ((x >> 48u64) & 0xff) as u8;
    let b7 = ((x >> 56u64) & 0xff) as u8;
    assert(b[0] == b0 && b[1] == b1 && b[2] == b2 && b[3] == b3);
    assert(b[4] == b4 && b[5] == b5 && b[6] == b6 && b[7] == b7);
    assert((b0 as u64) | ((b1 as u64) << 8u64) | ((b2 as u64) << 16u64) | ((b3 as u64) << 24u64)
        | ((b4 as u64) << 32u64) | ((b5 as u64) << 40u64) | ((b6 as u64) << 48u64) | ((
    b7 as u64) << 56u64) == x) by (bit_vector)
        requires
            b0 == (x & 0xff) as u8,
            b1 == ((x >> 8u64) & 0xff) as u8,
            b2 == ((x >> 16u64) & 0xff) as u8,
            b3 == ((x >> 24u64) & 0xff) as u8,
            b4 == ((x >> 32u64) & 0xff) as u8,
            b5 == ((x >> 40u64) & 0xff) as u8,
            b6 == ((x >> 48u64) & 0xff) as u8,
            b7 == ((x >> 56u64) & 0xff) as u8,
    ;
}

/// Appends the bytes of a `u32`.
pub fn encode_u32(x: u32, out: &mut Vec<u8>)
    ensures
        final(out)@ == old(out)@ + enc_u32(x),
{
    out.push((x & 0xff) as u8);
    out.push(((x >> 8u32) & 0xff) as u8);
    out.push(((x >> 16u32) & 0xff) as u8);
    out.push(((x >> 24u32) & 0xff) as u8);
    proof {
        assert(out@ =~= old(out)@ + enc_u32(x));
    }
}

/// Appends the bytes of a `u64`.
pub fn encode_u64(x: u64, out: &mut Vec<u8>)
    ensures
        final(out)@ == old(out)@ + enc_u64(x),
{
    out.push((x & 0xff) as u8);
    out.push(((x >> 8u64) & 0xff) as u8);
    out.push(((x >> 16u64) & 0xff) as u8);
    out.push(((x >> 24u64) & 0xff) as u8);
    out.push(((x >> 32u64) & 0xff) as u8);
    out.push(((x >> 40u64) & 0xff) as u8);
    out.push(((x >> 48u64) & 0xff) as u8);
    out.push(((x >> 56u64) & 0xff) as u8);
    proof {
        assert(out@ =~= old(out)@ + enc_u64(x));
    }
}

/// Reads a `u32` at `pos`, returning it and the position after it.
pub fn decode_u32(buf: &Vec<u8>, pos: usize) -> (r: Option<(u32, usize)>)
    requires
        pos <= buf@.len(),
    ensures
        match parse_u32(buf@.skip(pos as int)) {
            Some((v, n)) => r == Some((v, (pos + n) as usize)),
            None => r is None,
        },
        r is Some <==> pos + 4 <= buf@.len(),
        r matches Some((v, q)) ==> q == pos + 4 && q <= buf@.len(),
{
    if buf.len() - pos < 4 {
        return None;
    }
    let v = (buf[pos] as u32) | ((buf[pos + 1] as u32) << 8u32) | ((buf[pos + 2] as u32) << 16u32)
        | ((buf[pos + 3] as u32) << 24u32);
    Some((v, pos + 4))
}

/// Reads a `u64` at `pos`, returning it and the position after it.
pub fn decode_u64(buf: &Vec<u8>, pos: usize) -> (r: Option<(u64, usize)>)
    requires
        pos <= buf@.len(),
    ensures
        match parse_u64(buf@.skip(pos as int)) {
            Some((v, n)) => r == Some((v, (pos + n) as usize)),
            None => r is None,
        },
        r is Some <==> pos + 8 <= buf@.len(),
        r matches Some((v, q)) ==> q == pos + 8 && q <= buf@.len(),
{
    if buf.len() - pos < 8 {
        return None;
    }
    let v = (buf[pos] as u64) | ((buf[pos + 1] as u64) << 8u64) | ((buf[pos + 2] as u64) << 16u64)
        | ((buf[pos + 3] as u64) << 24u64) | ((buf[pos + 4] as u64) << 32u64) | ((buf[pos + 5] as u64)
        << 40u64) | ((buf[pos + 6] as u64) << 48u64) | ((buf[pos + 7] as u64) << 56u64);
    Some((v, pos + 8))
}

/// The concatenated encodings of the items of a list.
pub open spec fn enc_items<A>(s: Seq<A>, e: spec_fn(A) -> Seq<u8>) -> Seq<u8>
    decreases s.len(),
{
    if s.len() == 0 {
        seq![]
    } else {
        enc_items(s.drop_last(), e) + e(s.last())
    }
}

/// A list: its count, then its items.
pub open spec fn enc_seq<A>(s: Seq<A>, e: spec_fn(A) -> Seq<u8>) -> Seq<u8> {
    enc_u64(s.len() as u64) + enc_items(s, e)
}

/// Reads `n` items one after the other at the front of `b`.
pub open spec fn parse_items<A>(b: Seq<u8>, n: nat, p: spec_fn(Seq<u8>) -> Option<(A, nat)>) -> Option<
    (Seq<A>, nat),
>
    decreases n,
{
    if n == 0 {
        Some((seq![], 0))
    } else {
        match p(b) {
            Some((x, l)) => if l <= b.len() {
                match parse_items(b.skip(l as int), (n - 1) as nat, p) {
                    Some((xs, l2)) => Some((seq![x] + xs, l + l2)),
                    None => None,
                }
            } else {
                None
            },
            None => None,
        }
    }
}

/// Reads a list at the front of `b`.
pub open spec fn parse_seq<A>(b: Seq<u8>, p: spec_fn(Seq<u8>) -> Option<(A, nat)>) -> Option<
    (Seq<A>, nat),
> {
    match parse_u64(b) {
        Some((n, l)) => match parse_items(b.skip(l as int), n as nat, p) {
            Some((xs, l2)) => Some((xs, l + l2)),
            None => None,
        },
        None => None,
    }
}

/// `p` reads back what `e` writes, for every value that `ok` admits, whatever
/// bytes follow.
pub open spec fn round_trips<A>(
    e: spec_fn(A) -> Seq<u8>,
    p: spec_fn(Seq<u8>) -> Option<(A, nat)>,
    ok: spec_fn(A) -> bool,
) -> bool {
    forall|a: A, rest: Seq<u8>| ok(a) ==> #[trigger] p(e(a) + rest) == Some((a, e(a).len()))
}

/// The items' encoding, seen from the front.
pub proof fn lemma_enc_items_front<A>(s: Seq<A>, e: spec_fn(A) -> Seq<u8>)
    requires
        s.len() > 0,
    ensures
        enc_items(s, e) == e(s[0]) + enc_items(s.skip(1), e),
    decreases s.len(),
{
    if s.len() == 1 {
        assert(s.drop_last() =~= Seq::<A>::empty());
        assert(s.skip(1) =~= Seq::<A>::empty());
        assert(enc_items(s, e) =~= e(s[0]) + enc_items(s.skip(1), e));
    } else {
        let init = s.drop_last();
        lemma_enc_items_front(init, e);
        assert(s.skip(1).drop_last() =~= init.skip(1));
        assert(s.skip(1).last() == s.last());
        assert(enc_items(s, e) =~= e(s[0]) + enc_items(s.skip(1), e));
    }
}

/// Reading the items back from their encoding gives the items.
pub proof fn lemma_items_round_trip<A>(
    s: Seq<A>,
    e: spec_fn(A) -> Seq<u8>,
    p: spec_fn(Seq<u8>) -> Option<(A, nat)>,
    ok: spec_fn(A) -> bool,
    rest: Seq<u8>,
)
    requires
        round_trips(e, p, ok),
        forall|i: int| 0 <= i < s.len() ==> ok(#[trigger] s[i]),
    ensures
        parse_items(enc_items(s, e) + rest, s.len(), p) == Some((s, enc_items(s, e).len())),
    decreases s.len(),
{
    if s.len() > 0 {
        lemma_enc_items_front(s, e);
        let tail = s.skip(1);
        let b = enc_items(s, e) + rest;
        let after = enc_items(tail, e) + rest;
        assert(b =~= e(s[0]) + after);
        assert(ok(s[0]));
        assert(p(e(s[0]) + after) == Some((s[0], e(s[0]).len())));
        assert(b.skip(e(s[0]).len() as int) =~= after);
        assert forall|i: int| 0 <= i < tail.len() implies ok(#[trigger] tail[i]) by {
            assert(tail[i] == s[i + 1]);
        }
        lemma_items_round_trip(tail, e, p, ok, rest);
        assert(seq![s[0]] + tail =~= s);
    }
}

/// Reading a list back from its encoding gives the list.
pub proof fn lemma_seq_round_trip<A>(
    s: Seq<A>,
    e: spec_fn(A) -> Seq<u8>,
    p: spec_fn(Seq<u8>) -> Option<(A, nat)>,
    ok: spec_fn(A) -> bool,
    rest: Seq<u8>,
)
    requires
        round_trips(e, p, ok),
        forall|i: int| 0 <= i < s.len() ==> ok(#[trigger] s[i]),
        s.len() <= u64::MAX,
    ensures
        parse_seq(enc_seq(s, e) + rest, p) == Some((s, enc_seq(s, e).len())),
{
    let items = enc_items(s, e) + rest;
    let b = enc_seq(s, e) + rest;
    assert(b =~= enc_u64(s.len() as u64) + items);
    lemma_u64_round_trip(s.len() as u64, items);
    assert(b.skip(8) =~= items);
    lemma_items_round_trip(s, e, p, ok, rest);
}

/// A string: its UTF-8 byte length, then its bytes.
#[verifier::opaque]
pub open spec fn enc_str(s: Seq<char>) -> Seq<u8> {
    enc_u64(encode_utf8(s).len() as u64) + encode_utf8(s)
}

/// Reads a string at the front of `b`; its bytes must be valid UTF-8.
#[verifier::opaque]
pub open spec fn parse_str(b: Seq<u8>) -> Option<(Seq<char>, nat)> {
    match parse_u64(b) {
        Some((n, l)) => if l + n <= b.len() && valid_utf8(b.subrange(l as int, l + n)) {
            Some((decode_utf8(b.subrange(l as int, l + n)), (l + n) as nat))
        } else {
            None
        },
        None => None,
    }
}

/// The string's byte length fits in a `u64`.
pub open spec fn str_ok(s: Seq<char>) -> bool {
    encode_utf8(s).len() <= u64::MAX
}

/// Reading a string back from its encoding gives the string.
pub proof fn lemma_str_round_trip(s: Seq<char>, rest: Seq<u8>)
    requires
        str_ok(s),
    ensures
        parse_str(enc_str(s) + rest) == Some((s, enc_str(s).len())),
{
    reveal(enc_str);
    reveal(parse_str);
    let bytes = encode_utf8(s);
    let b = enc_str(s) + rest;
    assert(b =~= enc_u64(bytes.len() as u64) + (bytes + rest));
    lemma_u64_round_trip(bytes.len() as u64, bytes + rest);
    assert(b.subrange(8, 8 + bytes.len() as int) =~= bytes);
}

/// An optional value: a tag byte, then the value if there is one.
pub open spec fn enc_opt<A>(o: Option<A>, e: spec_fn(A) -> Seq<u8>) -> Seq<u8> {
    match o {
        Some(a) => seq![1u8] + e(a),
        None => seq![0u8],
    }
}

/// Reads an optional value at the front of `b`.
pub open spec fn parse_opt<A>(b: Seq<u8>, p: spec_fn(Seq<u8>) -> Option<(A, nat)>) -> Option<
    (Option<A>, nat),
> {
    if b.len() == 0 {
        None
    } else if b[0] == 0 {
        Some((None, 1))
    } else if b[0] == 1 {
        match p(b.skip(1)) {
            Some((a, l)) => Some((Some(a), 1 + l)),
            None => None,
        }
    } else {
        None
    }
}

/// Reading an optional value back from its encoding gives the value.
pub proof fn lemma_opt_round_trip<A>(
    o: Option<A>,
    e: spec_fn(A) -> Seq<u8>,
    p: spec_fn(Seq<u8>) -> Option<(A, nat)>,
    ok: spec_fn(A) -> bool,
    rest: Seq<u8>,
)
    requires
        round_trips(e, p, ok),
        o matches Some(a) ==> ok(a),
    ensures
        parse_opt(enc_opt(o, e) + rest, p) == Some((o, enc_opt(o, e).len())),
{
    if let Some(a) = o {
        let b = enc_opt(o, e) + rest;
        assert(b.skip(1) =~= e(a) + rest);
        assert(p(e(a) + rest) == Some((a, e(a).len())));
    }
}

/// Relies on `String::from_utf8`: it accepts exactly the byte sequences that
/// are valid UTF-8, and the string it returns holds the characters they encode.
#[verifier::external_body]
fn string_from_utf8(bytes: Vec<u8>) -> (r: Option<String>)
    ensures
        r is Some <==> valid_utf8(bytes@),
        r matches Some(s) ==> s@ == decode_utf8(bytes@),
{
    String::from_utf8(bytes).ok()
}

/// Appends the encoding of a string.
pub fn encode_str(s: &String, out: &mut Vec<u8>)
    ensures
        final(out)@ == old(out)@ + enc_str(s@),
        str_ok(s@),
{
    proof {
        reveal(enc_str);
        reveal(parse_str);
    }
    let bytes = s.as_str().as_bytes();
    encode_u64(bytes.len() as u64, out);
    let ghost start = out@;
    let mut i: usize = 0;
    while i < bytes.len()
        invariant
            i <= bytes@.len(),
            bytes@ == encode_utf8(s@),
            out@ == start + bytes@.subrange(0, i as int),
        decreases bytes@.len() - i,
    {
        out.push(bytes[i]);
        proof {
            assert(out@ =~= start + bytes@.subrange(0, i + 1));
        }
        i = i + 1;
    }
    proof {
        assert(bytes@.subrange(0, i as int) =~= bytes@);
        assert(out@ =~= old(out)@ + enc_str(s@));
    }
}

/// Reads a string at `pos`, returning it and the position after it.
pub fn decode_str(buf: &Vec<u8>, pos: usize) -> (r: Option<(String, usize)>)
    requires
        pos <= buf@.len(),
    ensures
        match parse_str(buf@.skip(pos as int)) {
            Some((m, n)) => r matches Some((s, q)) && s@ == m && q == pos + n && q <= buf@.len(),
            None => r is None,
        },
{
    proof {
        reveal(enc_str);
        reveal(parse_str);
    }
    let (n, start) = match decode_u64(buf, pos) {
        Some(x) => x,
        None => return None,
    };
    if n > (buf.len() - start) as u64 {
        return None;
    }
    let end = start + n as usize;
    let mut bytes: Vec<u8> = Vec::new();
    let mut i: usize = start;
    while i < end
        invariant
            start <= i <= end,
            end <= buf@.len(),
            bytes@ == buf@.subrange(start as int, i as int),
        decreases end - i,
    {
        bytes.push(buf[i]);
        proof {
            assert(bytes@ =~= buf@.subrange(start as int, i + 1));
        }
        i = i + 1;
    }
    proof {
        assert(buf@.skip(pos as int).subrange(8, 8 + n) =~= bytes@);
    }
    match string_from_utf8(bytes) {
        Some(s) => Some((s, end)),
        None => None,
    }
}

/// `enc_u64` as a function value.
pub open spec fn u64_enc() -> spec_fn(u64) -> Seq<u8> {
    |x: u64| enc_u64(x)
}

/// `parse_u64` as a function value.
pub open spec fn u64_parse() -> spec_fn(Seq<u8>) -> Option<(u64, nat)> {
    |b: Seq<u8>| parse_u64(b)
}

pub open spec fn u64_ok() -> spec_fn(u64) -> bool {
    |x: u64| true
}

/// Reading back what `enc_u64` writes gives the value.
pub proof fn lemma_u64_round_trips()
    ensures
        round_trips(u64_enc(), u64_parse(), u64_ok()),
{
    assert forall|a: u64, rest: Seq<u8>| u64_ok()(a) implies #[trigger] u64_parse()(u64_enc()(a) + rest)
        == Some((a, u64_enc()(a).len())) by {
        lemma_u64_round_trip(a, rest);
    }
}

/// A bucket: its chromosome ordinal as a `u64`, then its index.
pub open spec fn enc_bucket(b: Bucket) -> Seq<u8> {
    enc_u64(b.0 as u64) + enc_u32(b.1)
}

/// Reads a bucket at the front of `b`.
pub open spec fn parse_bucket(b: Seq<u8>) -> Option<(Bucket, nat)> {
    match parse_u64(b) {
        Some((c, l)) => match parse_u32(b.skip(l as int)) {
            Some((i, l2)) => if c <= usize::MAX {
                Some((Bucket(c as usize, i), l + l2))
            } else {
                None
            },
            None => None,
        },
        None => None,
    }
}

/// `enc_bucket` as a function value.
pub open spec fn bucket_enc() -> spec_fn(Bucket) -> Seq<u8> {
    |x: Bucket| enc_bucket(x)
}

/// `parse_bucket` as a function value.
pub open spec fn bucket_parse() -> spec_fn(Seq<u8>) -> Option<(Bucket, nat)> {
    |b: Seq<u8>| parse_bucket(b)
}

pub open spec fn bucket_ok() -> spec_fn(Bucket) -> bool {
    |x: Bucket| true
}

/// Reading back what `enc_bucket` writes gives the value.
pub proof fn lemma_bucket_round_trips()
    ensures
        round_trips(bucket_enc(), bucket_parse(), bucket_ok()),
{
    assert forall|a: Bucket, rest: Seq<u8>| bucket_ok()(a) implies #[trigger] bucket_parse()(
        bucket_enc()(a) + rest,
    ) == Some((a, bucket_enc()(a).len())) by {
        let b = enc_bucket(a) + rest;
        assert(b =~= enc_u64(a.0 as u64) + (enc_u32(a.1) + rest));
        lemma_u64_round_trip(a.0 as u64, enc_u32(a.1) + rest);
        assert(b.skip(8) =~= enc_u32(a.1) + rest);
        lemma_u32_round_trip(a.1, rest);
    }
}

/// Appends the encoding of a bucket.
pub fn encode_bucket(b: Bucket, out: &mut Vec<u8>)
    ensures
        final(out)@ == old(out)@ + enc_bucket(b),
{
    encode_u64(b.0 as u64, out);
    encode_u32(b.1, out);
    proof {
        assert(out@ =~= old(out)@ + enc_bucket(b));
    }
}

/// Reads a bucket at `pos`, returning it and the position after it.
pub fn decode_bucket(buf: &Vec<u8>, pos: usize) -> (r: Option<(Bucket, usize)>)
    requires
        pos <= buf@.len(),
    ensures
        match parse_bucket(buf@.skip(pos as int)) {
            Some((m, n)) => r matches Some((x, q)) && x == m && q == pos + n && q <= buf@.len(),
            None => r is None,
        },
{
    let (c, at1) = match decode_u64(buf, pos) {
        Some(x) => x,
        None => return None,
    };
    proof {
        assert(buf@.skip(pos as int).skip(8) =~= buf@.skip(at1 as int));
    }
    let (i, at2) = match decode_u32(buf, at1) {
        Some(x) => x,
        None => return None,
    };
    if c > usize::MAX as u64 {
        return None;
    }
    Some((Bucket(c as usize, i), at2))
}

/// A list of facet value ids.
#[verifier::opaque]
pub open spec fn enc_ids(s: Seq<u64>) -> Seq<u8> {
    enc_seq(s, u64_enc())
}

/// Reads a list of facet value ids at the front of `b`.
#[verifier::opaque]
pub open spec fn parse_ids(b: Seq<u8>) -> Option<(Seq<u64>, nat)> {
    parse_seq(b, u64_parse())
}

/// Every item can be written and the count fits in a `u64`.
pub open spec fn ids_ok(s: Seq<u64>) -> bool {
    s.len() <= u64::MAX && forall|i: int| 0 <= i < s.len() ==> u64_ok()(#[trigger] s[i])
}

/// Reading the list back from its encoding gives the list.
pub proof fn lemma_ids_round_trip(s: Seq<u64>, rest: Seq<u8>)
    requires
        ids_ok(s),
    ensures
        parse_ids(enc_ids(s) + rest) == Some((s, enc_ids(s).len())),
{
    reveal(enc_ids);
    reveal(parse_ids);
    lemma_u64_round_trips();
    lemma_seq_round_trip(s, u64_enc(), u64_parse(), u64_ok(), rest);
}

/// Appends the encoding of a list.
pub fn encode_ids(v: &Vec<u64>, out: &mut Vec<u8>)
    ensures
        final(out)@ == old(out)@ + enc_ids(v@),
        ids_ok(v@),
{
    proof {
        reveal(enc_ids);
        reveal(parse_ids);
    }
    let ghost m = v@;
    encode_u64(v.len() as u64, out);
    let mut i: usize = 0;
    while i < v.len()
        invariant
            i <= v@.len(),
            m == v@,
            m.len() == v@.len(),
            forall|j: int| 0 <= j < i ==> u64_ok()(#[trigger] m[j]),
            out@ == old(out)@ + enc_u64(v@.len() as u64) + enc_items(m.subrange(0, i as int), u64_enc()),
        decreases v@.len() - i,
    {
        let ghost before = out@;
        encode_u64(v[i], out);
        proof {
            assert(m.subrange(0, i + 1).drop_last() =~= m.subrange(0, i as int));
            assert(m.subrange(0, i + 1).last() == v@[i as int]);
            assert(out@ =~= old(out)@ + enc_u64(v@.len() as u64) + enc_items(m.subrange(0, i + 1), u64_enc()));
        }
        i = i + 1;
    }
    proof {
        assert(m.subrange(0, i as int) =~= m);
        assert(out@ =~= old(out)@ + enc_ids(m));
    }
}

/// Reads a list at `pos`, returning it and the position after it.
pub fn decode_ids(buf: &Vec<u8>, pos: usize) -> (r: Option<(Vec<u64>, usize)>)
    requires
        pos <= buf@.len(),
    ensures
        match parse_ids(buf@.skip(pos as int)) {
            Some((m, n)) => r matches Some((v, q)) && v@ == m && q == pos + n && q <= buf@.len(),
            None => r is None,
        },
{
    proof {
        reveal(enc_ids);
        reveal(parse_ids);
    }
    let (n, start) = match decode_u64(buf, pos) {
        Some(x) => x,
        None => return None,
    };
    proof {
        assert(buf@.skip(pos as int).skip(8) =~= buf@.skip(start as int));
    }
    let mut v: Vec<u64> = Vec::new();
    let mut cur = start;
    let mut k: u64 = 0;
    while k < n
        invariant
            start <= cur <= buf@.len(),
            start == pos + 8,
            parse_u64(buf@.skip(pos as int)) == Some((n, 8nat)),
            buf@.skip(pos as int).skip(8) == buf@.skip(start as int),
            k <= n,
            parse_items(buf@.skip(start as int), n as nat, u64_parse()) == match parse_items(
                buf@.skip(cur as int),
                (n - k) as nat,
                u64_parse(),
            ) {
                Some((xs, l)) => Some((v@ + xs, ((cur - start) + l) as nat)),
                None => None::<(Seq<u64>, nat)>,
            },
        decreases n - k,
    {
        let ghost b = buf@.skip(cur as int);
        let ghost before = v@;
        match decode_u64(buf, cur) {
            Some((x, c2)) => {
                proof {
                    assert(b.skip(c2 - cur) =~= buf@.skip(c2 as int));
                }
                v.push(x);
                proof {
                    assert(v@ =~= before.push(x));
                    let rest = parse_items(buf@.skip(c2 as int), (n - k - 1) as nat, u64_parse());
                    if let Some((xs, l)) = rest {
                        assert(before + (seq![x] + xs) =~= v@ + xs);
                    }
                }
                cur = c2;
            },
            None => {
                proof {
                    assert(parse_items(b, (n - k) as nat, u64_parse()) is None);
                    assert(parse_items(buf@.skip(start as int), n as nat, u64_parse()) is None);
                    assert(parse_u64(buf@.skip(pos as int)) == Some((n, 8nat)));
                    reveal(parse_ids);
                    assert(parse_ids(buf@.skip(pos as int)) is None);
                }
                return None;
            },
        }
        k = k + 1;
    }
    proof {
        assert(v@ + Seq::<u64>::empty() =~= v@);
    }
    Some((v, cur))
}

/// A list of buckets.
#[verifier::opaque]
pub open spec fn enc_buckets(s: Seq<Bucket>) -> Seq<u8> {
    enc_seq(s, bucket_enc())
}

/// Reads a list of buckets at the front of `b`.
#[verifier::opaque]
pub open spec fn parse_buckets(b: Seq<u8>) -> Option<(Seq<Bucket>, nat)> {
    parse_seq(b, bucket_parse())
}

/// Every item can be written and the count fits in a `u64`.
pub open spec fn buckets_ok(s: Seq<Bucket>) -> bool {
    s.len() <= u64::MAX && forall|i: int| 0 <= i < s.len() ==> bucket_ok()(#[trigger] s[i])
}

/// Reading the list back from its encoding gives the list.
pub proof fn lemma_buckets_round_trip(s: Seq<Bucket>, rest: Seq<u8>)
    requires
        buckets_ok(s),
    ensures
        parse_buckets(enc_buckets(s) + rest) == Some((s, enc_buckets(s).len())),
{
    reveal(enc_buckets);
    reveal(parse_buckets);
    lemma_bucket_round_trips();
    lemma_seq_round_trip(s, bucket_enc(), bucket_parse(), bucket_ok(), rest);
}

/// Appends the encoding of a list.
pub fn encode_buckets(v: &Vec<Bucket>, out: &mut Vec<u8>)
    ensures
        final(out)@ == old(out)@ + enc_buckets(v@),
        buckets_ok(v@),
{
    proof {
        reveal(enc_buckets);
        reveal(parse_buckets);
    }
    let ghost m = v@;
    encode_u64(v.len() as u64, out);
    let mut i: usize = 0;
    while i < v.len()
        invariant
            i <= v@.len(),
            m == v@,
            m.len() == v@.len(),
            forall|j: int| 0 <= j < i ==> bucket_ok()(#[trigger] m[j]),
            out@ == old(out)@ + enc_u64(v@.len() as u64) + enc_items(m.subrange(0, i as int), bucket_enc()),
        decreases v@.len() - i,
    {
        let ghost before = out@;
        encode_bucket(v[i], out);
        proof {
            assert(m.subrange(0, i + 1).drop_last() =~= m.subrange(0, i as int));
            assert(m.subrange(0, i + 1).last() == v@[i as int]);
            assert(out@ =~= old(out)@ + enc_u64(v@.len() as u64) + enc_items(m.subrange(0, i + 1), bucket_enc()));
        }
        i = i + 1;
    }
    proof {
        assert(m.subrange(0, i as int) =~= m);
        assert(out@ =~= old(out)@ + enc_buckets(m));
    }
}

/// Reads a list at `pos`, returning it and the position after it.
pub fn decode_buckets(buf: &Vec<u8>, pos: usize) -> (r: Option<(Vec<Bucket>, usize)>)
    requires
        pos <= buf@.len(),
    ensures
        match parse_buckets(buf@.skip(pos as int)) {
            Some((m, n)) => r matches Some((v, q)) && v@ == m && q == pos + n && q <= buf@.len(),
            None => r is None,
        },
{
    proof {
        reveal(enc_buckets);
        reveal(parse_buckets);
    }
    let (n, start) = match decode_u64(buf, pos) {
        Some(x) => x,
        None => return None,
    };
    proof {
        assert(buf@.skip(pos as int).skip(8) =~= buf@.skip(start as int));
    }
    let mut v: Vec<Bucket> = Vec::new();
    let mut cur = start;
    let mut k: u64 = 0;
    while k < n
        invariant
            start <= cur <= buf@.len(),
            start == pos + 8,
            parse_u64(buf@.skip(pos as int)) == Some((n, 8nat)),
            buf@.skip(pos as int).skip(8) == buf@.skip(start as int),
            k <= n,
            parse_items(buf@.skip(start as int), n as nat, bucket_parse()) == match parse_items(
                buf@.skip(cur as int),
                (n - k) as nat,
                bucket_parse(),
            ) {
                Some((xs, l)) => Some((v@ + xs, ((cur - start) + l) as nat)),
                None => None::<(Seq<Bucket>, nat)>,
            },
        decreases n - k,
    {
        let ghost b = buf@.skip(cur as int);
        let ghost before = v@;
        match decode_bucket(buf, cur) {
            Some((x, c2)) => {
                proof {
                    assert(b.skip(c2 - cur) =~= buf@.skip(c2 as int));
                }
                v.push(x);
                proof {
                    assert(v@ =~= before.push(x));
                    let rest = parse_items(buf@.skip(c2 as int), (n - k - 1) as nat, bucket_parse());
                    if let Some((xs, l)) = rest {
                        assert(before + (seq![x] + xs) =~= v@ + xs);
                    }
                }
                cur = c2;
            },
            None => {
                proof {
                    assert(parse_items(b, (n - k) as nat, bucket_parse()) is None);
                    assert(parse_items(buf@.skip(start as int), n as nat, bucket_parse()) is None);
                    assert(parse_u64(buf@.skip(pos as int)) == Some((n, 8nat)));
                    reveal(parse_buckets);
                    assert(parse_buckets(buf@.skip(pos as int)) is None);
                }
                return None;
            },
        }
        k = k + 1;
    }
    proof {
        assert(v@ + Seq::<Bucket>::empty() =~= v@);
    }
    Some((v, cur))
}

/// A payload: its ids, effect size and significance.
#[verifier::opaque]
pub open spec fn enc_payload(m: RegEffectFacetsModel) -> Seq<u8> {
    enc_ids(m.ids) + enc_u32(m.effect_size) + enc_u32(m.significance)
}

/// Reads a payload: its ids, effect size and significance at the front of `b`.
#[verifier::opaque]
pub open spec fn parse_payload(b: Seq<u8>) -> Option<(RegEffectFacetsModel, nat)> {
    match parse_ids(b) {
        Some((f0, l0)) => {
            match parse_u32(b.skip(l0 as int)) {
                Some((f1, l1)) => {
                    match parse_u32(b.skip(l0 as int).skip(l1 as int)) {
                        Some((f2, l2)) => Some((RegEffectFacetsModel { ids: f0, effect_size: f1, significance: f2 }, (l0 + l1 + l2) as nat)),
                        None => None,
                    }
                },
                None => None,
            }
        },
        None => None,
    }
}

/// `enc_payload` as a function value.
pub open spec fn payload_enc() -> spec_fn(RegEffectFacetsModel) -> Seq<u8> {
    |m: RegEffectFacetsModel| enc_payload(m)
}

/// `parse_payload` as a function value.
pub open spec fn payload_parse() -> spec_fn(Seq<u8>) -> Option<(RegEffectFacetsModel, nat)> {
    |b: Seq<u8>| parse_payload(b)
}

/// Every part of the value can be written.
pub open spec fn payload_ok(m: RegEffectFacetsModel) -> bool {
    ids_ok(m.ids)
}

/// `payload_ok` as a function value.
pub open spec fn payload_okf() -> spec_fn(RegEffectFacetsModel) -> bool {
    |m: RegEffectFacetsModel| payload_ok(m)
}

/// Reading back what `enc_payload` writes gives the value.
pub proof fn lemma_payload_round_trips()
    ensures
        round_trips(payload_enc(), payload_parse(), payload_okf()),
{
    reveal(enc_payload);
    reveal(parse_payload);
    assert forall|a: RegEffectFacetsModel, rest: Seq<u8>| payload_okf()(a) implies #[trigger] payload_parse()(
        payload_enc()(a) + rest,
    ) == Some((a, payload_enc()(a).len())) by {
        let c0 = enc_payload(a) + rest;
        assert(c0 =~= enc_ids(a.ids) + (enc_u32(a.effect_size) + (enc_u32(a.significance) + rest)));
        lemma_ids_round_trip(a.ids, (enc_u32(a.effect_size) + (enc_u32(a.significance) + rest)));
        let c1 = c0.skip(enc_ids(a.ids).len() as int);
        assert(c1 =~= enc_u32(a.effect_size) + (enc_u32(a.significance) + rest));
        lemma_u32_round_trip(a.effect_size, (enc_u32(a.significance) + rest));
        let c2 = c1.skip(enc_u32(a.effect_size).len() as int);
        assert(c2 =~= enc_u32(a.significance) + rest);
        lemma_u32_round_trip(a.significance, rest);
    }
}

/// Appends the encoding of the value.
pub fn encode_payload(x: &RegEffectFacets, out: &mut Vec<u8>)
    ensures
        final(out)@ == old(out)@ + enc_payload(x@),
        payload_ok(x@),
{
    proof {
        reveal(enc_payload);
        reveal(parse_payload);
    }
    encode_ids(&x.0, out);
    encode_u32(x.1, out);
    encode_u32(x.2, out);
    proof {
        assert(out@ =~= old(out)@ + enc_payload(x@));
    }
}

/// Reads a value at `pos`, returning it and the position after it.
pub fn decode_payload(buf: &Vec<u8>, pos: usize) -> (r: Option<(RegEffectFacets, usize)>)
    requires
        pos <= buf@.len(),
    ensures
        match parse_payload(buf@.skip(pos as int)) {
            Some((m, n)) => r matches Some((x, q)) && x@ == m && q == pos + n && q <= buf@.len(),
            None => r is None,
        },
{
    proof {
        reveal(enc_payload);
        reveal(parse_payload);
    }
    let (x0, at0) = match decode_ids(buf, pos) {
        Some(r) => r,
        None => return None,
    };
    proof {
        assert(buf@.skip(pos as int).skip(at0 - pos) =~= buf@.skip(at0 as int));
    }
    let (x1, at1) = match decode_u32(buf, at0) {
        Some(r) => r,
        None => return None,
    };
    proof {
        assert(buf@.skip(at0 as int).skip(at1 - at0) =~= buf@.skip(at1 as int));
    }
    let (x2, at2) = match decode_u32(buf, at1) {
        Some(r) => r,
        None => return None,
    };
    Some((RegEffectFacets(x0, x1, x2), at2))
}

/// A list of payloads.
#[verifier::opaque]
pub open spec fn enc_payloads(s: Seq<RegEffectFacetsModel>) -> Seq<u8> {
    enc_seq(s, payload_enc())
}

/// Reads a list of payloads at the front of `b`.
#[verifier::opaque]
pub open spec fn parse_payloads(b: Seq<u8>) -> Option<(Seq<RegEffectFacetsModel>, nat)> {
    parse_seq(b, payload_parse())
}

/// Every item can be written and the count fits in a `u64`.
pub open spec fn payloads_ok(s: Seq<RegEffectFacetsModel>) -> bool {
    s.len() <= u64::MAX && forall|i: int| 0 <= i < s.len() ==> payload_okf()(#[trigger] s[i])
}

/// Reading the list back from its encoding gives the list.
pub proof fn lemma_payloads_round_trip(s: Seq<RegEffectFacetsModel>, rest: Seq<u8>)
    requires
        payloads_ok(s),
    ensures
        parse_payloads(enc_payloads(s) + rest) == Some((s, enc_payloads(s).len())),
{
    reveal(enc_payloads);
    reveal(parse_payloads);
    lemma_payload_round_trips();
    lemma_seq_round_trip(s, payload_enc(), payload_parse(), payload_okf(), rest);
}

/// Appends the encoding of a list.
pub fn encode_payloads(v: &Vec<RegEffectFacets>, out: &mut Vec<u8>)
    ensures
        final(out)@ == old(out)@ + enc_payloads(payloads_view(v@)),
        payloads_ok(payloads_view(v@)),
{
    proof {
        reveal(enc_payloads);
        reveal(parse_payloads);
    }
    let ghost m = payloads_view(v@);
    encode_u64(v.len() as u64, out);
    let mut i: usize = 0;
    while i < v.len()
        invariant
            i <= v@.len(),
            m == payloads_view(v@),
            m.len() == v@.len(),
            forall|j: int| 0 <= j < i ==> payload_okf()(#[trigger] m[j]),
            out@ == old(out)@ + enc_u64(v@.len() as u64) + enc_items(m.subrange(0, i as int), payload_enc()),
        decreases v@.len() - i,
    {
        let ghost before = out@;
        encode_payload(&v[i], out);
        proof {
            assert(m.subrange(0, i + 1).drop_last() =~= m.subrange(0, i as int));
            assert(m.subrange(0, i + 1).last() == v@[i as int]@);
            assert(out@ =~= old(out)@ + enc_u64(v@.len() as u64) + enc_items(m.subrange(0, i + 1), payload_enc()));
        }
        i = i + 1;
    }
    proof {
        assert(m.subrange(0, i as int) =~= m);
        assert(out@ =~= old(out)@ + enc_payloads(m));
    }
}

/// Reads a list at `pos`, returning it and the position after it.
pub fn decode_payloads(buf: &Vec<u8>, pos: usize) -> (r: Option<(Vec<RegEffectFacets>, usize)>)
    requires
        pos <= buf@.len(),
    ensures
        match parse_payloads(buf@.skip(pos as int)) {
            Some((m, n)) => r matches Some((v, q)) && payloads_view(v@) == m && q == pos + n && q <= buf@.len(),
            None => r is None,
        },
{
    proof {
        reveal(enc_payloads);
        reveal(parse_payloads);
    }
    let (n, start) = match decode_u64(buf, pos) {
        Some(x) => x,
        None => return None,
    };
    proof {
        assert(buf@.skip(pos as int).skip(8) =~= buf@.skip(start as int));
    }
    let mut v: Vec<RegEffectFacets> = Vec::new();
    let mut cur = start;
    let mut k: u64 = 0;
    while k < n
        invariant
            start <= cur <= buf@.len(),
            start == pos + 8,
            parse_u64(buf@.skip(pos as int)) == Some((n, 8nat)),
            buf@.skip(pos as int).skip(8) == buf@.skip(start as int),
            k <= n,
            parse_items(buf@.skip(start as int), n as nat, payload_parse()) == match parse_items(
                buf@.skip(cur as int),
                (n - k) as nat,
                payload_parse(),
            ) {
                Some((xs, l)) => Some((payloads_view(v@) + xs, ((cur - start) + l) as nat)),
                None => None::<(Seq<RegEffectFacetsModel>, nat)>,
            },
        decreases n - k,
    {
        let ghost b = buf@.skip(cur as int);
        let ghost before = payloads_view(v@);
        match decode_payload(buf, cur) {
            Some((x, c2)) => {
                proof {
                    assert(b.skip(c2 - cur) =~= buf@.skip(c2 as int));
                }
                v.push(x);
                proof {
                    assert(payloads_view(v@) =~= before.push(x@));
                    let rest = parse_items(buf@.skip(c2 as int), (n - k - 1) as nat, payload_parse());
                    if let Some((xs, l)) = rest {
                        assert(before + (seq![x@] + xs) =~= payloads_view(v@) + xs);
                    }
                }
                cur = c2;
            },
            None => {
                proof {
                    assert(parse_items(b, (n - k) as nat, payload_parse()) is None);
                    assert(parse_items(buf@.skip(start as int), n as nat, payload_parse()) is None);
                    assert(parse_u64(buf@.skip(pos as int)) == Some((n, 8nat)));
                    reveal(parse_payloads);
                    assert(parse_payloads(buf@.skip(pos as int)) is None);
                }
                return None;
            },
        }
        k = k + 1;
    }
    proof {
        assert(payloads_view(v@) + Seq::<RegEffectFacetsModel>::empty() =~= payloads_view(v@));
    }
    Some((v, cur))
}

/// A bucket aggregate: its payloads, then its associated buckets.
#[verifier::opaque]
pub open spec fn enc_data(m: RegEffectDataModel) -> Seq<u8> {
    enc_payloads(m.facets) + enc_buckets(m.associated_buckets)
}

/// Reads a bucket aggregate: its payloads, then its associated buckets at the front of `b`.
#[verifier::opaque]
pub open spec fn parse_data(b: Seq<u8>) -> Option<(RegEffectDataModel, nat)> {
    match parse_payloads(b) {
        Some((f0, l0)) => {
            match parse_buckets(b.skip(l0 as int)) {
                Some((f1, l1)) => Some((RegEffectDataModel { facets: f0, associated_buckets: f1 }, (l0 + l1) as nat)),
                None => None,
            }
        },
        None => None,
    }
}

/// `enc_data` as a function value.
pub open spec fn data_enc() -> spec_fn(RegEffectDataModel) -> Seq<u8> {
    |m: RegEffectDataModel| enc_data(m)
}

/// `parse_data` as a function value.
pub open spec fn data_parse() -> spec_fn(Seq<u8>) -> Option<(RegEffectDataModel, nat)> {
    |b: Seq<u8>| parse_data(b)
}

/// Every part of the value can be written.
pub open spec fn data_ok(m: RegEffectDataModel) -> bool {
    payloads_ok(m.facets) && buckets_ok(m.associated_buckets)
}

/// `data_ok` as a function value.
pub open spec fn data_okf() -> spec_fn(RegEffectDataModel) -> bool {
    |m: RegEffectDataModel| data_ok(m)
}

/// Reading back what `enc_data` writes gives the value.
pub proof fn lemma_data_round_trips()
    ensures
        round_trips(data_enc(), data_parse(), data_okf()),
{
    reveal(enc_data);
    reveal(parse_data);
    assert forall|a: RegEffectDataModel, rest: Seq<u8>| data_okf()(a) implies #[trigger] data_parse()(
        data_enc()(a) + rest,
    ) == Some((a, data_enc()(a).len())) by {
        let c0 = enc_data(a) + rest;
        assert(c0 =~= enc_payloads(a.facets) + (enc_buckets(a.associated_buckets) + rest));
        lemma_payloads_round_trip(a.facets, (enc_buckets(a.associated_buckets) + rest));
        let c1 = c0.skip(enc_payloads(a.facets).len() as int);
        assert(c1 =~= enc_buckets(a.associated_buckets) + rest);
        lemma_buckets_round_trip(a.associated_buckets, rest);
    }
}

/// Reading the value back from its encoding gives the value.
pub proof fn lemma_data_round_trip(m: RegEffectDataModel, rest: Seq<u8>)
    requires
        data_ok(m),
    ensures
        parse_data(enc_data(m) + rest) == Some((m, enc_data(m).len())),
{
    lemma_data_round_trips();
    assert(data_parse()(data_enc()(m) + rest) == Some((m, data_enc()(m).len())));
}

/// Appends the encoding of the value.
pub fn encode_data(x: &RegEffectData, out: &mut Vec<u8>)
    ensures
        final(out)@ == old(out)@ + enc_data(x@),
        data_ok(x@),
{
    proof {
        reveal(enc_data);
        reveal(parse_data);
    }
    encode_payloads(&x.facets, out);
    encode_buckets(&x.associated_buckets, out);
    proof {
        assert(out@ =~= old(out)@ + enc_data(x@));
    }
}

/// Reads a value at `pos`, returning it and the position after it.
pub fn decode_data(buf: &Vec<u8>, pos: usize) -> (r: Option<(RegEffectData, usize)>)
    requires
        pos <= buf@.len(),
    ensures
        match parse_data(buf@.skip(pos as int)) {
            Some((m, n)) => r matches Some((x, q)) && x@ == m && q == pos + n && q <= buf@.len(),
            None => r is None,
        },
{
    proof {
        reveal(enc_data);
        reveal(parse_data);
    }
    let (x0, at0) = match decode_payloads(buf, pos) {
        Some(r) => r,
        None => return None,
    };
    proof {
        assert(buf@.skip(pos as int).skip(at0 - pos) =~= buf@.skip(at0 as int));
    }
    let (x1, at1) = match decode_buckets(buf, at0) {
        Some(r) => r,
        None => return None,
    };
    Some((RegEffectData { facets: x0, associated_buckets: x1 }, at1))
}

/// An interval: its start, then its aggregate.
#[verifier::opaque]
pub open spec fn enc_interval(m: IntervalModel) -> Seq<u8> {
    enc_u32(m.start as u32) + enc_data(m.values)
}

/// Reads an interval: its start, then its aggregate at the front of `b`.
#[verifier::opaque]
pub open spec fn parse_interval(b: Seq<u8>) -> Option<(IntervalModel, nat)> {
    match parse_u32(b) {
        Some((f0, l0)) => {
            match parse_data(b.skip(l0 as int)) {
                Some((f1, l1)) => Some((IntervalModel { start: f0 as nat, values: f1 }, (l0 + l1) as nat)),
                None => None,
            }
        },
        None => None,
    }
}

/// `enc_interval` as a function value.
pub open spec fn interval_enc() -> spec_fn(IntervalModel) -> Seq<u8> {
    |m: IntervalModel| enc_interval(m)
}

/// `parse_interval` as a function value.
pub open spec fn interval_parse() -> spec_fn(Seq<u8>) -> Option<(IntervalModel, nat)> {
    |b: Seq<u8>| parse_interval(b)
}

/// Every part of the value can be written.
pub open spec fn interval_ok(m: IntervalModel) -> bool {
    m.start <= u32::MAX && data_ok(m.values)
}

/// `interval_ok` as a function value.
pub open spec fn interval_okf() -> spec_fn(IntervalModel) -> bool {
    |m: IntervalModel| interval_ok(m)
}

/// Reading back what `enc_interval` writes gives the value.
pub proof fn lemma_interval_round_trips()
    ensures
        round_trips(interval_enc(), interval_parse(), interval_okf()),
{
    reveal(enc_interval);
    reveal(parse_interval);
    assert forall|a: IntervalModel, rest: Seq<u8>| interval_okf()(a) implies #[trigger] interval_parse()(
        interval_enc()(a) + rest,
    ) == Some((a, interval_enc()(a).len())) by {
        let c0 = enc_interval(a) + rest;
        assert(c0 =~= enc_u32(a.start as u32) + (enc_data(a.values) + rest));
        lemma_u32_round_trip(a.start as u32, (enc_data(a.values) + rest));
        let c1 = c0.skip(enc_u32(a.start as u32).len() as int);
        assert(c1 =~= enc_data(a.values) + rest);
        lemma_data_round_trip(a.values, rest);
    }
}

/// Appends the encoding of the value.
pub fn encode_interval(x: &Interval, out: &mut Vec<u8>)
    ensures
        final(out)@ == old(out)@ + enc_interval(x@),
        interval_ok(x@),
{
    proof {
        reveal(enc_interval);
        reveal(parse_interval);
    }
    encode_u32(x.start, out);
    encode_data(&x.values, out);
    proof {
        assert(out@ =~= old(out)@ + enc_interval(x@));
    }
}

/// Reads a value at `pos`, returning it and the position after it.
pub fn decode_interval(buf: &Vec<u8>, pos: usize) -> (r: Option<(Interval, usize)>)
    requires
        pos <= buf@.len(),
    ensures
        match parse_interval(buf@.skip(pos as int)) {
            Some((m, n)) => r matches Some((x, q)) && x@ == m && q == pos + n && q <= buf@.len(),
            None => r is None,
        },
{
    proof {
        reveal(enc_interval);
        reveal(parse_interval);
    }
    let (x0, at0) = match decode_u32(buf, pos) {
        Some(r) => r,
        None => return None,
    };
    proof {
        assert(buf@.skip(pos as int).skip(at0 - pos) =~= buf@.skip(at0 as int));
    }
    let (x1, at1) = match decode_data(buf, at0) {
        Some(r) => r,
        None => return None,
    };
    Some((Interval { start: x0, values: x1 }, at1))
}

/// A list of intervals.
#[verifier::opaque]
pub open spec fn enc_intervals(s: Seq<IntervalModel>) -> Seq<u8> {
    enc_seq(s, interval_enc())
}

/// Reads a list of intervals at the front of `b`.
#[verifier::opaque]
pub open spec fn parse_intervals(b: Seq<u8>) -> Option<(Seq<IntervalModel>, nat)> {
    parse_seq(b, interval_parse())
}

/// Every item can be written and the count fits in a `u64`.
pub open spec fn intervals_ok(s: Seq<IntervalModel>) -> bool {
    s.len() <= u64::MAX && forall|i: int| 0 <= i < s.len() ==> interval_okf()(#[trigger] s[i])
}

/// Reading the list back from its encoding gives the list.
pub proof fn lemma_intervals_round_trip(s: Seq<IntervalModel>, rest: Seq<u8>)
    requires
        intervals_ok(s),
    ensures
        parse_intervals(enc_intervals(s) + rest) == Some((s, enc_intervals(s).len())),
{
    reveal(enc_intervals);
    reveal(parse_intervals);
    lemma_interval_round_trips();
    lemma_seq_round_trip(s, interval_enc(), interval_parse(), interval_okf(), rest);
}

/// Appends the encoding of a list.
pub fn encode_intervals(v: &Vec<Interval>, out: &mut Vec<u8>)
    ensures
        final(out)@ == old(out)@ + enc_intervals(intervals_view(v@)),
        intervals_ok(intervals_view(v@)),
{
    proof {
        reveal(enc_intervals);
        reveal(parse_intervals);
    }
    let ghost m = intervals_view(v@);
    encode_u64(v.len() as u64, out);
    let mut i: usize = 0;
    while i < v.len()
        invariant
            i <= v@.len(),
            m == intervals_view(v@),
            m.len() == v@.len(),
            forall|j: int| 0 <= j < i ==> interval_okf()(#[trigger] m[j]),
            out@ == old(out)@ + enc_u64(v@.len() as u64) + enc_items(m.subrange(0, i as int), interval_enc()),
        decreases v@.len() - i,
    {
        let ghost before = out@;
        encode_interval(&v[i], out);
        proof {
            assert(m.subrange(0, i + 1).drop_last() =~= m.subrange(0, i as int));
            assert(m.subrange(0, i + 1).last() == v@[i as int]@);
            assert(out@ =~= old(out)@ + enc_u64(v@.len() as u64) + enc_items(m.subrange(0, i + 1), interval_enc()));
        }
        i = i + 1;
    }
    proof {
        assert(m.subrange(0, i as int) =~= m);
        assert(out@ =~= old(out)@ + enc_intervals(m));
    }
}

/// Reads a list at `pos`, returning it and the position after it.
pub fn decode_intervals(buf: &Vec<u8>, pos: usize) -> (r: Option<(Vec<Interval>, usize)>)
    requires
        pos <= buf@.len(),
    ensures
        match parse_intervals(buf@.skip(pos as int)) {
            Some((m, n)) => r matches Some((v, q)) && intervals_view(v@) == m && q == pos + n && q <= buf@.len(),
            None => r is None,
        },
{
    proof {
        reveal(enc_intervals);
        reveal(parse_intervals);
    }
    let (n, start) = match decode_u64(buf, pos) {
        Some(x) => x,
        None => return None,
    };
    proof {
        assert(buf@.skip(pos as int).skip(8) =~= buf@.skip(start as int));
    }
    let mut v: Vec<Interval> = Vec::new();
    let mut cur = start;
    let mut k: u64 = 0;
    while k < n
        invariant
            start <= cur <= buf@.len(),
            start == pos + 8,
            parse_u64(buf@.skip(pos as int)) == Some((n, 8nat)),
            buf@.skip(pos as int).skip(8) == buf@.skip(start as int),
            k <= n,
            parse_items(buf@.skip(start as int), n as nat, interval_parse()) == match parse_items(
                buf@.skip(cur as int),
                (n - k) as nat,
                interval_parse(),
            ) {
                Some((xs, l)) => Some((intervals_view(v@) + xs, ((cur - start) + l) as nat)),
                None => None::<(Seq<IntervalModel>, nat)>,
            },
        decreases n - k,
    {
        let ghost b = buf@.skip(cur as int);
        let ghost before = intervals_view(v@);
        match decode_interval(buf, cur) {
            Some((x, c2)) => {
                proof {
                    assert(b.skip(c2 - cur) =~= buf@.skip(c2 as int));
                }
                v.push(x);
                proof {
                    assert(intervals_view(v@) =~= before.push(x@));
                    let rest = parse_items(buf@.skip(c2 as int), (n - k - 1) as nat, interval_parse());
                    if let Some((xs, l)) = rest {
                        assert(before + (seq![x@] + xs) =~= intervals_view(v@) + xs);
                    }
                }
                cur = c2;
            },
            None => {
                proof {
                    assert(parse_items(b, (n - k) as nat, interval_parse()) is None);
                    assert(parse_items(buf@.skip(start as int), n as nat, interval_parse()) is None);
                    assert(parse_u64(buf@.skip(pos as int)) == Some((n, 8nat)));
                    reveal(parse_intervals);
                    assert(parse_intervals(buf@.skip(pos as int)) is None);
                }
                return None;
            },
        }
        k = k + 1;
    }
    proof {
        assert(intervals_view(v@) + Seq::<IntervalModel>::empty() =~= intervals_view(v@));
    }
    Some((v, cur))
}

/// A chromosome's output: its name, the bucket size, its source intervals, then its target intervals.
#[verifier::opaque]
pub open spec fn enc_chromosome(m: ChromosomeDataModel) -> Seq<u8> {
    enc_str(m.chrom) + enc_u32(m.bucket_size) + enc_intervals(m.source_intervals) + enc_intervals(m.target_intervals)
}

/// Reads a chromosome's output: its name, the bucket size, its source intervals, then its target intervals at the front of `b`.
#[verifier::opaque]
pub open spec fn parse_chromosome(b: Seq<u8>) -> Option<(ChromosomeDataModel, nat)> {
    match parse_str(b) {
        Some((f0, l0)) => {
            match parse_u32(b.skip(l0 as int)) {
                Some((f1, l1)) => {
                    match parse_intervals(b.skip(l0 as int).skip(l1 as int)) {
                        Some((f2, l2)) => {
                            match parse_intervals(b.skip(l0 as int).skip(l1 as int).skip(l2 as int)) {
                                Some((f3, l3)) => Some((ChromosomeDataModel { chrom: f0, bucket_size: f1, source_intervals: f2, target_intervals: f3 }, (l0 + l1 + l2 + l3) as nat)),
                                None => None,
                            }
                        },
                        None => None,
                    }
                },
                None => None,
            }
        },
        None => None,
    }
}

/// `enc_chromosome` as a function value.
pub open spec fn chromosome_enc() -> spec_fn(ChromosomeDataModel) -> Seq<u8> {
    |m: ChromosomeDataModel| enc_chromosome(m)
}

/// `parse_chromosome` as a function value.
pub open spec fn chromosome_parse() -> spec_fn(Seq<u8>) -> Option<(ChromosomeDataModel, nat)> {
    |b: Seq<u8>| parse_chromosome(b)
}

/// Every part of the value can be written.
pub open spec fn chromosome_ok(m: ChromosomeDataModel) -> bool {
    str_ok(m.chrom) && intervals_ok(m.source_intervals) && intervals_ok(m.target_intervals)
}

/// `chromosome_ok` as a function value.
pub open spec fn chromosome_okf() -> spec_fn(ChromosomeDataModel) -> bool {
    |m: ChromosomeDataModel| chromosome_ok(m)
}

/// Reading back what `enc_chromosome` writes gives the value.
pub proof fn lemma_chromosome_round_trips()
    ensures
        round_trips(chromosome_enc(), chromosome_parse(), chromosome_okf()),
{
    reveal(enc_chromosome);
    reveal(parse_chromosome);
    assert forall|a: ChromosomeDataModel, rest: Seq<u8>| chromosome_okf()(a) implies #[trigger] chromosome_parse()(
        chromosome_enc()(a) + rest,
    ) == Some((a, chromosome_enc()(a).len())) by {
        let c0 = enc_chromosome(a) + rest;
        assert(c0 =~= enc_str(a.chrom) + (enc_u32(a.bucket_size) + (enc_intervals(a.source_intervals) + (enc_intervals(a.target_intervals) + rest))));
        lemma_str_round_trip(a.chrom, (enc_u32(a.bucket_size) + (enc_intervals(a.source_intervals) + (enc_intervals(a.target_intervals) + rest))));
        let c1 = c0.skip(enc_str(a.chrom).len() as int);
        assert(c1 =~= enc_u32(a.bucket_size) + (enc_intervals(a.source_intervals) + (enc_intervals(a.target_intervals) + rest)));
        lemma_u32_round_trip(a.bucket_size, (enc_intervals(a.source_intervals) + (enc_intervals(a.target_intervals) + rest)));
        let c2 = c1.skip(enc_u32(a.bucket_size).len() as int);
        assert(c2 =~= enc_intervals(a.source_intervals) + (enc_intervals(a.target_intervals) + rest));
        lemma_intervals_round_trip(a.source_intervals, (enc_intervals(a.target_intervals) + rest));
        let c3 = c2.skip(enc_intervals(a.source_intervals).len() as int);
        assert(c3 =~= enc_intervals(a.target_intervals) + rest);
        lemma_intervals_round_trip(a.target_intervals, rest);
    }
}

/// Appends the encoding of the value.
pub fn encode_chromosome(x: &ChromosomeData, out: &mut Vec<u8>)
    ensures
        final(out)@ == old(out)@ + enc_chromosome(x@),
        chromosome_ok(x@),
{
    proof {
        reveal(enc_chromosome);
        reveal(parse_chromosome);
    }
    encode_str(&x.chrom, out);
    encode_u32(x.bucket_size, out);
    encode_intervals(&x.source_intervals, out);
    encode_intervals(&x.target_intervals, out);
    proof {
        assert(out@ =~= old(out)@ + enc_chromosome(x@));
    }
}

/// Reads a value at `pos`, returning it and the position after it.
pub fn decode_chromosome(buf: &Vec<u8>, pos: usize) -> (r: Option<(ChromosomeData, usize)>)
    requires
        pos <= buf@.len(),
    ensures
        match parse_chromosome(buf@.skip(pos as int)) {
            Some((m, n)) => r matches Some((x, q)) && x@ == m && q == pos + n && q <= buf@.len(),
            None => r is None,
        },
{
    proof {
        reveal(enc_chromosome);
        reveal(parse_chromosome);
    }
    let (x0, at0) = match decode_str(buf, pos) {
        Some(r) => r,
        None => return None,
    };
    proof {
        assert(buf@.skip(pos as int).skip(at0 - pos) =~= buf@.skip(at0 as int));
    }
    let (x1, at1) = match decode_u32(buf, at0) {
        Some(r) => r,
        None => return None,
    };
    proof {
        assert(buf@.skip(at0 as int).skip(at1 - at0) =~= buf@.skip(at1 as int));
    }
    let (x2, at2) = match decode_intervals(buf, at1) {
        Some(r) => r,
        None => return None,
    };
    proof {
        assert(buf@.skip(at1 as int).skip(at2 - at1) =~= buf@.skip(at2 as int));
    }
    let (x3, at3) = match decode_intervals(buf, at2) {
        Some(r) => r,
        None => return None,
    };
    Some((ChromosomeData { chrom: x0, bucket_size: x1, source_intervals: x2, target_intervals: x3 }, at3))
}

/// A list of chromosome outputs.
#[verifier::opaque]
pub open spec fn enc_chromosomes(s: Seq<ChromosomeDataModel>) -> Seq<u8> {
    enc_seq(s, chromosome_enc())
}

/// Reads a list of chromosome outputs at the front of `b`.
#[verifier::opaque]
pub open spec fn parse_chromosomes(b: Seq<u8>) -> Option<(Seq<ChromosomeDataModel>, nat)> {
    parse_seq(b, chromosome_parse())
}

/// Every item can be written and the count fits in a `u64`.
pub open spec fn chromosomes_ok(s: Seq<ChromosomeDataModel>) -> bool {
    s.len() <= u64::MAX && forall|i: int| 0 <= i < s.len() ==> chromosome_okf()(#[trigger] s[i])
}

/// Reading the list back from its encoding gives the list.
pub proof fn lemma_chromosomes_round_trip(s: Seq<ChromosomeDataModel>, rest: Seq<u8>)
    requires
        chromosomes_ok(s),
    ensures
        parse_chromosomes(enc_chromosomes(s) + rest) == Some((s, enc_chromosomes(s).len())),
{
    reveal(enc_chromosomes);
    reveal(parse_chromosomes);
    lemma_chromosome_round_trips();
    lemma_seq_round_trip(s, chromosome_enc(), chromosome_parse(), chromosome_okf(), rest);
}

/// Appends the encoding of a list.
pub fn encode_chromosomes(v: &Vec<ChromosomeData>, out: &mut Vec<u8>)
    ensures
        final(out)@ == old(out)@ + enc_chromosomes(chromosomes_view(v@)),
        chromosomes_ok(chromosomes_view(v@)),
{
    proof {
        reveal(enc_chromosomes);
        reveal(parse_chromosomes);
    }
    let ghost m = chromosomes_view(v@);
    encode_u64(v.len() as u64, out);
    let mut i: usize = 0;
    while i < v.len()
        invariant
            i <= v@.len(),
            m == chromosomes_view(v@),
            m.len() == v@.len(),
            forall|j: int| 0 <= j < i ==> chromosome_okf()(#[trigger] m[j]),
            out@ == old(out)@ + enc_u64(v@.len() as u64) + enc_items(m.subrange(0, i as int), chromosome_enc()),
        decreases v@.len() - i,
    {
        let ghost before = out@;
        encode_chromosome(&v[i], out);
        proof {
            assert(m.subrange(0, i + 1).drop_last() =~= m.subrange(0, i as int));
            assert(m.subrange(0, i + 1).last() == v@[i as int]@);
            assert(out@ =~= old(out)@ + enc_u64(v@.len() as u64) + enc_items(m.subrange(0, i + 1), chromosome_enc()));
        }
        i = i + 1;
    }
    proof {
        assert(m.subrange(0, i as int) =~= m);
        assert(out@ =~= old(out)@ + enc_chromosomes(m));
    }
}

/// Reads a list at `pos`, returning it and the position after it.
pub fn decode_chromosomes(buf: &Vec<u8>, pos: usize) -> (r: Option<(Vec<ChromosomeData>, usize)>)
    requires
        pos <= buf@.len(),
    ensures
        match parse_chromosomes(buf@.skip(pos as int)) {
            Some((m, n)) => r matches Some((v, q)) && chromosomes_view(v@) == m && q == pos + n && q <= buf@.len(),
            None => r is None,
        },
{
    proof {
        reveal(enc_chromosomes);
        reveal(parse_chromosomes);
    }
    let (n, start) = match decode_u64(buf, pos) {
        Some(x) => x,
        None => return None,
    };
    proof {
        assert(buf@.skip(pos as int).skip(8) =~= buf@.skip(start as int));
    }
    let mut v: Vec<ChromosomeData> = Vec::new();
    let mut cur = start;
    let mut k: u64 = 0;
    while k < n
        invariant
            start <= cur <= buf@.len(),
            start == pos + 8,
            parse_u64(buf@.skip(pos as int)) == Some((n, 8nat)),
            buf@.skip(pos as int).skip(8) == buf@.skip(start as int),
            k <= n,
            parse_items(buf@.skip(start as int), n as nat, chromosome_parse()) == match parse_items(
                buf@.skip(cur as int),
                (n - k) as nat,
                chromosome_parse(),
            ) {
                Some((xs, l)) => Some((chromosomes_view(v@) + xs, ((cur - start) + l) as nat)),
                None => None::<(Seq<ChromosomeDataModel>, nat)>,
            },
        decreases n - k,
    {
        let ghost b = buf@.skip(cur as int);
        let ghost before = chromosomes_view(v@);
        match decode_chromosome(buf, cur) {
            Some((x, c2)) => {
                proof {
                    assert(b.skip(c2 - cur) =~= buf@.skip(c2 as int));
                }
                v.push(x);
                proof {
                    assert(chromosomes_view(v@) =~= before.push(x@));
                    let rest = parse_items(buf@.skip(c2 as int), (n - k - 1) as nat, chromosome_parse());
                    if let Some((xs, l)) = rest {
                        assert(before + (seq![x@] + xs) =~= chromosomes_view(v@) + xs);
                    }
                }
                cur = c2;
            },
            None => {
                proof {
                    assert(parse_items(b, (n - k) as nat, chromosome_parse()) is None);
                    assert(parse_items(buf@.skip(start as int), n as nat, chromosome_parse()) is None);
                    assert(parse_u64(buf@.skip(pos as int)) == Some((n, 8nat)));
                    reveal(parse_chromosomes);
                    assert(parse_chromosomes(buf@.skip(pos as int)) is None);
                }
                return None;
            },
        }
        k = k + 1;
    }
    proof {
        assert(chromosomes_view(v@) + Seq::<ChromosomeDataModel>::empty() =~= chromosomes_view(v@));
    }
    Some((v, cur))
}

/// A side: 0 for the target side, 1 for the source side, as a `u32`.
pub open spec fn enc_side(c: FacetCoverage) -> Seq<u8> {
    enc_u32(
        match c {
            FacetCoverage::Target => 0u32,
            FacetCoverage::Source => 1u32,
        },
    )
}

/// Reads a side at the front of `b`.
pub open spec fn parse_side(b: Seq<u8>) -> Option<(FacetCoverage, nat)> {
    match parse_u32(b) {
        Some((v, l)) => if v == 0 {
            Some((FacetCoverage::Target, l))
        } else if v == 1 {
            Some((FacetCoverage::Source, l))
        } else {
            None
        },
        None => None,
    }
}

/// `enc_side` as a function value.
pub open spec fn side_enc() -> spec_fn(FacetCoverage) -> Seq<u8> {
    |c: FacetCoverage| enc_side(c)
}

/// `parse_side` as a function value.
pub open spec fn side_parse() -> spec_fn(Seq<u8>) -> Option<(FacetCoverage, nat)> {
    |b: Seq<u8>| parse_side(b)
}

/// `side_ok` as a function value.
pub open spec fn side_okf() -> spec_fn(FacetCoverage) -> bool {
    |c: FacetCoverage| true
}

/// Reading back what `enc_side` writes gives the value.
pub proof fn lemma_side_round_trips()
    ensures
        round_trips(side_enc(), side_parse(), side_okf()),
{
    assert forall|a: FacetCoverage, rest: Seq<u8>| side_okf()(a) implies #[trigger] side_parse()(
        side_enc()(a) + rest,
    ) == Some((a, side_enc()(a).len())) by {
        match a {
            FacetCoverage::Target => lemma_u32_round_trip(0, rest),
            FacetCoverage::Source => lemma_u32_round_trip(1, rest),
        }
    }
}

/// Appends the encoding of a side.
pub fn encode_side(c: FacetCoverage, out: &mut Vec<u8>)
    ensures
        final(out)@ == old(out)@ + enc_side(c),
{
    match c {
        FacetCoverage::Target => encode_u32(0, out),
        FacetCoverage::Source => encode_u32(1, out),
    }
}

/// Reads a side at `pos`, returning it and the position after it.
pub fn decode_side(buf: &Vec<u8>, pos: usize) -> (r: Option<(FacetCoverage, usize)>)
    requires
        pos <= buf@.len(),
    ensures
        match parse_side(buf@.skip(pos as int)) {
            Some((m, n)) => r matches Some((x, q)) && x == m && q == pos + n && q <= buf@.len(),
            None => r is None,
        },
{
    match decode_u32(buf, pos) {
        Some((v, q)) => if v == 0 {
            Some((FacetCoverage::Target, q))
        } else if v == 1 {
            Some((FacetCoverage::Source, q))
        } else {
            None
        },
        None => None,
    }
}

/// A list of sides.
#[verifier::opaque]
pub open spec fn enc_sides(s: Seq<FacetCoverage>) -> Seq<u8> {
    enc_seq(s, side_enc())
}

/// Reads a list of sides at the front of `b`.
#[verifier::opaque]
pub open spec fn parse_sides(b: Seq<u8>) -> Option<(Seq<FacetCoverage>, nat)> {
    parse_seq(b, side_parse())
}

/// Every item can be written and the count fits in a `u64`.
pub open spec fn sides_ok(s: Seq<FacetCoverage>) -> bool {
    s.len() <= u64::MAX && forall|i: int| 0 <= i < s.len() ==> side_okf()(#[trigger] s[i])
}

/// Reading the list back from its encoding gives the list.
pub proof fn lemma_sides_round_trip(s: Seq<FacetCoverage>, rest: Seq<u8>)
    requires
        sides_ok(s),
    ensures
        parse_sides(enc_sides(s) + rest) == Some((s, enc_sides(s).len())),
{
    reveal(enc_sides);
    reveal(parse_sides);
    lemma_side_round_trips();
    lemma_seq_round_trip(s, side_enc(), side_parse(), side_okf(), rest);
}

/// Appends the encoding of a list.
pub fn encode_sides(v: &Vec<FacetCoverage>, out: &mut Vec<u8>)
    ensures
        final(out)@ == old(out)@ + enc_sides(v@),
        sides_ok(v@),
{
    proof {
        reveal(enc_sides);
        reveal(parse_sides);
    }
    let ghost m = v@;
    encode_u64(v.len() as u64, out);
    let mut i: usize = 0;
    while i < v.len()
        invariant
            i <= v@.len(),
            m == v@,
            m.len() == v@.len(),
            forall|j: int| 0 <= j < i ==> side_okf()(#[trigger] m[j]),
            out@ == old(out)@ + enc_u64(v@.len() as u64) + enc_items(m.subrange(0, i as int), side_enc()),
        decreases v@.len() - i,
    {
        let ghost before = out@;
        encode_side(v[i], out);
        proof {
            assert(m.subrange(0, i + 1).drop_last() =~= m.subrange(0, i as int));
            assert(m.subrange(0, i + 1).last() == v@[i as int]);
            assert(out@ =~= old(out)@ + enc_u64(v@.len() as u64) + enc_items(m.subrange(0, i + 1), side_enc()));
        }
        i = i + 1;
    }
    proof {
        assert(m.subrange(0, i as int) =~= m);
        assert(out@ =~= old(out)@ + enc_sides(m));
    }
}

/// Reads a list at `pos`, returning it and the position after it.
pub fn decode_sides(buf: &Vec<u8>, pos: usize) -> (r: Option<(Vec<FacetCoverage>, usize)>)
    requires
        pos <= buf@.len(),
    ensures
        match parse_sides(buf@.skip(pos as int)) {
            Some((m, n)) => r matches Some((v, q)) && v@ == m && q == pos + n && q <= buf@.len(),
            None => r is None,
        },
{
    proof {
        reveal(enc_sides);
        reveal(parse_sides);
    }
    let (n, start) = match decode_u64(buf, pos) {
        Some(x) => x,
        None => return None,
    };
    proof {
        assert(buf@.skip(pos as int).skip(8) =~= buf@.skip(start as int));
    }
    let mut v: Vec<FacetCoverage> = Vec::new();
    let mut cur = start;
    let mut k: u64 = 0;
    while k < n
        invariant
            start <= cur <= buf@.len(),
            start == pos + 8,
            parse_u64(buf@.skip(pos as int)) == Some((n, 8nat)),
            buf@.skip(pos as int).skip(8) == buf@.skip(start as int),
            k <= n,
            parse_items(buf@.skip(start as int), n as nat, side_parse()) == match parse_items(
                buf@.skip(cur as int),
                (n - k) as nat,
                side_parse(),
            ) {
                Some((xs, l)) => Some((v@ + xs, ((cur - start) + l) as nat)),
                None => None::<(Seq<FacetCoverage>, nat)>,
            },
        decreases n - k,
    {
        let ghost b = buf@.skip(cur as int);
        let ghost before = v@;
        match decode_side(buf, cur) {
            Some((x, c2)) => {
                proof {
                    assert(b.skip(c2 - cur) =~= buf@.skip(c2 as int));
                }
                v.push(x);
                proof {
                    assert(v@ =~= before.push(x));
                    let rest = parse_items(buf@.skip(c2 as int), (n - k - 1) as nat, side_parse());
                    if let Some((xs, l)) = rest {
                        assert(before + (seq![x] + xs) =~= v@ + xs);
                    }
                }
                cur = c2;
            },
            None => {
                proof {
                    assert(parse_items(b, (n - k) as nat, side_parse()) is None);
                    assert(parse_items(buf@.skip(start as int), n as nat, side_parse()) is None);
                    assert(parse_u64(buf@.skip(pos as int)) == Some((n, 8nat)));
                    reveal(parse_sides);
                    assert(parse_sides(buf@.skip(pos as int)) is None);
                }
                return None;
            },
        }
        k = k + 1;
    }
    proof {
        assert(v@ + Seq::<FacetCoverage>::empty() =~= v@);
    }
    Some((v, cur))
}

/// A numeric range: its minimum, then its maximum.
#[verifier::opaque]
pub open spec fn enc_range(m: FacetRange) -> Seq<u8> {
    enc_u32(m.0) + enc_u32(m.1)
}

/// Reads a numeric range: its minimum, then its maximum at the front of `b`.
#[verifier::opaque]
pub open spec fn parse_range(b: Seq<u8>) -> Option<(FacetRange, nat)> {
    match parse_u32(b) {
        Some((f0, l0)) => {
            match parse_u32(b.skip(l0 as int)) {
                Some((f1, l1)) => Some((FacetRange(f0, f1), (l0 + l1) as nat)),
                None => None,
            }
        },
        None => None,
    }
}

/// `enc_range` as a function value.
pub open spec fn range_enc() -> spec_fn(FacetRange) -> Seq<u8> {
    |m: FacetRange| enc_range(m)
}

/// `parse_range` as a function value.
pub open spec fn range_parse() -> spec_fn(Seq<u8>) -> Option<(FacetRange, nat)> {
    |b: Seq<u8>| parse_range(b)
}

/// Every part of the value can be written.
pub open spec fn range_ok(m: FacetRange) -> bool {
    true
}

/// `range_ok` as a function value.
pub open spec fn range_okf() -> spec_fn(FacetRange) -> bool {
    |m: FacetRange| range_ok(m)
}

/// Reading back what `enc_range` writes gives the value.
pub proof fn lemma_range_round_trips()
    ensures
        round_trips(range_enc(), range_parse(), range_okf()),
{
    reveal(enc_range);
    reveal(parse_range);
    assert forall|a: FacetRange, rest: Seq<u8>| range_okf()(a) implies #[trigger] range_parse()(
        range_enc()(a) + rest,
    ) == Some((a, range_enc()(a).len())) by {
        let c0 = enc_range(a) + rest;
        assert(c0 =~= enc_u32(a.0) + (enc_u32(a.1) + rest));
        lemma_u32_round_trip(a.0, (enc_u32(a.1) + rest));
        let c1 = c0.skip(enc_u32(a.0).len() as int);
        assert(c1 =~= enc_u32(a.1) + rest);
        lemma_u32_round_trip(a.1, rest);
    }
}

/// Reading the value back from its encoding gives the value.
pub proof fn lemma_range_round_trip(m: FacetRange, rest: Seq<u8>)
    requires
        range_ok(m),
    ensures
        parse_range(enc_range(m) + rest) == Some((m, enc_range(m).len())),
{
    reveal(enc_range);
    reveal(parse_range);
    lemma_range_round_trips();
    assert(range_parse()(range_enc()(m) + rest) == Some((m, range_enc()(m).len())));
}

/// Appends the encoding of the value.
pub fn encode_range(x: &FacetRange, out: &mut Vec<u8>)
    ensures
        final(out)@ == old(out)@ + enc_range(*x),
        range_ok(*x),
{
    proof {
        reveal(enc_range);
        reveal(parse_range);
    }
    encode_u32(x.0, out);
    encode_u32(x.1, out);
    proof {
        assert(out@ =~= old(out)@ + enc_range(*x));
    }
}

/// Reads a value at `pos`, returning it and the position after it.
pub fn decode_range(buf: &Vec<u8>, pos: usize) -> (r: Option<(FacetRange, usize)>)
    requires
        pos <= buf@.len(),
    ensures
        match parse_range(buf@.skip(pos as int)) {
            Some((m, n)) => r matches Some((x, q)) && x == m && q == pos + n && q <= buf@.len(),
            None => r is None,
        },
{
    proof {
        reveal(enc_range);
        reveal(parse_range);
    }
    let (x0, at0) = match decode_u32(buf, pos) {
        Some(r) => r,
        None => return None,
    };
    proof {
        assert(buf@.skip(pos as int).skip(at0 - pos) =~= buf@.skip(at0 as int));
    }
    let (x1, at1) = match decode_u32(buf, at0) {
        Some(r) => r,
        None => return None,
    };
    Some((FacetRange(x0, x1), at1))
}

/// A facet value: its id, then its text.
#[verifier::opaque]
pub open spec fn enc_value(m: (u64, Seq<char>)) -> Seq<u8> {
    enc_u64(m.0) + enc_str(m.1)
}

/// Reads a facet value: its id, then its text at the front of `b`.
#[verifier::opaque]
pub open spec fn parse_value(b: Seq<u8>) -> Option<((u64, Seq<char>), nat)> {
    match parse_u64(b) {
        Some((f0, l0)) => {
            match parse_str(b.skip(l0 as int)) {
                Some((f1, l1)) => Some(((f0, f1), (l0 + l1) as nat)),
                None => None,
            }
        },
        None => None,
    }
}

/// `enc_value` as a function value.
pub open spec fn value_enc() -> spec_fn((u64, Seq<char>)) -> Seq<u8> {
    |m: (u64, Seq<char>)| enc_value(m)
}

/// `parse_value` as a function value.
pub open spec fn value_parse() -> spec_fn(Seq<u8>) -> Option<((u64, Seq<char>), nat)> {
    |b: Seq<u8>| parse_value(b)
}

/// Every part of the value can be written.
pub open spec fn value_ok(m: (u64, Seq<char>)) -> bool {
    str_ok(m.1)
}

/// `value_ok` as a function value.
pub open spec fn value_okf() -> spec_fn((u64, Seq<char>)) -> bool {
    |m: (u64, Seq<char>)| value_ok(m)
}

/// Reading back what `enc_value` writes gives the value.
pub proof fn lemma_value_round_trips()
    ensures
        round_trips(value_enc(), value_parse(), value_okf()),
{
    reveal(enc_value);
    reveal(parse_value);
    assert forall|a: (u64, Seq<char>), rest: Seq<u8>| value_okf()(a) implies #[trigger] value_parse()(
        value_enc()(a) + rest,
    ) == Some((a, value_enc()(a).len())) by {
        let c0 = enc_value(a) + rest;
        assert(c0 =~= enc_u64(a.0) + (enc_str(a.1) + rest));
        lemma_u64_round_trip(a.0, (enc_str(a.1) + rest));
        let c1 = c0.skip(enc_u64(a.0).len() as int);
        assert(c1 =~= enc_str(a.1) + rest);
        lemma_str_round_trip(a.1, rest);
    }
}

/// Appends the encoding of the value.
pub fn encode_value(x: &(u64, String), out: &mut Vec<u8>)
    ensures
        final(out)@ == old(out)@ + enc_value((x.0, x.1@)),
        value_ok((x.0, x.1@)),
{
    proof {
        reveal(enc_value);
        reveal(parse_value);
    }
    encode_u64(x.0, out);
    encode_str(&x.1, out);
    proof {
        assert(out@ =~= old(out)@ + enc_value((x.0, x.1@)));
    }
}

/// Reads a value at `pos`, returning it and the position after it.
pub fn decode_value(buf: &Vec<u8>, pos: usize) -> (r: Option<((u64, String), usize)>)
    requires
        pos <= buf@.len(),
    ensures
        match parse_value(buf@.skip(pos as int)) {
            Some((m, n)) => r matches Some((x, q)) && (x.0, x.1@) == m && q == pos + n && q <= buf@.len(),
            None => r is None,
        },
{
    proof {
        reveal(enc_value);
        reveal(parse_value);
    }
    let (x0, at0) = match decode_u64(buf, pos) {
        Some(r) => r,
        None => return None,
    };
    proof {
        assert(buf@.skip(pos as int).skip(at0 - pos) =~= buf@.skip(at0 as int));
    }
    let (x1, at1) = match decode_str(buf, at0) {
        Some(r) => r,
        None => return None,
    };
    Some(((x0, x1), at1))
}

/// A list of facet values.
#[verifier::opaque]
pub open spec fn enc_values(s: Seq<(u64, Seq<char>)>) -> Seq<u8> {
    enc_seq(s, value_enc())
}

/// Reads a list of facet values at the front of `b`.
#[verifier::opaque]
pub open spec fn parse_values(b: Seq<u8>) -> Option<(Seq<(u64, Seq<char>)>, nat)> {
    parse_seq(b, value_parse())
}

/// Every item can be written and the count fits in a `u64`.
pub open spec fn values_ok(s: Seq<(u64, Seq<char>)>) -> bool {
    s.len() <= u64::MAX && forall|i: int| 0 <= i < s.len() ==> value_okf()(#[trigger] s[i])
}

/// Reading the list back from its encoding gives the list.
pub proof fn lemma_values_round_trip(s: Seq<(u64, Seq<char>)>, rest: Seq<u8>)
    requires
        values_ok(s),
    ensures
        parse_values(enc_values(s) + rest) == Some((s, enc_values(s).len())),
{
    reveal(enc_values);
    reveal(parse_values);
    lemma_value_round_trips();
    lemma_seq_round_trip(s, value_enc(), value_parse(), value_okf(), rest);
}

/// Appends the encoding of a list.
pub fn encode_values(v: &Vec<(u64, String)>, out: &mut Vec<u8>)
    ensures
        final(out)@ == old(out)@ + enc_values(values_view(v@)),
        values_ok(values_view(v@)),
{
    proof {
        reveal(enc_values);
        reveal(parse_values);
    }
    let ghost m = values_view(v@);
    encode_u64(v.len() as u64, out);
    let mut i: usize = 0;
    while i < v.len()
        invariant
            i <= v@.len(),
            m == values_view(v@),
            m.len() == v@.len(),
            forall|j: int| 0 <= j < i ==> value_okf()(#[trigger] m[j]),
            out@ == old(out)@ + enc_u64(v@.len() as u64) + enc_items(m.subrange(0, i as int), value_enc()),
        decreases v@.len() - i,
    {
        let ghost before = out@;
        encode_value(&v[i], out);
        proof {
            assert(m.subrange(0, i + 1).drop_last() =~= m.subrange(0, i as int));
            assert(m.subrange(0, i + 1).last() == (v@[i as int].0, v@[i as int].1@));
            assert(out@ =~= old(out)@ + enc_u64(v@.len() as u64) + enc_items(m.subrange(0, i + 1), value_enc()));
        }
        i = i + 1;
    }
    proof {
        assert(m.subrange(0, i as int) =~= m);
        assert(out@ =~= old(out)@ + enc_values(m));
    }
}

/// Reads a list at `pos`, returning it and the position after it.
pub fn decode_values(buf: &Vec<u8>, pos: usize) -> (r: Option<(Vec<(u64, String)>, usize)>)
    requires
        pos <= buf@.len(),
    ensures
        match parse_values(buf@.skip(pos as int)) {
            Some((m, n)) => r matches Some((v, q)) && values_view(v@) == m && q == pos + n && q <= buf@.len(),
            None => r is None,
        },
{
    proof {
        reveal(enc_values);
        reveal(parse_values);
    }
    let (n, start) = match decode_u64(buf, pos) {
        Some(x) => x,
        None => return None,
    };
    proof {
        assert(buf@.skip(pos as int).skip(8) =~= buf@.skip(start as int));
    }
    let mut v: Vec<(u64, String)> = Vec::new();
    let mut cur = start;
    let mut k: u64 = 0;
    while k < n
        invariant
            start <= cur <= buf@.len(),
            start == pos + 8,
            parse_u64(buf@.skip(pos as int)) == Some((n, 8nat)),
            buf@.skip(pos as int).skip(8) == buf@.skip(start as int),
            k <= n,
            parse_items(buf@.skip(start as int), n as nat, value_parse()) == match parse_items(
                buf@.skip(cur as int),
                (n - k) as nat,
                value_parse(),
            ) {
                Some((xs, l)) => Some((values_view(v@) + xs, ((cur - start) + l) as nat)),
                None => None::<(Seq<(u64, Seq<char>)>, nat)>,
            },
        decreases n - k,
    {
        let ghost b = buf@.skip(cur as int);
        let ghost before = values_view(v@);
        match decode_value(buf, cur) {
            Some((x, c2)) => {
                proof {
                    assert(b.skip(c2 - cur) =~= buf@.skip(c2 as int));
                }
                v.push(x);
                proof {
                    assert(values_view(v@) =~= before.push((x.0, x.1@)));
                    let rest = parse_items(buf@.skip(c2 as int), (n - k - 1) as nat, value_parse());
                    if let Some((xs, l)) = rest {
                        assert(before + (seq![(x.0, x.1@)] + xs) =~= values_view(v@) + xs);
                    }
                }
                cur = c2;
            },
            None => {
                proof {
                    assert(parse_items(b, (n - k) as nat, value_parse()) is None);
                    assert(parse_items(buf@.skip(start as int), n as nat, value_parse()) is None);
                    assert(parse_u64(buf@.skip(pos as int)) == Some((n, 8nat)));
                    reveal(parse_values);
                    assert(parse_values(buf@.skip(pos as int)) is None);
                }
                return None;
            },
        }
        k = k + 1;
    }
    proof {
        assert(values_view(v@) + Seq::<(u64, Seq<char>)>::empty() =~= values_view(v@));
    }
    Some((v, cur))
}

/// `enc_sides_list` as a function value.
pub open spec fn sides_list_enc() -> spec_fn(Seq<FacetCoverage>) -> Seq<u8> {
    |m: Seq<FacetCoverage>| enc_sides(m)
}

/// `parse_sides_list` as a function value.
pub open spec fn sides_list_parse() -> spec_fn(Seq<u8>) -> Option<(Seq<FacetCoverage>, nat)> {
    |b: Seq<u8>| parse_sides(b)
}

/// `sides_list_ok` as a function value.
pub open spec fn sides_list_okf() -> spec_fn(Seq<FacetCoverage>) -> bool {
    |m: Seq<FacetCoverage>| sides_ok(m)
}

/// An optional list of sides.
#[verifier::opaque]
pub open spec fn enc_opt_sides(o: Option<Seq<FacetCoverage>>) -> Seq<u8> {
    enc_opt(o, sides_list_enc())
}

/// Reads an optional list of sides at the front of `b`.
#[verifier::opaque]
pub open spec fn parse_opt_sides(b: Seq<u8>) -> Option<(Option<Seq<FacetCoverage>>, nat)> {
    parse_opt(b, sides_list_parse())
}

/// Reading the value back from its encoding gives the value.
pub proof fn lemma_opt_sides_round_trip(o: Option<Seq<FacetCoverage>>, rest: Seq<u8>)
    requires
        o matches Some(a) ==> sides_ok(a),
    ensures
        parse_opt_sides(enc_opt_sides(o) + rest) == Some((o, enc_opt_sides(o).len())),
{
    reveal(enc_opt_sides);
    reveal(parse_opt_sides);
    assert forall|a: Seq<FacetCoverage>, r: Seq<u8>| sides_list_okf()(a) implies #[trigger] sides_list_parse()(
        sides_list_enc()(a) + r,
    ) == Some((a, sides_list_enc()(a).len())) by {
        lemma_sides_round_trip(a, r);
    }
    lemma_opt_round_trip(o, sides_list_enc(), sides_list_parse(), sides_list_okf(), rest);
}

/// Appends the encoding of an optional value.
pub fn encode_opt_sides(o: &Option<Vec<FacetCoverage>>, out: &mut Vec<u8>)
    ensures
        final(out)@ == old(out)@ + enc_opt_sides(match o {
            Some(x) => Some(x@),
            None => None,
        }),
        o matches Some(x) ==> sides_ok(x@),
{
    proof {
        reveal(enc_opt_sides);
        reveal(parse_opt_sides);
    }
    match o {
        Some(x) => {
            out.push(1u8);
            let ghost mid = out@;
            encode_sides(x, out);
            proof {
                assert(out@ =~= old(out)@ + enc_opt_sides(Some(x@)));
            }
        },
        None => {
            out.push(0u8);
            proof {
                assert(out@ =~= old(out)@ + enc_opt_sides(None));
            }
        },
    }
}

/// Reads an optional value at `pos`, returning it and the position after it.
pub fn decode_opt_sides(buf: &Vec<u8>, pos: usize) -> (r: Option<(Option<Vec<FacetCoverage>>, usize)>)
    requires
        pos <= buf@.len(),
    ensures
        match parse_opt_sides(buf@.skip(pos as int)) {
            Some((m, n)) => r matches Some((o, q)) && q == pos + n && q <= buf@.len() && (o matches Some(
                x,
            ) ==> m == Some(x@)) && (o is None ==> m is None),
            None => r is None,
        },
{
    proof {
        reveal(enc_opt_sides);
        reveal(parse_opt_sides);
    }
    if pos >= buf.len() {
        return None;
    }
    let tag = buf[pos];
    if tag == 0 {
        Some((None, pos + 1))
    } else if tag == 1 {
        proof {
            assert(buf@.skip(pos as int).skip(1) =~= buf@.skip(pos + 1));
        }
        match decode_sides(buf, pos + 1) {
            Some((x, q)) => Some((Some(x), q)),
            None => None,
        }
    } else {
        None
    }
}

/// `enc_range_list` as a function value.
pub open spec fn range_list_enc() -> spec_fn(FacetRange) -> Seq<u8> {
    |m: FacetRange| enc_range(m)
}

/// `parse_range_list` as a function value.
pub open spec fn range_list_parse() -> spec_fn(Seq<u8>) -> Option<(FacetRange, nat)> {
    |b: Seq<u8>| parse_range(b)
}

/// `range_list_ok` as a function value.
pub open spec fn range_list_okf() -> spec_fn(FacetRange) -> bool {
    |m: FacetRange| range_ok(m)
}

/// An optional numeric range.
#[verifier::opaque]
pub open spec fn enc_opt_range(o: Option<FacetRange>) -> Seq<u8> {
    enc_opt(o, range_list_enc())
}

/// Reads an optional numeric range at the front of `b`.
#[verifier::opaque]
pub open spec fn parse_opt_range(b: Seq<u8>) -> Option<(Option<FacetRange>, nat)> {
    parse_opt(b, range_list_parse())
}

/// Reading the value back from its encoding gives the value.
pub proof fn lemma_opt_range_round_trip(o: Option<FacetRange>, rest: Seq<u8>)
    requires
        o matches Some(a) ==> range_ok(a),
    ensures
        parse_opt_range(enc_opt_range(o) + rest) == Some((o, enc_opt_range(o).len())),
{
    reveal(enc_opt_range);
    reveal(parse_opt_range);
    assert forall|a: FacetRange, r: Seq<u8>| range_list_okf()(a) implies #[trigger] range_list_parse()(
        range_list_enc()(a) + r,
    ) == Some((a, range_list_enc()(a).len())) by {
        lemma_range_round_trip(a, r);
    }
    lemma_opt_round_trip(o, range_list_enc(), range_list_parse(), range_list_okf(), rest);
}

/// Appends the encoding of an optional value.
pub fn encode_opt_range(o: &Option<FacetRange>, out: &mut Vec<u8>)
    ensures
        final(out)@ == old(out)@ + enc_opt_range(match o {
            Some(x) => Some(*x),
            None => None,
        }),
        o matches Some(x) ==> range_ok(*x),
{
    proof {
        reveal(enc_opt_range);
        reveal(parse_opt_range);
    }
    match o {
        Some(x) => {
            out.push(1u8);
            let ghost mid = out@;
            encode_range(x, out);
            proof {
                assert(out@ =~= old(out)@ + enc_opt_range(Some(*x)));
            }
        },
        None => {
            out.push(0u8);
            proof {
                assert(out@ =~= old(out)@ + enc_opt_range(None));
            }
        },
    }
}

/// Reads an optional value at `pos`, returning it and the position after it.
pub fn decode_opt_range(buf: &Vec<u8>, pos: usize) -> (r: Option<(Option<FacetRange>, usize)>)
    requires
        pos <= buf@.len(),
    ensures
        match parse_opt_range(buf@.skip(pos as int)) {
            Some((m, n)) => r matches Some((o, q)) && q == pos + n && q <= buf@.len() && (o matches Some(
                x,
            ) ==> m == Some(x)) && (o is None ==> m is None),
            None => r is None,
        },
{
    proof {
        reveal(enc_opt_range);
        reveal(parse_opt_range);
    }
    if pos >= buf.len() {
        return None;
    }
    let tag = buf[pos];
    if tag == 0 {
        Some((None, pos + 1))
    } else if tag == 1 {
        proof {
            assert(buf@.skip(pos as int).skip(1) =~= buf@.skip(pos + 1));
        }
        match decode_range(buf, pos + 1) {
            Some((x, q)) => Some((Some(x), q)),
            None => None,
        }
    } else {
        None
    }
}

/// `enc_values_list` as a function value.
pub open spec fn values_list_enc() -> spec_fn(Seq<(u64, Seq<char>)>) -> Seq<u8> {
    |m: Seq<(u64, Seq<char>)>| enc_values(m)
}

/// `parse_values_list` as a function value.
pub open spec fn values_list_parse() -> spec_fn(Seq<u8>) -> Option<(Seq<(u64, Seq<char>)>, nat)> {
    |b: Seq<u8>| parse_values(b)
}

/// `values_list_ok` as a function value.
pub open spec fn values_list_okf() -> spec_fn(Seq<(u64, Seq<char>)>) -> bool {
    |m: Seq<(u64, Seq<char>)>| values_ok(m)
}

/// An optional list of facet values.
#[verifier::opaque]
pub open spec fn enc_opt_values(o: Option<Seq<(u64, Seq<char>)>>) -> Seq<u8> {
    enc_opt(o, values_list_enc())
}

/// Reads an optional list of facet values at the front of `b`.
#[verifier::opaque]
pub open spec fn parse_opt_values(b: Seq<u8>) -> Option<(Option<Seq<(u64, Seq<char>)>>, nat)> {
    parse_opt(b, values_list_parse())
}

/// Reading the value back from its encoding gives the value.
pub proof fn lemma_opt_values_round_trip(o: Option<Seq<(u64, Seq<char>)>>, rest: Seq<u8>)
    requires
        o matches Some(a) ==> values_ok(a),
    ensures
        parse_opt_values(enc_opt_values(o) + rest) == Some((o, enc_opt_values(o).len())),
{
    reveal(enc_opt_values);
    reveal(parse_opt_values);
    assert forall|a: Seq<(u64, Seq<char>)>, r: Seq<u8>| values_list_okf()(a) implies #[trigger] values_list_parse()(
        values_list_enc()(a) + r,
    ) == Some((a, values_list_enc()(a).len())) by {
        lemma_values_round_trip(a, r);
    }
    lemma_opt_round_trip(o, values_list_enc(), values_list_parse(), values_list_okf(), rest);
}

/// Appends the encoding of an optional value.
pub fn encode_opt_values(o: &Option<Vec<(u64, String)>>, out: &mut Vec<u8>)
    ensures
        final(out)@ == old(out)@ + enc_opt_values(match o {
            Some(x) => Some(values_view(x@)),
            None => None,
        }),
        o matches Some(x) ==> values_ok(values_view(x@)),
{
    proof {
        reveal(enc_opt_values);
        reveal(parse_opt_values);
    }
    match o {
        Some(x) => {
            out.push(1u8);
            let ghost mid = out@;
            encode_values(x, out);
            proof {
                assert(out@ =~= old(out)@ + enc_opt_values(Some(values_view(x@))));
            }
        },
        None => {
            out.push(0u8);
            proof {
                assert(out@ =~= old(out)@ + enc_opt_values(None));
            }
        },
    }
}

/// Reads an optional value at `pos`, returning it and the position after it.
pub fn decode_opt_values(buf: &Vec<u8>, pos: usize) -> (r: Option<(Option<Vec<(u64, String)>>, usize)>)
    requires
        pos <= buf@.len(),
    ensures
        match parse_opt_values(buf@.skip(pos as int)) {
            Some((m, n)) => r matches Some((o, q)) && q == pos + n && q <= buf@.len() && (o matches Some(
                x,
            ) ==> m == Some(values_view(x@))) && (o is None ==> m is None),
            None => r is None,
        },
{
    proof {
        reveal(enc_opt_values);
        reveal(parse_opt_values);
    }
    if pos >= buf.len() {
        return None;
    }
    let tag = buf[pos];
    if tag == 0 {
        Some((None, pos + 1))
    } else if tag == 1 {
        proof {
            assert(buf@.skip(pos as int).skip(1) =~= buf@.skip(pos + 1));
        }
        match decode_values(buf, pos + 1) {
            Some((x, q)) => Some((Some(x), q)),
            None => None,
        }
    } else {
        None
    }
}

/// A facet: its id, name, kind and description, then its optional sides, range and values.
#[verifier::opaque]
pub open spec fn enc_facet(m: FacetModel) -> Seq<u8> {
    enc_u64(m.id) + enc_str(m.name) + enc_str(m.facet_type) + enc_str(m.description) + enc_opt_sides(m.coverage) + enc_opt_range(m.range) + enc_opt_values(m.values)
}

/// Reads a facet: its id, name, kind and description, then its optional sides, range and values at the front of `b`.
#[verifier::opaque]
pub open spec fn parse_facet(b: Seq<u8>) -> Option<(FacetModel, nat)> {
    match parse_u64(b) {
        Some((f0, l0)) => {
            match parse_str(b.skip(l0 as int)) {
                Some((f1, l1)) => {
                    match parse_str(b.skip(l0 as int).skip(l1 as int)) {
                        Some((f2, l2)) => {
                            match parse_str(b.skip(l0 as int).skip(l1 as int).skip(l2 as int)) {
                                Some((f3, l3)) => {
                                    match parse_opt_sides(b.skip(l0 as int).skip(l1 as int).skip(l2 as int).skip(l3 as int)) {
                                        Some((f4, l4)) => {
                                            match parse_opt_range(b.skip(l0 as int).skip(l1 as int).skip(l2 as int).skip(l3 as int).skip(l4 as int)) {
                                                Some((f5, l5)) => {
                                                    match parse_opt_values(b.skip(l0 as int).skip(l1 as int).skip(l2 as int).skip(l3 as int).skip(l4 as int).skip(l5 as int)) {
                                                        Some((f6, l6)) => Some((FacetModel { id: f0, name: f1, facet_type: f2, description: f3, coverage: f4, range: f5, values: f6 }, (l0 + l1 + l2 + l3 + l4 + l5 + l6) as nat)),
                                                        None => None,
                                                    }
                                                },
                                                None => None,
                                            }
                                        },
                                        None => None,
                                    }
                                },
                                None => None,
                            }
                        },
                        None => None,
                    }
                },
                None => None,
            }
        },
        None => None,
    }
}

/// `enc_facet` as a function value.
pub open spec fn facet_enc() -> spec_fn(FacetModel) -> Seq<u8> {
    |m: FacetModel| enc_facet(m)
}

/// `parse_facet` as a function value.
pub open spec fn facet_parse() -> spec_fn(Seq<u8>) -> Option<(FacetModel, nat)> {
    |b: Seq<u8>| parse_facet(b)
}

/// Every part of the value can be written.
pub open spec fn facet_ok(m: FacetModel) -> bool {
    str_ok(m.name) && str_ok(m.facet_type) && str_ok(m.description) && (m.coverage matches Some(c) ==> sides_ok(c)) && (m.values matches Some(v) ==> values_ok(v))
}

/// `facet_ok` as a function value.
pub open spec fn facet_okf() -> spec_fn(FacetModel) -> bool {
    |m: FacetModel| facet_ok(m)
}

/// Reading back what `enc_facet` writes gives the value.
pub proof fn lemma_facet_round_trips()
    ensures
        round_trips(facet_enc(), facet_parse(), facet_okf()),
{
    reveal(enc_facet);
    reveal(parse_facet);
    assert forall|a: FacetModel, rest: Seq<u8>| facet_okf()(a) implies #[trigger] facet_parse()(
        facet_enc()(a) + rest,
    ) == Some((a, facet_enc()(a).len())) by {
        let c0 = enc_facet(a) + rest;
        assert(c0 =~= enc_u64(a.id) + (enc_str(a.name) + (enc_str(a.facet_type) + (enc_str(a.description) + (enc_opt_sides(a.coverage) + (enc_opt_range(a.range) + (enc_opt_values(a.values) + rest)))))));
        lemma_u64_round_trip(a.id, (enc_str(a.name) + (enc_str(a.facet_type) + (enc_str(a.description) + (enc_opt_sides(a.coverage) + (enc_opt_range(a.range) + (enc_opt_values(a.values) + rest)))))));
        let c1 = c0.skip(enc_u64(a.id).len() as int);
        assert(c1 =~= enc_str(a.name) + (enc_str(a.facet_type) + (enc_str(a.description) + (enc_opt_sides(a.coverage) + (enc_opt_range(a.range) + (enc_opt_values(a.values) + rest))))));
        lemma_str_round_trip(a.name, (enc_str(a.facet_type) + (enc_str(a.description) + (enc_opt_sides(a.coverage) + (enc_opt_range(a.range) + (enc_opt_values(a.values) + rest))))));
        let c2 = c1.skip(enc_str(a.name).len() as int);
        assert(c2 =~= enc_str(a.facet_type) + (enc_str(a.description) + (enc_opt_sides(a.coverage) + (enc_opt_range(a.range) + (enc_opt_values(a.values) + rest)))));
        lemma_str_round_trip(a.facet_type, (enc_str(a.description) + (enc_opt_sides(a.coverage) + (enc_opt_range(a.range) + (enc_opt_values(a.values) + rest)))));
        let c3 = c2.skip(enc_str(a.facet_type).len() as int);
        assert(c3 =~= enc_str(a.description) + (enc_opt_sides(a.coverage) + (enc_opt_range(a.range) + (enc_opt_values(a.values) + rest))));
        lemma_str_round_trip(a.description, (enc_opt_sides(a.coverage) + (enc_opt_range(a.range) + (enc_opt_values(a.values) + rest))));
        let c4 = c3.skip(enc_str(a.description).len() as int);
        assert(c4 =~= enc_opt_sides(a.coverage) + (enc_opt_range(a.range) + (enc_opt_values(a.values) + rest)));
        lemma_opt_sides_round_trip(a.coverage, (enc_opt_range(a.range) + (enc_opt_values(a.values) + rest)));
        let c5 = c4.skip(enc_opt_sides(a.coverage).len() as int);
        assert(c5 =~= enc_opt_range(a.range) + (enc_opt_values(a.values) + rest));
        lemma_opt_range_round_trip(a.range, (enc_opt_values(a.values) + rest));
        let c6 = c5.skip(enc_opt_range(a.range).len() as int);
        assert(c6 =~= enc_opt_values(a.values) + rest);
        lemma_opt_values_round_trip(a.values, rest);
    }
}

/// Appends the encoding of the value.
pub fn encode_facet(x: &Facet, out: &mut Vec<u8>)
    ensures
        final(out)@ == old(out)@ + enc_facet(x@),
        facet_ok(x@),
{
    proof {
        reveal(enc_facet);
        reveal(parse_facet);
    }
    encode_u64(x.id, out);
    encode_str(&x.name, out);
    encode_str(&x.facet_type, out);
    encode_str(&x.description, out);
    encode_opt_sides(&x.coverage, out);
    encode_opt_range(&x.range, out);
    encode_opt_values(&x.values, out);
    proof {
        assert(out@ =~= old(out)@ + enc_facet(x@));
    }
}

/// Reads a value at `pos`, returning it and the position after it.
pub fn decode_facet(buf: &Vec<u8>, pos: usize) -> (r: Option<(Facet, usize)>)
    requires
        pos <= buf@.len(),
    ensures
        match parse_facet(buf@.skip(pos as int)) {
            Some((m, n)) => r matches Some((x, q)) && x@ == m && q == pos + n && q <= buf@.len(),
            None => r is None,
        },
{
    proof {
        reveal(enc_facet);
        reveal(parse_facet);
    }
    let (x0, at0) = match decode_u64(buf, pos) {
        Some(r) => r,
        None => return None,
    };
    proof {
        assert(buf@.skip(pos as int).skip(at0 - pos) =~= buf@.skip(at0 as int));
    }
    let (x1, at1) = match decode_str(buf, at0) {
        Some(r) => r,
        None => return None,
    };
    proof {
        assert(buf@.skip(at0 as int).skip(at1 - at0) =~= buf@.skip(at1 as int));
    }
    let (x2, at2) = match decode_str(buf, at1) {
        Some(r) => r,
        None => return None,
    };
    proof {
        assert(buf@.skip(at1 as int).skip(at2 - at1) =~= buf@.skip(at2 as int));
    }
    let (x3, at3) = match decode_str(buf, at2) {
        Some(r) => r,
        None => return None,
    };
    proof {
        assert(buf@.skip(at2 as int).skip(at3 - at2) =~= buf@.skip(at3 as int));
    }
    let (x4, at4) = match decode_opt_sides(buf, at3) {
        Some(r) => r,
        None => return None,
    };
    proof {
        assert(buf@.skip(at3 as int).skip(at4 - at3) =~= buf@.skip(at4 as int));
    }
    let (x5, at5) = match decode_opt_range(buf, at4) {
        Some(r) => r,
        None => return None,
    };
    proof {
        assert(buf@.skip(at4 as int).skip(at5 - at4) =~= buf@.skip(at5 as int));
    }
    let (x6, at6) = match decode_opt_values(buf, at5) {
        Some(r) => r,
        None => return None,
    };
    Some((Facet { id: x0, name: x1, facet_type: x2, description: x3, coverage: x4, range: x5, values: x6 }, at6))
}

/// A list of facets.
#[verifier::opaque]
pub open spec fn enc_facets(s: Seq<FacetModel>) -> Seq<u8> {
    enc_seq(s, facet_enc())
}

/// Reads a list of facets at the front of `b`.
#[verifier::opaque]
pub open spec fn parse_facets(b: Seq<u8>) -> Option<(Seq<FacetModel>, nat)> {
    parse_seq(b, facet_parse())
}

/// Every item can be written and the count fits in a `u64`.
pub open spec fn facets_ok(s: Seq<FacetModel>) -> bool {
    s.len() <= u64::MAX && forall|i: int| 0 <= i < s.len() ==> facet_okf()(#[trigger] s[i])
}

/// Reading the list back from its encoding gives the list.
pub proof fn lemma_facets_round_trip(s: Seq<FacetModel>, rest: Seq<u8>)
    requires
        facets_ok(s),
    ensures
        parse_facets(enc_facets(s) + rest) == Some((s, enc_facets(s).len())),
{
    reveal(enc_facets);
    reveal(parse_facets);
    lemma_facet_round_trips();
    lemma_seq_round_trip(s, facet_enc(), facet_parse(), facet_okf(), rest);
}

/// Appends the encoding of a list.
pub fn encode_facets(v: &Vec<Facet>, out: &mut Vec<u8>)
    ensures
        final(out)@ == old(out)@ + enc_facets(facets_view(v@)),
        facets_ok(facets_view(v@)),
{
    proof {
        reveal(enc_facets);
        reveal(parse_facets);
    }
    let ghost m = facets_view(v@);
    encode_u64(v.len() as u64, out);
    let mut i: usize = 0;
    while i < v.len()
        invariant
            i <= v@.len(),
            m == facets_view(v@),
            m.len() == v@.len(),
            forall|j: int| 0 <= j < i ==> facet_okf()(#[trigger] m[j]),
            out@ == old(out)@ + enc_u64(v@.len() as u64) + enc_items(m.subrange(0, i as int), facet_enc()),
        decreases v@.len() - i,
    {
        let ghost before = out@;
        encode_facet(&v[i], out);
        proof {
            assert(m.subrange(0, i + 1).drop_last() =~= m.subrange(0, i as int));
            assert(m.subrange(0, i + 1).last() == v@[i as int]@);
            assert(out@ =~= old(out)@ + enc_u64(v@.len() as u64) + enc_items(m.subrange(0, i + 1), facet_enc()));
        }
        i = i + 1;
    }
    proof {
        assert(m.subrange(0, i as int) =~= m);
        assert(out@ =~= old(out)@ + enc_facets(m));
    }
}

/// Reads a list at `pos`, returning it and the position after it.
pub fn decode_facets(buf: &Vec<u8>, pos: usize) -> (r: Option<(Vec<Facet>, usize)>)
    requires
        pos <= buf@.len(),
    ensures
        match parse_facets(buf@.skip(pos as int)) {
            Some((m, n)) => r matches Some((v, q)) && facets_view(v@) == m && q == pos + n && q <= buf@.len(),
            None => r is None,
        },
{
    proof {
        reveal(enc_facets);
        reveal(parse_facets);
    }
    let (n, start) = match decode_u64(buf, pos) {
        Some(x) => x,
        None => return None,
    };
    proof {
        assert(buf@.skip(pos as int).skip(8) =~= buf@.skip(start as int));
    }
    let mut v: Vec<Facet> = Vec::new();
    let mut cur = start;
    let mut k: u64 = 0;
    while k < n
        invariant
            start <= cur <= buf@.len(),
            start == pos + 8,
            parse_u64(buf@.skip(pos as int)) == Some((n, 8nat)),
            buf@.skip(pos as int).skip(8) == buf@.skip(start as int),
            k <= n,
            parse_items(buf@.skip(start as int), n as nat, facet_parse()) == match parse_items(
                buf@.skip(cur as int),
                (n - k) as nat,
                facet_parse(),
            ) {
                Some((xs, l)) => Some((facets_view(v@) + xs, ((cur - start) + l) as nat)),
                None => None::<(Seq<FacetModel>, nat)>,
            },
        decreases n - k,
    {
        let ghost b = buf@.skip(cur as int);
        let ghost before = facets_view(v@);
        match decode_facet(buf, cur) {
            Some((x, c2)) => {
                proof {
                    assert(b.skip(c2 - cur) =~= buf@.skip(c2 as int));
                }
                v.push(x);
                proof {
                    assert(facets_view(v@) =~= before.push(x@));
                    let rest = parse_items(buf@.skip(c2 as int), (n - k - 1) as nat, facet_parse());
                    if let Some((xs, l)) = rest {
                        assert(before + (seq![x@] + xs) =~= facets_view(v@) + xs);
                    }
                }
                cur = c2;
            },
            None => {
                proof {
                    assert(parse_items(b, (n - k) as nat, facet_parse()) is None);
                    assert(parse_items(buf@.skip(start as int), n as nat, facet_parse()) is None);
                    assert(parse_u64(buf@.skip(pos as int)) == Some((n, 8nat)));
                    reveal(parse_facets);
                    assert(parse_facets(buf@.skip(pos as int)) is None);
                }
                return None;
            },
        }
        k = k + 1;
    }
    proof {
        assert(facets_view(v@) + Seq::<FacetModel>::empty() =~= facets_view(v@));
    }
    Some((v, cur))
}

/// An artifact: its facets, then its chromosomes' outputs.
#[verifier::opaque]
pub open spec fn enc_coverage(m: CoverageDataModel) -> Seq<u8> {
    enc_facets(m.facets) + enc_chromosomes(m.chromosomes)
}

/// Reads an artifact: its facets, then its chromosomes' outputs at the front of `b`.
#[verifier::opaque]
pub open spec fn parse_coverage(b: Seq<u8>) -> Option<(CoverageDataModel, nat)> {
    match parse_facets(b) {
        Some((f0, l0)) => {
            match parse_chromosomes(b.skip(l0 as int)) {
                Some((f1, l1)) => Some((CoverageDataModel { facets: f0, chromosomes: f1 }, (l0 + l1) as nat)),
                None => None,
            }
        },
        None => None,
    }
}

/// `enc_coverage` as a function value.
pub open spec fn coverage_enc() -> spec_fn(CoverageDataModel) -> Seq<u8> {
    |m: CoverageDataModel| enc_coverage(m)
}

/// `parse_coverage` as a function value.
pub open spec fn coverage_parse() -> spec_fn(Seq<u8>) -> Option<(CoverageDataModel, nat)> {
    |b: Seq<u8>| parse_coverage(b)
}

/// Every part of the value can be written.
pub open spec fn coverage_ok(m: CoverageDataModel) -> bool {
    facets_ok(m.facets) && chromosomes_ok(m.chromosomes)
}

/// `coverage_ok` as a function value.
pub open spec fn coverage_okf() -> spec_fn(CoverageDataModel) -> bool {
    |m: CoverageDataModel| coverage_ok(m)
}

/// Reading back what `enc_coverage` writes gives the value.
pub proof fn lemma_coverage_round_trips()
    ensures
        round_trips(coverage_enc(), coverage_parse(), coverage_okf()),
{
    reveal(enc_coverage);
    reveal(parse_coverage);
    assert forall|a: CoverageDataModel, rest: Seq<u8>| coverage_okf()(a) implies #[trigger] coverage_parse()(
        coverage_enc()(a) + rest,
    ) == Some((a, coverage_enc()(a).len())) by {
        let c0 = enc_coverage(a) + rest;
        assert(c0 =~= enc_facets(a.facets) + (enc_chromosomes(a.chromosomes) + rest));
        lemma_facets_round_trip(a.facets, (enc_chromosomes(a.chromosomes) + rest));
        let c1 = c0.skip(enc_facets(a.facets).len() as int);
        assert(c1 =~= enc_chromosomes(a.chromosomes) + rest);
        lemma_chromosomes_round_trip(a.chromosomes, rest);
    }
}

/// Reading the value back from its encoding gives the value.
pub proof fn lemma_coverage_round_trip(m: CoverageDataModel, rest: Seq<u8>)
    requires
        coverage_ok(m),
    ensures
        parse_coverage(enc_coverage(m) + rest) == Some((m, enc_coverage(m).len())),
{
    reveal(enc_coverage);
    reveal(parse_coverage);
    lemma_coverage_round_trips();
    assert(coverage_parse()(coverage_enc()(m) + rest) == Some((m, coverage_enc()(m).len())));
}

/// Appends the encoding of the value.
pub fn encode_coverage(x: &CoverageData, out: &mut Vec<u8>)
    ensures
        final(out)@ == old(out)@ + enc_coverage(x@),
        coverage_ok(x@),
{
    proof {
        reveal(enc_coverage);
        reveal(parse_coverage);
    }
    encode_facets(&x.facets, out);
    encode_chromosomes(&x.chromosomes, out);
    proof {
        assert(out@ =~= old(out)@ + enc_coverage(x@));
    }
}

/// Reads a value at `pos`, returning it and the position after it.
pub fn decode_coverage(buf: &Vec<u8>, pos: usize) -> (r: Option<(CoverageData, usize)>)
    requires
        pos <= buf@.len(),
    ensures
        match parse_coverage(buf@.skip(pos as int)) {
            Some((m, n)) => r matches Some((x, q)) && x@ == m && q == pos + n && q <= buf@.len(),
            None => r is None,
        },
{
    proof {
        reveal(enc_coverage);
        reveal(parse_coverage);
    }
    let (x0, at0) = match decode_facets(buf, pos) {
        Some(r) => r,
        None => return None,
    };
    proof {
        assert(buf@.skip(pos as int).skip(at0 - pos) =~= buf@.skip(at0 as int));
    }
    let (x1, at1) = match decode_chromosomes(buf, at0) {
        Some(r) => r,
        None => return None,
    };
    Some((CoverageData { facets: x0, chromosomes: x1 }, at1))
}

/// Why bytes could not be read as an artifact.
#[derive(Copy, Clone, Debug, PartialEq, Eq, Structural)]
pub enum DecodeError {
    /// The bytes do not start with an artifact.
    Malformed,
    /// An artifact is followed by more bytes.
    TrailingBytes,
}

/// The artifact that a byte string holds, if it holds exactly one.
pub open spec fn decoded(bytes: Seq<u8>) -> Option<CoverageDataModel> {
    match parse_coverage(bytes) {
        Some((m, n)) => if n == bytes.len() {
            Some(m)
        } else {
            None
        },
        None => None,
    }
}

/// Decoding the encoding of an artifact gives the artifact back, with every
/// facet, chromosome, interval, payload and link as it was. Every artifact
/// that `CoverageData::serialize` accepts meets the requirement.
pub proof fn lemma_decode_encode(m: CoverageDataModel)
    requires
        coverage_ok(m),
    ensures
        decoded(enc_coverage(m)) == Some(m),
{
    lemma_coverage_round_trip(m, seq![]);
    assert(enc_coverage(m) + seq![] =~= enc_coverage(m));
}

impl CoverageData {
    /// The artifact as bytes.
    pub fn serialize(&self) -> (r: Vec<u8>)
        ensures
            r@ == enc_coverage(self@),
            coverage_ok(self@),
    {
        let mut out: Vec<u8> = Vec::new();
        encode_coverage(self, &mut out);
        proof {
            assert(out@ =~= enc_coverage(self@));
        }
        out
    }

    /// Reads an artifact that takes all of `bytes`.
    pub fn deserialize(bytes: &Vec<u8>) -> (r: Result<CoverageData, DecodeError>)
        ensures
            decoded(bytes@) matches Some(m) ==> r matches Ok(x) && x@ == m,
            parse_coverage(bytes@) is None ==> r == Err::<CoverageData, _>(DecodeError::Malformed),
            parse_coverage(bytes@) is Some && decoded(bytes@) is None ==> r == Err::<
                CoverageData,
                _,
            >(DecodeError::TrailingBytes),
    {
        proof {
            assert(bytes@.skip(0) =~= bytes@);
        }
        match decode_coverage(bytes, 0) {
            Some((x, end)) => if end == bytes.len() {
                Ok(x)
            } else {
                Err(DecodeError::TrailingBytes)
            },
            None => Err(DecodeError::Malformed),
        }
    }
}

} // verus!
