//! The on-disk codec: fixed-width big-endian integers, length-prefixed
//! byte strings, tagged values, and the entry framing shared by data
//! blocks and the index block. Every encoder is paired with a parse
//! function on byte sequences, and the two are proved inverse.

use vstd::prelude::*;

use crate::error::Error;
use crate::keys::{
    key_eq, spec_type_of_tag, tag_of, type_of_tag, type_tag, Entry, EntryView, Key, KeyView,
    Timestamp,
};

verus! {

/// The largest user key the builder accepts, in bytes.
pub const MAX_KEY_SIZE: u64 = 268435456;

/// The largest value payload the builder accepts, in bytes.
pub const MAX_VALUE_SIZE: u64 = 268435456;

/// An entry small enough that every length computed while framing it
/// fits in the fixed-width prefixes.
pub open spec fn entry_wf(e: EntryView) -> bool {
    &&& e.key.user_key.len() <= MAX_KEY_SIZE
    &&& match e.value {
        Some(p) => p.len() <= MAX_VALUE_SIZE,
        None => true,
    }
}

/// The eight big-endian bytes of a 64-bit integer.
pub open spec fn u64_bytes(x: u64) -> Seq<u8> {
    seq![
        (x >> 56) as u8,
        (x >> 48) as u8,
        (x >> 40) as u8,
        (x >> 32) as u8,
        (x >> 24) as u8,
        (x >> 16) as u8,
        (x >> 8) as u8,
        x as u8,
    ]
}

/// The 64-bit integer read back from eight big-endian bytes.
pub open spec fn u64_from_bytes(b: Seq<u8>) -> u64
    recommends
        b.len() == 8,
{
    ((b[0] as u64) << 56) | ((b[1] as u64) << 48) | ((b[2] as u64) << 40) | ((b[3] as u64) << 32)
        | ((b[4] as u64) << 24) | ((b[5] as u64) << 16) | ((b[6] as u64) << 8) | (b[7] as u64)
}

/// Reading back the eight big-endian bytes of an integer gives the integer.
pub proof fn lemma_u64_round_trip(x: u64)
    ensures
        u64_from_bytes(u64_bytes(x)) == x,
{
    assert((((x >> 56) as u8 as u64) << 56) | (((x >> 48) as u8 as u64) << 48) | (((x >> 40) as u8
        as u64) << 40) | (((x >> 32) as u8 as u64) << 32) | (((x >> 24) as u8 as u64) << 24) | (((x
        >> 16) as u8 as u64) << 16) | (((x >> 8) as u8 as u64) << 8) | ((x as u8) as u64) == x)
        by (bit_vector);
}

/// A value as stored: a one-byte kind tag, then the payload if present.
/// A tombstone is encoded distinctly from a present empty value.
pub open spec fn value_bytes(v: Option<Seq<u8>>) -> Seq<u8> {
    match v {
        Some(p) => seq![0u8] + p,
        None => seq![1u8],
    }
}

/// The value read back from a tagged byte string, if it is well formed.
pub open spec fn parse_value(b: Seq<u8>) -> Option<Option<Seq<u8>>> {
    if b.len() < 1 {
        None
    } else if b[0] == 0 {
        Some(Some(b.drop_first()))
    } else if b[0] == 1 {
        if b.len() == 1 {
            Some(None)
        } else {
            None
        }
    } else {
        None
    }
}

pub proof fn lemma_value_round_trip(v: Option<Seq<u8>>)
    ensures
        parse_value(value_bytes(v)) == Some(v),
{
    match v {
        Some(p) => {
            assert((seq![0u8] + p).drop_first() =~= p);
        },
        None => {},
    }
}

/// A key as stored: the user key bytes, the timestamp, the kind tag.
/// The frame around it records the total length, so no inner prefix is
/// needed.
pub open spec fn key_bytes(k: KeyView) -> Seq<u8> {
    k.user_key + u64_bytes(k.timestamp) + seq![type_tag(k.value_type)]
}

/// The key read back from an encoded key, if it is well formed.
pub open spec fn parse_key(b: Seq<u8>) -> Option<KeyView> {
    if b.len() < 9 {
        None
    } else {
        let n = b.len() - 9;
        match spec_type_of_tag(b[b.len() - 1]) {
            Some(vt) => Some(
                KeyView {
                    user_key: b.take(n as int),
                    timestamp: u64_from_bytes(b.subrange(n as int, n + 8)),
                    value_type: vt,
                },
            ),
            None => None,
        }
    }
}

pub proof fn lemma_key_round_trip(k: KeyView)
    ensures
        parse_key(key_bytes(k)) == Some(k),
{
    let b = key_bytes(k);
    let n = k.user_key.len() as int;
    assert(b.len() == n + 9);
    assert(b[b.len() - 1] == type_tag(k.value_type));
    assert(b.take(n) =~= k.user_key);
    assert(b.subrange(n, n + 8) =~= u64_bytes(k.timestamp));
    lemma_u64_round_trip(k.timestamp);
    match parse_key(b) {
        Some(k2) => {
            assert(k2 == k);
        },
        None => {
            assert(false);
        },
    }
}

/// One entry as framed in a block: the length-prefixed key bytes, then
/// the length-prefixed tagged value bytes.
pub open spec fn entry_bytes(e: EntryView) -> Seq<u8> {
    let kb = key_bytes(e.key);
    let vb = value_bytes(e.value);
    u64_bytes(kb.len() as u64) + kb + u64_bytes(vb.len() as u64) + vb
}

/// The entry at the front of a byte string, with the count of bytes it
/// occupies, if the frame is well formed.
pub open spec fn parse_entry(b: Seq<u8>) -> Option<(EntryView, int)> {
    if b.len() < 8 {
        None
    } else {
        let klen = u64_from_bytes(b.take(8)) as int;
        if klen < 9 || 16 + klen > b.len() {
            None
        } else {
            match parse_key(b.subrange(8, 8 + klen)) {
                None => None,
                Some(k) => {
                    let vlen = u64_from_bytes(b.subrange(8 + klen, 16 + klen)) as int;
                    if vlen < 1 || 16 + klen + vlen > b.len() {
                        None
                    } else {
                        match parse_value(b.subrange(16 + klen, 16 + klen + vlen)) {
                            None => None,
                            Some(v) => Some((EntryView { key: k, value: v }, 16 + klen + vlen)),
                        }
                    }
                },
            }
        }
    }
}

/// Parsing the frame of a well-formed entry, whatever follows it, gives
/// back the entry and consumes exactly its encoding.
pub proof fn lemma_parse_entry_prefix(e: EntryView, rest: Seq<u8>)
    requires
        entry_wf(e),
    ensures
        parse_entry(entry_bytes(e) + rest) == Some((e, entry_bytes(e).len() as int)),
        entry_bytes(e).len() >= 26,
{
    let kb = key_bytes(e.key);
    let vb = value_bytes(e.value);
    let klen = kb.len() as int;
    let vlen = vb.len() as int;
    let b = entry_bytes(e) + rest;
    assert(entry_bytes(e).len() == 16 + klen + vlen);
    assert(b.take(8) =~= u64_bytes(kb.len() as u64));
    lemma_u64_round_trip(kb.len() as u64);
    assert(u64_from_bytes(b.take(8)) as int == klen);
    assert(b.subrange(8, 8 + klen) =~= kb);
    lemma_key_round_trip(e.key);
    assert(b.subrange(8 + klen, 16 + klen) =~= u64_bytes(vb.len() as u64));
    lemma_u64_round_trip(vb.len() as u64);
    assert(u64_from_bytes(b.subrange(8 + klen, 16 + klen)) as int == vlen);
    assert(b.subrange(16 + klen, 16 + klen + vlen) =~= vb);
    lemma_value_round_trip(e.value);
    match parse_entry(b) {
        Some((e2, n)) => {
            assert(e2 == e);
            assert(n == 16 + klen + vlen);
        },
        None => {
            assert(false);
        },
    }
}

/// A sequence of entries as framed back to back in one block.
pub open spec fn entries_bytes(s: Seq<EntryView>) -> Seq<u8>
    decreases s.len(),
{
    if s.len() == 0 {
        Seq::empty()
    } else {
        entry_bytes(s.first()) + entries_bytes(s.drop_first())
    }
}

/// Appending one entry to a block appends exactly its frame.
pub proof fn lemma_entries_bytes_push(s: Seq<EntryView>, e: EntryView)
    ensures
        entries_bytes(s.push(e)) == entries_bytes(s) + entry_bytes(e),
    decreases s.len(),
{
    if s.len() == 0 {
        reveal_with_fuel(entries_bytes, 2);
        assert(s.push(e).first() == e);
        assert(s.push(e).drop_first() =~= Seq::<EntryView>::empty());
        assert(entries_bytes(s.push(e)) =~= entry_bytes(e));
        assert(entries_bytes(s) + entry_bytes(e) =~= entry_bytes(e));
    } else {
        assert(s.push(e).first() == s.first());
        assert(s.push(e).drop_first() =~= s.drop_first().push(e));
        lemma_entries_bytes_push(s.drop_first(), e);
        assert(entries_bytes(s.push(e)) =~= entries_bytes(s) + entry_bytes(e));
    }
}

/// The entries read back from a whole block, if every frame in it is
/// well formed and they tile the block exactly.
pub open spec fn parse_entries(b: Seq<u8>) -> Option<Seq<EntryView>>
    decreases b.len(),
{
    if b.len() == 0 {
        Some(Seq::empty())
    } else {
        match parse_entry(b) {
            None => None,
            Some((e, n)) => {
                if n < 1 || n > b.len() {
                    None
                } else {
                    match parse_entries(b.skip(n)) {
                        None => None,
                        Some(s) => Some(seq![e] + s),
                    }
                }
            },
        }
    }
}

/// Parsing a block that starts with one well-formed frame and continues
/// with an already-parsed remainder yields the entry followed by that
/// remainder.
proof fn lemma_parse_entries_step(e: EntryView, rest: Seq<u8>, tail: Seq<EntryView>)
    requires
        entry_wf(e),
        parse_entries(rest) == Some(tail),
    ensures
        parse_entries(entry_bytes(e) + rest) == Some(seq![e] + tail),
{
    let b = entry_bytes(e) + rest;
    lemma_parse_entry_prefix(e, rest);
    let n = entry_bytes(e).len() as int;
    assert(b.skip(n) =~= rest);
    assert(1 <= n <= b.len());
    assert(parse_entries(b) == Some(seq![e] + tail));
}

/// The round-trip law of the block framing: parsing an encoded sequence
/// of well-formed entries gives back exactly that sequence.
pub proof fn lemma_parse_entries_round_trip(s: Seq<EntryView>)
    requires
        forall|i: int| 0 <= i < s.len() ==> entry_wf(#[trigger] s[i]),
    ensures
        parse_entries(entries_bytes(s)) == Some(s),
    decreases s.len(),
{
    if s.len() == 0 {
        assert(s =~= Seq::<EntryView>::empty());
    } else {
        let e0 = s.first();
        let tail = s.drop_first();
        assert(entry_wf(s[0]));
        assert forall|i: int| 0 <= i < tail.len() implies entry_wf(#[trigger] tail[i]) by {
            assert(tail[i] == s[i + 1]);
        }
        lemma_parse_entries_round_trip(tail);
        lemma_parse_entries_step(e0, entries_bytes(tail), tail);
        assert(seq![e0] + tail =~= s);
    }
}

/// Every entry frame takes at least 26 bytes, so a block is empty
/// exactly when it holds no entry.
pub proof fn lemma_entries_bytes_len(s: Seq<EntryView>)
    ensures
        s.len() == 0 ==> entries_bytes(s).len() == 0,
        s.len() > 0 ==> entries_bytes(s).len() >= 26,
{
    if s.len() > 0 {
        let e = s.first();
        assert(key_bytes(e.key).len() >= 9);
        assert(value_bytes(e.value).len() >= 1);
        assert(entry_bytes(e).len() >= 26);
    }
}

/// The models of a sequence of entries.
pub open spec fn entries_view(v: Seq<Entry>) -> Seq<EntryView> {
    Seq::new(v.len(), |i: int| v[i]@)
}

/// Appends the eight big-endian bytes of a timestamp (or any 64-bit
/// integer the format stores in fixed width).
pub fn put_timestamp(buf: &mut Vec<u8>, ts: Timestamp)
    ensures
        final(buf)@ == old(buf)@ + u64_bytes(ts),
{
    buf.push((ts >> 56) as u8);
    buf.push((ts >> 48) as u8);
    buf.push((ts >> 40) as u8);
    buf.push((ts >> 32) as u8);
    buf.push((ts >> 24) as u8);
    buf.push((ts >> 16) as u8);
    buf.push((ts >> 8) as u8);
    buf.push(ts as u8);
    proof {
        assert(buf@ =~= old(buf)@ + u64_bytes(ts));
    }
}

/// Appends a copy of a byte string.
pub fn append_bytes(buf: &mut Vec<u8>, s: &[u8])
    ensures
        final(buf)@ == old(buf)@ + s@,
{
    let mut i: usize = 0;
    while i < s.len()
        invariant
            0 <= i <= s@.len(),
            buf@ == old(buf)@ + s@.take(i as int),
        decreases s@.len() - i,
    {
        buf.push(s[i]);
        proof {
            assert(buf@ =~= old(buf)@ + s@.take(i + 1));
        }
        i = i + 1;
    }
    proof {
        assert(s@.take(s@.len() as int) =~= s@);
    }
}

/// Appends a 64-bit length, then the bytes themselves.
pub fn put_length_prefixed_slice(buf: &mut Vec<u8>, s: &[u8])
    requires
        s@.len() <= u64::MAX,
    ensures
        final(buf)@ == old(buf)@ + u64_bytes(s@.len() as u64) + s@,
{
    put_timestamp(buf, s.len() as u64);
    append_bytes(buf, s);
}

/// The model of an optional owned value.
pub open spec fn opt_view(v: Option<Vec<u8>>) -> Option<Seq<u8>> {
    match v {
        Some(p) => Some(p@),
        None => None,
    }
}

/// Appends a value: its kind tag, then the payload if present.
pub fn put_value(buf: &mut Vec<u8>, value: &Option<Vec<u8>>)
    ensures
        final(buf)@ == old(buf)@ + value_bytes(opt_view(*value)),
{
    match value {
        Some(v) => {
            buf.push(0);
            append_bytes(buf, v.as_slice());
            proof {
                assert(buf@ =~= old(buf)@ + value_bytes(opt_view(*value)));
            }
        },
        None => {
            buf.push(1);
            proof {
                assert(buf@ =~= old(buf)@ + value_bytes(opt_view(*value)));
            }
        },
    }
}

/// Appends the encoded key of an entry: user key, timestamp, kind tag.
pub fn put_key(buf: &mut Vec<u8>, key: &Key)
    ensures
        final(buf)@ == old(buf)@ + key_bytes(key@),
{
    append_bytes(buf, key.user_key.as_slice());
    put_timestamp(buf, key.timestamp);
    buf.push(tag_of(key.value_type));
    proof {
        assert(buf@ =~= old(buf)@ + key_bytes(key@));
    }
}

/// Appends one framed entry: length-prefixed key bytes, then
/// length-prefixed tagged value bytes.
pub fn put_entry(buf: &mut Vec<u8>, e: &Entry)
    requires
        entry_wf(e@),
    ensures
        final(buf)@ == old(buf)@ + entry_bytes(e@),
{
    let mut kb: Vec<u8> = Vec::new();
    put_key(&mut kb, &e.key);
    let mut vb: Vec<u8> = Vec::new();
    put_value(&mut vb, &e.value);
    put_length_prefixed_slice(buf, kb.as_slice());
    put_length_prefixed_slice(buf, vb.as_slice());
    proof {
        assert(buf@ =~= old(buf)@ + entry_bytes(e@));
    }
}

/// Reads the 64-bit big-endian integer at a position.
pub fn get_u64(b: &Vec<u8>, pos: usize) -> (r: u64)
    requires
        pos + 8 <= b@.len(),
    ensures
        r == u64_from_bytes(b@.subrange(pos as int, pos as int + 8)),
{
    let n = b.len();
    let r = ((b[pos] as u64) << 56) | ((b[pos + 1] as u64) << 48) | ((b[pos + 2] as u64) << 40) | ((
    b[pos + 3] as u64) << 32) | ((b[pos + 4] as u64) << 24) | ((b[pos + 5] as u64) << 16) | ((b[pos
        + 6] as u64) << 8) | (b[pos + 7] as u64);
    proof {
        let s = b@.subrange(pos as int, pos as int + 8);
        assert(s[0] == b@[pos as int]);
        assert(s[1] == b@[pos as int + 1]);
        assert(s[2] == b@[pos as int + 2]);
        assert(s[3] == b@[pos as int + 3]);
        assert(s[4] == b@[pos as int + 4]);
        assert(s[5] == b@[pos as int + 5]);
        assert(s[6] == b@[pos as int + 6]);
        assert(s[7] == b@[pos as int + 7]);
    }
    r
}

/// Copies the bytes of a range out of a buffer.
pub fn copy_range(b: &Vec<u8>, start: usize, len: usize) -> (r: Vec<u8>)
    requires
        start + len <= b@.len(),
    ensures
        r@ == b@.subrange(start as int, start as int + len as int),
{
    let n = b.len();
    let mut out: Vec<u8> = Vec::new();
    let mut i: usize = 0;
    while i < len
        invariant
            0 <= i <= len,
            start + len <= n == b@.len(),
            out@ == b@.subrange(start as int, start as int + i as int),
        decreases len - i,
    {
        out.push(b[start + i]);
        proof {
            assert(out@ =~= b@.subrange(start as int, start as int + i as int + 1));
        }
        i = i + 1;
    }
    out
}

/// A copy of a whole byte buffer.
pub fn clone_bytes(v: &Vec<u8>) -> (r: Vec<u8>)
    ensures
        r@ == v@,
{
    let r = copy_range(v, 0, v.len());
    proof {
        assert(v@.subrange(0, v@.len() as int) =~= v@);
    }
    r
}

/// Reads the framed entry at a position, returning it together with the
/// position just past its frame. Fails with `Corrupted` exactly when the
/// frame at that position is malformed.
#[verifier::rlimit(60)]
pub fn decode_entry_at(b: &Vec<u8>, pos: usize) -> (r: Result<(Entry, usize), Error>)
    requires
        pos <= b@.len(),
    ensures
        match r {
            Ok(p) => {
                &&& parse_entry(b@.skip(pos as int)) == Some((p.0@, p.1 - pos))
                &&& pos < p.1 <= b@.len()
            },
            Err(e) => parse_entry(b@.skip(pos as int)) == None::<(EntryView, int)> && e is Corrupted,
        },
{
    let ghost s = b@.skip(pos as int);
    let len = b.len();
    let avail = len - pos;
    if avail < 8 {
        return Err(Error::Corrupted("entry frame is truncated".to_owned()));
    }
    let klen_u = get_u64(b, pos);
    proof {
        assert(s.take(8) =~= b@.subrange(pos as int, pos as int + 8));
    }
    if klen_u < 9 {
        return Err(Error::Corrupted("key length is too small".to_owned()));
    }
    if avail < 16 || klen_u > (avail - 16) as u64 {
        return Err(Error::Corrupted("key length is out of range".to_owned()));
    }
    let klen = klen_u as usize;
    let ghost kb = s.subrange(8, 8 + klen as int);
    let uk_len = klen - 9;
    let uk = copy_range(b, pos + 8, uk_len);
    let ts = get_u64(b, pos + 8 + uk_len);
    let tag = b[pos + 8 + klen - 1];
    proof {
        assert(kb.len() == klen);
        assert(kb[klen as int - 1] == b@[pos as int + 8 + klen as int - 1]);
        assert(kb.take(uk_len as int) =~= b@.subrange(
            pos as int + 8,
            pos as int + 8 + uk_len as int,
        ));
        assert(kb.subrange(uk_len as int, uk_len as int + 8) =~= b@.subrange(
            pos as int + 8 + uk_len as int,
            pos as int + 8 + uk_len as int + 8,
        ));
    }
    let vt = match type_of_tag(tag) {
        Some(vt) => vt,
        None => {
            return Err(Error::Corrupted("unknown value kind".to_owned()));
        },
    };
    let vlen_u = get_u64(b, pos + 8 + klen);
    proof {
        assert(s.subrange(8 + klen as int, 16 + klen as int) =~= b@.subrange(
            pos as int + 8 + klen as int,
            pos as int + 16 + klen as int,
        ));
    }
    let rem = avail - 16 - klen;
    if vlen_u < 1 || vlen_u > rem as u64 {
        return Err(Error::Corrupted("value length is out of range".to_owned()));
    }
    let vlen = vlen_u as usize;
    let vstart = pos + 16 + klen;
    let ghost vb = s.subrange(16 + klen as int, 16 + klen as int + vlen as int);
    proof {
        assert(vb =~= b@.subrange(vstart as int, vstart as int + vlen as int));
        assert(vb[0] == b@[vstart as int]);
    }
    let vtag = b[vstart];
    let value: Option<Vec<u8>> = if vtag == 0 {
        let payload = copy_range(b, vstart + 1, vlen - 1);
        proof {
            assert(vb.drop_first() =~= b@.subrange(
                vstart as int + 1,
                vstart as int + vlen as int,
            ));
        }
        Some(payload)
    } else if vtag == 1 {
        if vlen != 1 {
            return Err(Error::Corrupted("tombstone carries a payload".to_owned()));
        }
        None
    } else {
        return Err(Error::Corrupted("unknown value tag".to_owned()));
    };
    let e = Entry { key: Key { user_key: uk, timestamp: ts, value_type: vt }, value };
    Ok((e, vstart + vlen))
}

/// Reads a whole block back as its sequence of entries. Fails with
/// `Corrupted` exactly when the block is not a well-formed tiling of
/// entry frames.
pub fn decode_entries(b: &Vec<u8>) -> (r: Result<Vec<Entry>, Error>)
    ensures
        match r {
            Ok(v) => parse_entries(b@) == Some(entries_view(v@)),
            Err(e) => parse_entries(b@) == None::<Seq<EntryView>> && e is Corrupted,
        },
{
    let len = b.len();
    let mut pos: usize = 0;
    let mut out: Vec<Entry> = Vec::new();
    proof {
        assert(b@.skip(0) =~= b@);
        assert forall|s: Seq<EntryView>| entries_view(out@) + s =~= s by {
            assert(entries_view(out@).len() == 0);
        }
    }
    while pos < len
        invariant
            0 <= pos <= len == b@.len(),
            parse_entries(b@) == match parse_entries(b@.skip(pos as int)) {
                None => None::<Seq<EntryView>>,
                Some(s) => Some(entries_view(out@) + s),
            },
        decreases len - pos,
    {
        let ghost s = b@.skip(pos as int);
        match decode_entry_at(b, pos) {
            Ok((e, np)) => {
                let ghost n = np - pos;
                proof {
                    assert(s.len() > 0);
                    assert(s.skip(n) =~= b@.skip(np as int));
                }
                out.push(e);
                proof {
                    assert(parse_entries(s) == match parse_entries(b@.skip(np as int)) {
                        None => None::<Seq<EntryView>>,
                        Some(t) => Some(seq![e@] + t),
                    });
                    assert forall|t: Seq<EntryView>|
                        entries_view(out@) + t =~= entries_view(out@.drop_last()) + (seq![e@]
                            + t) by {
                        assert(entries_view(out@) =~= entries_view(out@.drop_last()).push(e@));
                    }
                }
                pos = np;
            },
            Err(err) => {
                proof {
                    assert(s.len() > 0);
                }
                return Err(err);
            },
        }
    }
    proof {
        assert(b@.skip(len as int) =~= Seq::<u8>::empty());
        assert(parse_entries(Seq::<u8>::empty()) == Some(Seq::<EntryView>::empty()));
        assert(entries_view(out@) + Seq::<EntryView>::empty() =~= entries_view(out@));
    }
    Ok(out)
}

} // verus!
