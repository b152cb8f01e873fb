//! The encoder: writes a value as the bytes that decode to it.

use vstd::prelude::*;
use vstd::utf8::encode_utf8;
use vstd::utf8::encode_utf8_decode_utf8;
use vstd::utf8::encode_utf8_valid_utf8;
use cid::Cid;
use crate::codec::cbor::format::be_bytes;
use crate::codec::cbor::format::fits_tier;
use crate::codec::cbor::format::head_bytes;
use crate::codec::cbor::format::lemma_be_bytes_value;
use crate::codec::cbor::format::lemma_be_limits;
use crate::codec::cbor::format::lemma_head_any_tier;
use crate::codec::cbor::format::lemma_integer_any_tier;
use crate::codec::cbor::format::lemma_parse_by_head;
use crate::codec::cbor::format::parse_ipld;
use crate::codec::cbor::format::parse_items;
use crate::codec::cbor::format::parse_pairs;
use crate::codec::cbor::format::parse_text;
use crate::error::CborError;
use crate::reader::spec_read_str;
use crate::ipld::lemma_next_entry;
use crate::ipld::lemma_view;
use crate::ipld::list_view;
use crate::ipld::map_view;
use crate::ipld::Ipld;
use crate::ipld::IpldView;
use crate::link::link_payload;
use crate::map::entries_map;
use crate::map::index_of;
use crate::map::keys_increase;
use crate::map::StringMap;
use crate::link::cid_bytes;
use crate::link::link_fits;

verus! {

/// Why a value cannot be written.
#[derive(Debug, Clone, Copy, PartialEq, Eq, Structural)]
pub enum EncodeError {
    /// An integer lies outside the range from `-(2^64)` to `2^64 - 1`.
    IntegerOutOfRange,
    /// The binary form of a content identifier does not fit a link.
    InvalidLink,
}

/// The least tier that can hold the argument `n`.
pub open spec fn smallest_tier(n: nat) -> nat {
    if n < 24 {
        0
    } else if n < 0x100 {
        1
    } else if n < 0x1_0000 {
        2
    } else if n < 0x1_0000_0000 {
        3
    } else {
        4
    }
}

/// The shortest header of the major type `major` with the argument `n`.
pub open spec fn minimal_head(major: u8, n: nat) -> Seq<u8> {
    head_bytes(major, smallest_tier(n), n)
}

/// The bytes `bytes` decode to `v`, whatever follows them.
#[verifier::opaque]
pub open spec fn encodes(bytes: Seq<u8>, v: IpldView) -> bool {
    forall|rest: Seq<u8>| #[trigger]
        parse_ipld(bytes + rest) == Ok::<(IpldView, Seq<u8>), CborError>((v, rest))
}

/// The encoding of a text: a header of major type 3 with the length of its
/// UTF-8 form, and that form.
pub open spec fn text_bytes(text: Seq<char>) -> Seq<u8> {
    minimal_head(3, encode_utf8(text).len()) + encode_utf8(text)
}

/// The encoding of a link to the content identifier with the binary form
/// `payload`.
pub open spec fn link_bytes(payload: Seq<u8>) -> Seq<u8> {
    seq![0xd8u8, 42u8, 0x58u8, payload.len() as u8] + payload
}

/// The encoding of an integer in the range from `-(2^64)` to `2^64 - 1`.
pub open spec fn integer_bytes(n: int) -> Seq<u8> {
    if n >= 0 {
        minimal_head(0, n as nat)
    } else {
        minimal_head(1, (-1 - n) as nat)
    }
}

/// The encoding of a double-precision number with the bits `bits`.
pub open spec fn float_bytes(bits: u64) -> Seq<u8> {
    seq![0xfbu8] + be_bytes(bits as nat, 8)
}

/// The encoding of a byte string.
pub open spec fn byte_string_bytes(bytes: Seq<u8>) -> Seq<u8> {
    minimal_head(2, bytes.len()) + bytes
}

/// The chunks of `chunks` one after another.
pub open spec fn joined(chunks: Seq<Seq<u8>>) -> Seq<u8>
    decreases chunks.len(),
{
    if chunks.len() == 0 {
        Seq::empty()
    } else {
        joined(chunks.drop_last()) + chunks.last()
    }
}

/// The encodings of the values of `s`, in order.
pub closed spec fn encodings(s: Seq<Ipld>) -> Seq<Seq<u8>>
    decreases s,
{
    Seq::new(
        s.len(),
        |k: int|
            if 0 <= k < s.len() {
                encoding(s[k])
            } else {
                Seq::empty()
            },
    )
}

/// The encodings of the pairs of `e`, in order: of each its key as a text,
/// and then its value.
pub closed spec fn pair_encodings(e: Seq<(String, Ipld)>) -> Seq<Seq<u8>>
    decreases e,
{
    Seq::new(
        e.len(),
        |k: int|
            if 0 <= k < e.len() {
                text_bytes(e[k].0@) + encoding(e[k].1)
            } else {
                Seq::empty()
            },
    )
}

/// The encoding of a value that can be written: every header in its shortest
/// form, a floating-point number with all its 64 bits, and the pairs of a
/// map in the order of their keys.
pub closed spec fn encoding(i: Ipld) -> Seq<u8>
    decreases i,
{
    match i {
        Ipld::Null => seq![0xf6u8],
        Ipld::Bool(b) => if b {
            seq![0xf5u8]
        } else {
            seq![0xf4u8]
        },
        Ipld::Integer(n) => integer_bytes(n as int),
        Ipld::Float(bits) => float_bytes(bits),
        Ipld::String(text) => text_bytes(text@),
        Ipld::Bytes(bytes) => byte_string_bytes(bytes@),
        Ipld::List(list) => minimal_head(4, list@.len()) + joined(encodings(list@)),
        Ipld::StringMap(map) => minimal_head(5, map.entries@.len()) + joined(
            pair_encodings(map.entries@),
        ),
        Ipld::Link(c) => link_bytes(cid_bytes(c)),
    }
}

/// The encoding of a value, kind by kind.
pub open spec fn encoding_by_kind(i: Ipld) -> Seq<u8> {
    match i {
        Ipld::Null => seq![0xf6u8],
        Ipld::Bool(b) => if b {
            seq![0xf5u8]
        } else {
            seq![0xf4u8]
        },
        Ipld::Integer(n) => integer_bytes(n as int),
        Ipld::Float(bits) => float_bytes(bits),
        Ipld::String(text) => text_bytes(text@),
        Ipld::Bytes(bytes) => byte_string_bytes(bytes@),
        Ipld::List(list) => minimal_head(4, list@.len()) + joined(encodings(list@)),
        Ipld::StringMap(map) => minimal_head(5, map.entries().len()) + joined(
            pair_encodings(map.entries()),
        ),
        Ipld::Link(c) => link_bytes(cid_bytes(c)),
    }
}

/// The encoding of a value is that of its kind, over the encodings of what
/// it holds.
pub proof fn lemma_encoding(i: Ipld)
    ensures
        encoding(i) == encoding_by_kind(i),
{
    match i {
        Ipld::List(list) => {
            assert(decreases_to!(i => list));
            assert(decreases_to!(list => list@));
        },
        Ipld::StringMap(map) => {
            map.lemma_entries();
            assert(decreases_to!(i => map));
            assert(decreases_to!(map => map.entries));
            assert(decreases_to!(map.entries => map.entries@));
        },
        _ => {},
    }
}

/// The encodings of values are as many as the values, and each is the
/// encoding of its value.
pub proof fn lemma_encodings(s: Seq<Ipld>)
    ensures
        encodings(s).len() == s.len(),
        forall|k: int| 0 <= k < s.len() ==> #[trigger] encodings(s)[k] == encoding(s[k]),
{
    assert forall|k: int| 0 <= k < s.len() implies #[trigger] encodings(s)[k] == encoding(
        s[k],
    ) by {
        assert(decreases_to!(s => s[k]));
    }
}

/// The encodings of pairs are as many as the pairs, and each is that of its
/// key as a text, and then of its value.
pub proof fn lemma_pair_encodings(e: Seq<(String, Ipld)>)
    ensures
        pair_encodings(e).len() == e.len(),
        forall|k: int|
            0 <= k < e.len() ==> #[trigger] pair_encodings(e)[k] == text_bytes(e[k].0@) + encoding(
                e[k].1,
            ),
{
    assert forall|k: int| 0 <= k < e.len() implies #[trigger] pair_encodings(e)[k] == text_bytes(
        e[k].0@,
    ) + encoding(e[k].1) by {
        assert(decreases_to!(e => e[k]));
        assert(decreases_to!(e[k] => e[k].1));
    }
}

/// Appends the `width` bytes that spell `n`, most significant byte first.
fn push_be(out: &mut Vec<u8>, n: u64, width: u8)
    ensures
        final(out)@ == old(out)@ + be_bytes(n as nat, width as nat),
    decreases width,
{
    if width > 0 {
        push_be(out, n / 256, width - 1);
        out.push((n % 256) as u8);
    }
    assert(out@ =~= old(out)@ + be_bytes(n as nat, width as nat));
}

/// Appends the bytes of `bytes`.
pub fn push_all(out: &mut Vec<u8>, bytes: &[u8])
    ensures
        final(out)@ == old(out)@ + bytes@,
{
    let mut i: usize = 0;
    while i < bytes.len()
        invariant
            i <= bytes@.len(),
            out@ == old(out)@ + bytes@.take(i as int),
        decreases bytes@.len() - i,
    {
        out.push(bytes[i]);
        i = i + 1;
        assert(out@ =~= old(out)@ + bytes@.take(i as int));
    }
    assert(bytes@.take(i as int) =~= bytes@);
}

/// Appends the shortest header of the major type `major` with the argument
/// `n`.
pub fn write_head(out: &mut Vec<u8>, major: u8, n: u64)
    requires
        major < 8,
    ensures
        final(out)@ == old(out)@ + minimal_head(major, n as nat),
{
    if n < 24 {
        out.push(major * 32 + n as u8);
        assert(be_bytes(n as nat, 0) =~= Seq::<u8>::empty());
    } else if n < 0x100 {
        out.push(major * 32 + 24);
        push_be(out, n, 1);
    } else if n < 0x1_0000 {
        out.push(major * 32 + 25);
        push_be(out, n, 2);
    } else if n < 0x1_0000_0000 {
        out.push(major * 32 + 26);
        push_be(out, n, 4);
    } else {
        out.push(major * 32 + 27);
        push_be(out, n, 8);
    }
    assert(out@ =~= old(out)@ + minimal_head(major, n as nat));
}

/// The least tier for an argument can hold it.
pub proof fn lemma_minimal_head(n: nat)
    requires
        n <= u64::MAX,
    ensures
        fits_tier(n, smallest_tier(n)),
{
    lemma_be_limits();
}

/// The UTF-8 form of a text reads back as the text.
pub proof fn lemma_utf8_reads_back(text: Seq<char>, rest: Seq<u8>)
    ensures
        spec_read_str(encode_utf8(text) + rest, encode_utf8(text).len()) == Ok::<
            (Seq<char>, Seq<u8>),
            CborError,
        >((text, rest)),
{
    let body = encode_utf8(text);
    reveal(spec_read_str);
    assert((body + rest).take(body.len() as int) =~= body);
    assert((body + rest).skip(body.len() as int) =~= rest);
    encode_utf8_valid_utf8(text);
    encode_utf8_decode_utf8(text);
}

/// The encoding of a text reads back as the text.
pub proof fn lemma_text_bytes(text: Seq<char>, rest: Seq<u8>)
    requires
        encode_utf8(text).len() <= usize::MAX,
    ensures
        parse_text(text_bytes(text) + rest) == Ok::<(Seq<char>, Seq<u8>), CborError>((text, rest)),
        (text_bytes(text) + rest).len() > rest.len(),
{
    let body = encode_utf8(text);
    let n = body.len();
    reveal(parse_text);
    lemma_minimal_head(n);
    lemma_head_any_tier(3, smallest_tier(n), n, body + rest);
    assert(text_bytes(text) + rest =~= minimal_head(3, n) + (body + rest));
    lemma_utf8_reads_back(text, rest);
}

/// Appends the encoding of a text.
pub fn write_text(out: &mut Vec<u8>, text: &str)
    ensures
        final(out)@ == old(out)@ + text_bytes(text@),
        encode_utf8(text@).len() <= usize::MAX,
{
    let bytes = text.as_bytes();
    write_head(out, 3, bytes.len() as u64);
    push_all(out, bytes);
    assert(out@ =~= old(out)@ + text_bytes(text@));
}

/// The encoding of a link reads back as the link.
pub proof fn lemma_link_bytes(c: Cid)
    requires
        link_fits(c),
    ensures
        encodes(link_bytes(cid_bytes(c)), IpldView::Link(c)),
{
    let payload = cid_bytes(c);
    let bytes = link_bytes(payload);
    reveal(encodes);
    assert forall|rest: Seq<u8>| #[trigger]
        parse_ipld(bytes + rest) == Ok::<(IpldView, Seq<u8>), CborError>(
            (IpldView::Link(c), rest),
        ) by {
        let all = bytes + rest;
        let s1 = all.skip(1);
        let s2 = s1.skip(1);
        let s3 = s2.skip(1);
        let s4 = s3.skip(1);
        assert(all[0] == 0xd8u8);
        assert(s1[0] == 42u8);
        assert(s2[0] == 0x58u8);
        assert(s3[0] == payload.len() as u8);
        assert(s4 =~= payload + rest);
        assert(s4.take(payload.len() as int) =~= payload);
        assert(s4.skip(payload.len() as int) =~= rest);
    }
}

/// The value `v` holds something that cannot be written, of the kind that
/// `e` reports: an integer out of range, or a content identifier that does
/// not fit a link.
pub open spec fn obstacle_in(v: IpldView, e: EncodeError) -> bool
    decreases v,
{
    match v {
        IpldView::Integer(n) => e == EncodeError::IntegerOutOfRange && !(-0x1_0000_0000_0000_0000
            <= n < 0x1_0000_0000_0000_0000),
        IpldView::Link(c) => e == EncodeError::InvalidLink && !link_fits(c),
        IpldView::List(items) => exists|i: int|
            0 <= i < items.len() && obstacle_in(#[trigger] items[i], e),
        IpldView::StringMap(pairs) => pairs.dom().finite() && exists|k: Seq<char>|
            pairs.contains_key(k) && obstacle_in(#[trigger] pairs[k], e),
        _ => false,
    }
}

/// The value `v` can be written: it holds no obstacle of either kind.
pub open spec fn encodable(v: IpldView) -> bool {
    !obstacle_in(v, EncodeError::IntegerOutOfRange) && !obstacle_in(v, EncodeError::InvalidLink)
}

/// An obstacle in an item of a list is an obstacle in the list, and a list
/// has no other.
pub proof fn lemma_list_obstacle(items: Seq<IpldView>, e: EncodeError)
    ensures
        obstacle_in(IpldView::List(items), e) <==> exists|i: int|
            0 <= i < items.len() && obstacle_in(#[trigger] items[i], e),
{
    let v = IpldView::List(items);
    assert(decreases_to!(v => v->List_0));
    assert forall|i: int| 0 <= i < items.len() implies decreases_to!(v => #[trigger] items[i]) by {
        assert(decreases_to!(v->List_0 => v->List_0[i]));
    }
}

/// An obstacle in a value of a finite map is an obstacle in the map, and a
/// map has no other.
pub proof fn lemma_map_obstacle(pairs: Map<Seq<char>, IpldView>, e: EncodeError)
    requires
        pairs.dom().finite(),
    ensures
        obstacle_in(IpldView::StringMap(pairs), e) <==> exists|k: Seq<char>|
            pairs.contains_key(k) && obstacle_in(#[trigger] pairs[k], e),
{
    let v = IpldView::StringMap(pairs);
    assert(decreases_to!(v => v->StringMap_0));
    assert forall|k: Seq<char>| pairs.contains_key(k) implies decreases_to!(
        v => #[trigger] pairs[k]
    ) by {
        assert(decreases_to!(v->StringMap_0 => v->StringMap_0[k]));
    }
}

/// A list whose items can all be written can be written.
pub proof fn lemma_list_encodable(items: Seq<IpldView>)
    requires
        forall|j: int| 0 <= j < items.len() ==> #[trigger] encodable(items[j]),
    ensures
        encodable(IpldView::List(items)),
{
    lemma_list_obstacle(items, EncodeError::IntegerOutOfRange);
    lemma_list_obstacle(items, EncodeError::InvalidLink);
    assert forall|j: int| 0 <= j < items.len() implies !obstacle_in(
        #[trigger] items[j],
        EncodeError::IntegerOutOfRange,
    ) && !obstacle_in(items[j], EncodeError::InvalidLink) by {
        assert(encodable(items[j]));
    }
}

/// `after` is `before` with something appended.
pub open spec fn extends(after: Seq<u8>, before: Seq<u8>) -> bool {
    before.len() <= after.len() && after.take(before.len() as int) == before
}

/// `after` is `before` with an encoding of `v` appended.
pub open spec fn appends(after: Seq<u8>, before: Seq<u8>, v: IpldView) -> bool {
    extends(after, before) && encodes(after.skip(before.len() as int), v)
}

/// What a write owes: on success the value has no obstacle and its encoding
/// has been appended; a failure reports an obstacle that the value holds, and
/// leaves what was there before in place.
pub open spec fn written(
    res: Result<(), EncodeError>,
    after: Seq<u8>,
    before: Seq<u8>,
    v: IpldView,
) -> bool {
    match res {
        Ok(_) => encodable(v) && appends(after, before, v),
        Err(e) => obstacle_in(v, e) && extends(after, before),
    }
}

/// Appending `bytes`, which decode to `v`, is appending an encoding of `v`.
pub proof fn lemma_appends(after: Seq<u8>, before: Seq<u8>, bytes: Seq<u8>, v: IpldView)
    requires
        after == before + bytes,
        encodes(bytes, v),
    ensures
        appends(after, before, v),
{
    assert(after.take(before.len() as int) =~= before);
    assert(after.skip(before.len() as int) =~= bytes);
}

/// Appending twice is appending.
pub proof fn lemma_extends(last: Seq<u8>, mid: Seq<u8>, first: Seq<u8>)
    requires
        extends(last, mid),
        extends(mid, first),
    ensures
        extends(last, first),
        last.skip(first.len() as int) == mid.skip(first.len() as int) + last.skip(mid.len() as int),
{
    assert(last.take(first.len() as int) =~= last.take(mid.len() as int).take(first.len() as int));
    assert(last.skip(first.len() as int) =~= mid.skip(first.len() as int) + last.skip(
        mid.len() as int,
    )) by {
        assert(mid =~= last.take(mid.len() as int));
    }
}

/// The map `done` after each of `keys` has been given its value of `values`,
/// in order.
pub open spec fn put_all(
    done: Map<Seq<char>, IpldView>,
    keys: Seq<Seq<char>>,
    values: Seq<IpldView>,
) -> Map<Seq<char>, IpldView>
    decreases keys.len(),
{
    if keys.len() == 0 {
        done
    } else {
        put_all(done, keys.drop_last(), values.drop_last()).insert(keys.last(), values.last())
    }
}

/// After pairs have been put into a map one after another, the map has the
/// keys that it had and the keys of the pairs, and no other.
pub proof fn lemma_put_all_keys(
    done: Map<Seq<char>, IpldView>,
    keys: Seq<Seq<char>>,
    values: Seq<IpldView>,
    k: Seq<char>,
)
    requires
        keys.len() == values.len(),
    ensures
        put_all(done, keys, values).contains_key(k) <==> done.contains_key(k) || keys.contains(k),
        !keys.contains(k) && done.contains_key(k) ==> put_all(done, keys, values)[k] == done[k],
    decreases keys.len(),
{
    if keys.len() > 0 {
        let front = keys.drop_last();
        lemma_put_all_keys(done, front, values.drop_last(), k);
        if keys.contains(k) {
            let i = choose|i: int| 0 <= i < keys.len() && keys[i] == k;
            if i < keys.len() - 1 {
                assert(front[i] == k);
            }
        }
        if front.contains(k) {
            let i = choose|i: int| 0 <= i < front.len() && front[i] == k;
            assert(keys[i] == k);
        }
    }
}

/// After pairs have been put into a map one after another, a key has the
/// value of the last pair with that key.
pub proof fn lemma_last_pair_stays(
    done: Map<Seq<char>, IpldView>,
    keys: Seq<Seq<char>>,
    values: Seq<IpldView>,
    i: int,
)
    requires
        keys.len() == values.len(),
        0 <= i < keys.len(),
        forall|j: int| i < j < keys.len() ==> #[trigger] keys[j] != keys[i],
    ensures
        put_all(done, keys, values).contains_key(keys[i]),
        put_all(done, keys, values)[keys[i]] == values[i],
    decreases keys.len(),
{
    let last = keys.len() - 1;
    if i < last {
        let front = keys.drop_last();
        assert(keys[last] != keys[i]);
        assert(front[i] == keys[i]);
        assert forall|j: int| i < j < front.len() implies #[trigger] front[j] != front[i] by {
            assert(keys[j] != keys[i]);
        }
        lemma_last_pair_stays(done, front, values.drop_last(), i);
    }
}

/// Encoded items one after another read back as the items, in order.
pub proof fn lemma_items_read_back(
    chunks: Seq<Seq<u8>>,
    views: Seq<IpldView>,
    count: nat,
    done: Seq<IpldView>,
    rest: Seq<u8>,
)
    requires
        chunks.len() == views.len(),
        chunks.len() <= count,
        forall|i: int| 0 <= i < chunks.len() ==> encodes(#[trigger] chunks[i], views[i]),
    ensures
        parse_items(joined(chunks) + rest, count, done) == parse_items(
            rest,
            (count - chunks.len()) as nat,
            done + views,
        ),
    decreases chunks.len(),
{
    if chunks.len() == 0 {
        assert(joined(chunks) + rest =~= rest);
        assert(done + views =~= done);
    } else {
        let front = chunks.drop_last();
        let last = chunks.last();
        let seen = views.drop_last();
        let tail = last + rest;
        assert forall|i: int| 0 <= i < front.len() implies encodes(#[trigger] front[i], seen[i]) by {
            assert(encodes(chunks[i], views[i]));
        }
        lemma_items_read_back(front, seen, count, done, tail);
        assert(joined(chunks) + rest =~= joined(front) + tail);
        assert(encodes(chunks[chunks.len() - 1], views[chunks.len() - 1]));
        assert(parse_ipld(last + rest) == Ok::<(IpldView, Seq<u8>), CborError>(
            (views.last(), rest),
        )) by {
            reveal(encodes);
        }
        assert((done + seen).push(views.last()) =~= done + views);
    }
}

/// The encodings of pairs: each key as a text, followed by the encoding of
/// its value.
pub open spec fn pair_chunks(keys: Seq<Seq<char>>, bodies: Seq<Seq<u8>>) -> Seq<Seq<u8>> {
    Seq::new(keys.len(), |i: int| text_bytes(keys[i]) + bodies[i])
}

/// An encoded pair at the front reads back as the pair, and reading goes on
/// behind it.
pub proof fn lemma_pair_read_back(
    key: Seq<char>,
    body: Seq<u8>,
    v: IpldView,
    count: nat,
    done: Map<Seq<char>, IpldView>,
    rest: Seq<u8>,
)
    requires
        count > 0,
        encode_utf8(key).len() <= usize::MAX,
        encodes(body, v),
    ensures
        parse_pairs(text_bytes(key) + body + rest, count, done) == parse_pairs(
            rest,
            (count - 1) as nat,
            done.insert(key, v),
        ),
{
    let all = text_bytes(key) + body + rest;
    lemma_text_bytes(key, body + rest);
    assert(all =~= text_bytes(key) + (body + rest));
    assert(parse_ipld(body + rest) == Ok::<(IpldView, Seq<u8>), CborError>((v, rest))) by {
        reveal(encodes);
    }
}

/// Encoded pairs one after another read back as the pairs, in order.
pub proof fn lemma_pairs_read_back(
    keys: Seq<Seq<char>>,
    bodies: Seq<Seq<u8>>,
    views: Seq<IpldView>,
    count: nat,
    done: Map<Seq<char>, IpldView>,
    rest: Seq<u8>,
)
    requires
        keys.len() == views.len(),
        keys.len() == bodies.len(),
        keys.len() <= count,
        forall|i: int| 0 <= i < keys.len() ==> encode_utf8(#[trigger] keys[i]).len() <= usize::MAX,
        forall|i: int| 0 <= i < keys.len() ==> encodes(#[trigger] bodies[i], views[i]),
    ensures
        parse_pairs(joined(pair_chunks(keys, bodies)) + rest, count, done) == parse_pairs(
            rest,
            (count - keys.len()) as nat,
            put_all(done, keys, views),
        ),
    decreases keys.len(),
{
    let chunks = pair_chunks(keys, bodies);
    if keys.len() == 0 {
        assert(joined(chunks) + rest =~= rest);
    } else {
        let at = keys.len() - 1;
        let tail = chunks.last() + rest;
        assert(chunks.drop_last() =~= pair_chunks(keys.drop_last(), bodies.drop_last()));
        assert forall|i: int| 0 <= i < at implies encodes(
            #[trigger] bodies.drop_last()[i],
            views.drop_last()[i],
        ) by {
            assert(encodes(bodies[i], views[i]));
        }
        assert forall|i: int| 0 <= i < at implies encode_utf8(
            #[trigger] keys.drop_last()[i],
        ).len() <= usize::MAX by {
            assert(encode_utf8(keys[i]).len() <= usize::MAX);
        }
        lemma_pairs_read_back(
            keys.drop_last(),
            bodies.drop_last(),
            views.drop_last(),
            count,
            done,
            tail,
        );
        assert(joined(chunks) + rest =~= joined(chunks.drop_last()) + tail);
        assert(encode_utf8(keys[at]).len() <= usize::MAX);
        assert(encodes(bodies[at], views[at]));
        lemma_pair_read_back(
            keys[at],
            bodies[at],
            views[at],
            (count - at) as nat,
            put_all(done, keys.drop_last(), views.drop_last()),
            rest,
        );
    }
}

/// Appends the encoding of an integer.
pub fn write_integer(out: &mut Vec<u8>, n: i128) -> (res: Result<(), EncodeError>)
    ensures
        written(res, final(out)@, old(out)@, IpldView::Integer(n as int)),
        res is Ok ==> final(out)@ == old(out)@ + integer_bytes(n as int),
{
    let ghost v = IpldView::Integer(n as int);
    if n >= 0 {
        if n > 0xffff_ffff_ffff_ffff {
            assert(out@.take(out@.len() as int) =~= out@);
            return Err(EncodeError::IntegerOutOfRange);
        }
        write_head(out, 0, n as u64);
        proof {
            lemma_minimal_head(n as nat);
            assert(encodes(minimal_head(0, n as nat), v)) by {
                reveal(encodes);
                assert forall|rest: Seq<u8>| #[trigger]
                    parse_ipld(minimal_head(0, n as nat) + rest) == Ok::<
                        (IpldView, Seq<u8>),
                        CborError,
                    >((v, rest)) by {
                    lemma_integer_any_tier(smallest_tier(n as nat), n as nat, rest);
                }
            }
            lemma_appends(out@, old(out)@, minimal_head(0, n as nat), v);
        }
    } else {
        if n < -0x1_0000_0000_0000_0000 {
            assert(out@.take(out@.len() as int) =~= out@);
            return Err(EncodeError::IntegerOutOfRange);
        }
        let m: u64 = (-1 - n) as u64;
        write_head(out, 1, m);
        proof {
            lemma_minimal_head(m as nat);
            assert(encodes(minimal_head(1, m as nat), v)) by {
                reveal(encodes);
                assert forall|rest: Seq<u8>| #[trigger]
                    parse_ipld(minimal_head(1, m as nat) + rest) == Ok::<
                        (IpldView, Seq<u8>),
                        CborError,
                    >((v, rest)) by {
                    lemma_integer_any_tier(smallest_tier(m as nat), m as nat, rest);
                }
            }
            lemma_appends(out@, old(out)@, minimal_head(1, m as nat), v);
        }
    }
    Ok(())
}

/// Appends the one byte `byte`, which stands for the value `v`.
fn write_simple(out: &mut Vec<u8>, byte: u8, Ghost(v): Ghost<IpldView>)
    requires
        byte == 0xf4 && v == IpldView::Bool(false) || byte == 0xf5 && v == IpldView::Bool(true)
            || byte == 0xf6 && v == IpldView::Null,
    ensures
        appends(final(out)@, old(out)@, v),
        final(out)@ == old(out)@ + seq![byte],
{
    out.push(byte);
    proof {
        assert(encodes(seq![byte], v)) by {
            reveal(encodes);
            assert forall|rest: Seq<u8>| #[trigger]
                parse_ipld(seq![byte] + rest) == Ok::<(IpldView, Seq<u8>), CborError>(
                    (v, rest),
                ) by {
                lemma_simple_reads_back(byte, rest);
            }
        }
        assert(out@ =~= old(out)@ + seq![byte]);
        lemma_appends(out@, old(out)@, seq![byte], v);
    }
}

/// Appends the encoding of a double-precision number, given by its bits.
pub fn write_float(out: &mut Vec<u8>, bits: u64)
    ensures
        appends(final(out)@, old(out)@, IpldView::Float(bits)),
        final(out)@ == old(out)@ + float_bytes(bits),
{
    out.push(0xfb);
    push_be(out, bits, 8);
    proof {
        let v = IpldView::Float(bits);
        let all = seq![0xfbu8] + be_bytes(bits as nat, 8);
        assert(encodes(all, v)) by {
            reveal(encodes);
            assert forall|rest: Seq<u8>| #[trigger]
                parse_ipld(all + rest) == Ok::<(IpldView, Seq<u8>), CborError>((v, rest)) by {
                lemma_float_reads_back(bits, rest);
            }
        }
        assert(out@ =~= old(out)@ + all);
        lemma_appends(out@, old(out)@, all, v);
    }
}

/// Appends the encoding of a byte string.
pub fn write_byte_string(out: &mut Vec<u8>, bytes: &[u8])
    ensures
        appends(final(out)@, old(out)@, IpldView::Bytes(bytes@)),
        final(out)@ == old(out)@ + byte_string_bytes(bytes@),
{
    write_head(out, 2, bytes.len() as u64);
    push_all(out, bytes);
    proof {
        let v = IpldView::Bytes(bytes@);
        let all = minimal_head(2, bytes@.len()) + bytes@;
        assert(encodes(all, v)) by {
            reveal(encodes);
            assert forall|rest: Seq<u8>| #[trigger]
                parse_ipld(all + rest) == Ok::<(IpldView, Seq<u8>), CborError>((v, rest)) by {
                lemma_byte_string_reads_back(bytes@, rest);
            }
        }
        assert(out@ =~= old(out)@ + all);
        lemma_appends(out@, old(out)@, all, v);
    }
}

/// Appends the encoding of a text as a value.
pub fn write_string(out: &mut Vec<u8>, text: &str)
    ensures
        appends(final(out)@, old(out)@, IpldView::String(text@)),
        final(out)@ == old(out)@ + text_bytes(text@),
{
    write_text(out, text);
    proof {
        let v = IpldView::String(text@);
        let all = text_bytes(text@);
        assert(encodes(all, v)) by {
            reveal(encodes);
            assert forall|rest: Seq<u8>| #[trigger]
                parse_ipld(all + rest) == Ok::<(IpldView, Seq<u8>), CborError>((v, rest)) by {
                lemma_text_parses_as_value(text@, rest);
            }
        }
        lemma_appends(out@, old(out)@, all, v);
    }
}

/// The encoding of a text reads back, as a value, as the text.
pub proof fn lemma_text_parses_as_value(text: Seq<char>, rest: Seq<u8>)
    requires
        encode_utf8(text).len() <= usize::MAX,
    ensures
        parse_ipld(text_bytes(text) + rest) == Ok::<(IpldView, Seq<u8>), CborError>(
            (IpldView::String(text), rest),
        ),
{
    let body = encode_utf8(text);
    let n = body.len();
    lemma_minimal_head(n);
    lemma_parse_by_head(3, smallest_tier(n), n, body + rest);
    assert(text_bytes(text) + rest =~= minimal_head(3, n) + (body + rest));
    lemma_utf8_reads_back(text, rest);
}

/// Appends the encoding of a link to `c`.
pub fn write_link(out: &mut Vec<u8>, c: &Cid) -> (res: Result<(), EncodeError>)
    ensures
        written(res, final(out)@, old(out)@, IpldView::Link(*c)),
        res is Ok ==> final(out)@ == old(out)@ + link_bytes(cid_bytes(*c)),
{
    match link_payload(c) {
        None => {
            assert(out@.take(out@.len() as int) =~= out@);
            Err(EncodeError::InvalidLink)
        },
        Some(payload) => {
            out.push(0xd8);
            out.push(42);
            out.push(0x58);
            out.push(payload.len() as u8);
            push_all(out, payload.as_slice());
            proof {
                lemma_link_bytes(*c);
                assert(out@ =~= old(out)@ + link_bytes(cid_bytes(*c)));
                lemma_appends(out@, old(out)@, link_bytes(cid_bytes(*c)), IpldView::Link(*c));
            }
            Ok(())
        },
    }
}


/// Appends the encoding of a list: a header of major type 4 with the number
/// of items, and the items.
pub fn write_list(out: &mut Vec<u8>, list: &Vec<Ipld>) -> (res: Result<(), EncodeError>)
    ensures
        written(res, final(out)@, old(out)@, IpldView::List(list_view(list@))),
        res is Ok ==> final(out)@ == old(out)@ + minimal_head(4, list@.len()) + joined(
            encodings(list@),
        ),
    decreases list,
{
    let ghost start = out@;
    let ghost views = list_view(list@);
    write_head(out, 4, list.len() as u64);
    let ghost head = minimal_head(4, list@.len());
    let ghost mut chunks: Seq<Seq<u8>> = Seq::empty();
    let mut i: usize = 0;
    proof {
        assert(out@ =~= start + head + joined(chunks));
    }
    while i < list.len()
        invariant
            i <= list@.len(),
            start == old(out)@,
            views == list_view(list@),
            head == minimal_head(4, list@.len()),
            chunks.len() == i,
            out@ == start + head + joined(chunks),
            forall|j: int| 0 <= j < i ==> encodes(#[trigger] chunks[j], views[j]),
            forall|j: int| 0 <= j < i ==> chunks[j] == #[trigger] encoding(list@[j]),
            forall|j: int| 0 <= j < i ==> #[trigger] encodable(views[j]),
        decreases list@.len() - i,
    {
        let ghost before = out@;
        proof {
            assert(decreases_to!(list => list[i as int]));
        }
        match write_ipld(out, &list[i]) {
            Ok(_) => {},
            Err(e) => {
                proof {
                    assert(before.take(start.len() as int) =~= start);
                    lemma_extends(out@, before, start);
                    assert(views[i as int] == list@[i as int]@);
                    lemma_list_obstacle(views, e);
                }
                return Err(e);
            },
        }
        proof {
            let chunk = encoding(list@[i as int]);
            assert(views[i as int] == list@[i as int]@);
            assert(out@.skip(before.len() as int) =~= chunk);
            assert((chunks.push(chunk)).drop_last() =~= chunks);
            assert(out@ =~= start + head + joined(chunks.push(chunk)));
            chunks = chunks.push(chunk);
        }
        i = i + 1;
    }
    proof {
        let v = IpldView::List(views);
        let all = head + joined(chunks);
        assert(encodes(all, v)) by {
            reveal(encodes);
            assert forall|rest: Seq<u8>| #[trigger]
                parse_ipld(all + rest) == Ok::<(IpldView, Seq<u8>), CborError>((v, rest)) by {
                lemma_list_reads_back(chunks, views, rest);
            }
        }
        assert(out@ =~= start + all);
        lemma_appends(out@, start, all, v);
        lemma_list_encodable(views);
        lemma_encodings(list@);
        assert(chunks =~= encodings(list@));
    }
    Ok(())
}

/// A map whose values can all be written can be written.
pub proof fn lemma_map_encodable(entries: Seq<(String, Ipld)>)
    requires
        forall|j: int| 0 <= j < entries.len() ==> #[trigger] encodable(entries[j].1@),
        map_view(entries_map(entries)).dom().finite(),
    ensures
        encodable(IpldView::StringMap(map_view(entries_map(entries)))),
{
    let pairs = map_view(entries_map(entries));
    lemma_map_obstacle(pairs, EncodeError::IntegerOutOfRange);
    lemma_map_obstacle(pairs, EncodeError::InvalidLink);
    assert forall|k: Seq<char>| pairs.contains_key(k) implies !obstacle_in(
        #[trigger] pairs[k],
        EncodeError::IntegerOutOfRange,
    ) && !obstacle_in(pairs[k], EncodeError::InvalidLink) by {
        let at = index_of(entries, k);
        assert(encodable(entries[at].1@));
    }
}

/// An encoded byte string reads back as the bytes.
pub proof fn lemma_byte_string_reads_back(bytes: Seq<u8>, rest: Seq<u8>)
    requires
        bytes.len() <= usize::MAX,
    ensures
        parse_ipld(minimal_head(2, bytes.len()) + bytes + rest) == Ok::<
            (IpldView, Seq<u8>),
            CborError,
        >((IpldView::Bytes(bytes), rest)),
{
    let n = bytes.len();
    lemma_minimal_head(n);
    lemma_parse_by_head(2, smallest_tier(n), n, bytes + rest);
    assert(minimal_head(2, n) + bytes + rest =~= minimal_head(2, n) + (bytes + rest));
    assert((bytes + rest).take(n as int) =~= bytes);
    assert((bytes + rest).skip(n as int) =~= rest);
}

/// An encoded double-precision number reads back as its bits.
pub proof fn lemma_float_reads_back(bits: u64, rest: Seq<u8>)
    ensures
        parse_ipld(seq![0xfbu8] + be_bytes(bits as nat, 8) + rest) == Ok::<
            (IpldView, Seq<u8>),
            CborError,
        >((IpldView::Float(bits), rest)),
{
    let body = be_bytes(bits as nat, 8);
    let all = seq![0xfbu8] + body + rest;
    lemma_be_limits();
    lemma_be_bytes_value(bits as nat, 8);
    let after = all.skip(1);
    assert(after =~= body + rest);
    assert(after.take(8) =~= body);
    assert(after.skip(8) =~= rest);
}

/// The one byte of a truth value or of the absent value reads back as that
/// value.
pub proof fn lemma_simple_reads_back(byte: u8, rest: Seq<u8>)
    requires
        0xf4 <= byte <= 0xf6,
    ensures
        parse_ipld(seq![byte] + rest) == Ok::<(IpldView, Seq<u8>), CborError>(
            (
                if byte == 0xf4 {
                    IpldView::Bool(false)
                } else if byte == 0xf5 {
                    IpldView::Bool(true)
                } else {
                    IpldView::Null
                },
                rest,
            ),
        ),
{
    assert((seq![byte] + rest).skip(1) =~= rest);
}

/// An encoded list reads back as the items that its chunks decode to.
pub proof fn lemma_list_reads_back(chunks: Seq<Seq<u8>>, views: Seq<IpldView>, rest: Seq<u8>)
    requires
        chunks.len() == views.len(),
        chunks.len() <= usize::MAX,
        forall|i: int| 0 <= i < chunks.len() ==> encodes(#[trigger] chunks[i], views[i]),
    ensures
        parse_ipld(minimal_head(4, chunks.len()) + joined(chunks) + rest) == Ok::<
            (IpldView, Seq<u8>),
            CborError,
        >((IpldView::List(views), rest)),
{
    let n = chunks.len();
    let body = joined(chunks);
    lemma_minimal_head(n);
    lemma_parse_by_head(4, smallest_tier(n), n, body + rest);
    assert(minimal_head(4, n) + body + rest =~= minimal_head(4, n) + (body + rest));
    lemma_items_read_back(chunks, views, n, Seq::empty(), rest);
    assert(Seq::<IpldView>::empty() + views =~= views);
}

/// A map that is encoded with a key more than once decodes to a map that
/// has, under that key, the value of the last pair with it.
pub proof fn lemma_map_keeps_last_pair(
    keys: Seq<Seq<char>>,
    bodies: Seq<Seq<u8>>,
    views: Seq<IpldView>,
    rest: Seq<u8>,
    i: int,
)
    requires
        keys.len() == views.len(),
        keys.len() == bodies.len(),
        keys.len() <= usize::MAX,
        forall|j: int| 0 <= j < keys.len() ==> encode_utf8(#[trigger] keys[j]).len() <= usize::MAX,
        forall|j: int| 0 <= j < keys.len() ==> encodes(#[trigger] bodies[j], views[j]),
        0 <= i < keys.len(),
        forall|j: int| i < j < keys.len() ==> #[trigger] keys[j] != keys[i],
    ensures
        parse_ipld(minimal_head(5, keys.len()) + joined(pair_chunks(keys, bodies)) + rest)
            matches Ok((IpldView::StringMap(pairs), end)) && end == rest && pairs.contains_key(
            keys[i],
        ) && pairs[keys[i]] == views[i],
{
    lemma_map_reads_back(keys, bodies, views, rest);
    lemma_last_pair_stays(Map::empty(), keys, views, i);
}

/// An encoded map reads back as the pairs that its chunks decode to.
pub proof fn lemma_map_reads_back(
    keys: Seq<Seq<char>>,
    bodies: Seq<Seq<u8>>,
    views: Seq<IpldView>,
    rest: Seq<u8>,
)
    requires
        keys.len() == views.len(),
        keys.len() == bodies.len(),
        keys.len() <= usize::MAX,
        forall|i: int| 0 <= i < keys.len() ==> encode_utf8(#[trigger] keys[i]).len() <= usize::MAX,
        forall|i: int| 0 <= i < keys.len() ==> encodes(#[trigger] bodies[i], views[i]),
    ensures
        parse_ipld(minimal_head(5, keys.len()) + joined(pair_chunks(keys, bodies)) + rest) == Ok::<
            (IpldView, Seq<u8>),
            CborError,
        >((IpldView::StringMap(put_all(Map::empty(), keys, views)), rest)),
{
    let n = keys.len();
    let body = joined(pair_chunks(keys, bodies));
    lemma_minimal_head(n);
    lemma_parse_by_head(5, smallest_tier(n), n, body + rest);
    assert(minimal_head(5, n) + body + rest =~= minimal_head(5, n) + (body + rest));
    lemma_pairs_read_back(keys, bodies, views, n, Map::empty(), rest);
}

/// Appends the encoding of a map: a header of major type 5 with the number
/// of pairs, and the pairs in the order of their keys, each key as a text.
pub fn write_map(out: &mut Vec<u8>, map: &StringMap<Ipld>) -> (res: Result<(), EncodeError>)
    ensures
        written(res, final(out)@, old(out)@, IpldView::StringMap(map_view(map@))),
        res is Ok ==> final(out)@ == old(out)@ + minimal_head(5, map.entries().len()) + joined(
            pair_encodings(map.entries()),
        ),
    decreases map,
{
    let ghost start = out@;
    let ghost pairs = map_view(map@);
    let n = map.len();
    write_head(out, 5, n as u64);
    let ghost head = minimal_head(5, n as nat);
    let ghost entries = map.entries();
    let ghost mut keys: Seq<Seq<char>> = Seq::empty();
    let ghost mut bodies: Seq<Seq<u8>> = Seq::empty();
    let ghost mut views: Seq<IpldView> = Seq::empty();
    let mut i: usize = 0;
    proof {
        map.lemma_entries();
        map.lemma_view();
        assert(pairs.dom() =~= map@.dom());
        assert(entries.take(0) =~= Seq::<(String, Ipld)>::empty());
        assert(map_view(entries_map(entries.take(0))) =~= Map::<Seq<char>, IpldView>::empty());
        assert(pair_chunks(keys, bodies) =~= Seq::<Seq<u8>>::empty());
        assert(out@ =~= start + head + joined(pair_chunks(keys, bodies)));
    }
    while i < n
        invariant
            i <= n,
            start == old(out)@,
            n == entries.len(),
            entries == map.entries(),
            entries == map.entries@,
            keys_increase(entries),
            map@ == entries_map(entries),
            pairs == map_view(map@),
            pairs.dom().finite(),
            head == minimal_head(5, n as nat),
            keys.len() == i,
            bodies.len() == i,
            views.len() == i,
            out@ == start + head + joined(pair_chunks(keys, bodies)),
            forall|j: int| 0 <= j < i ==> encode_utf8(#[trigger] keys[j]).len() <= usize::MAX,
            forall|j: int| 0 <= j < i ==> encodes(#[trigger] bodies[j], views[j]),
            forall|j: int| 0 <= j < i ==> #[trigger] keys[j] == entries[j].0@,
            forall|j: int| 0 <= j < i ==> #[trigger] bodies[j] == encoding(entries[j].1),
            forall|j: int| 0 <= j < i ==> #[trigger] encodable(entries[j].1@),
            put_all(Map::empty(), keys, views) == map_view(entries_map(entries.take(i as int))),
        decreases n - i,
    {
        let ghost before = out@;
        let (key, value) = map.entry(i);
        write_text(out, key.as_str());
        let ghost mid = out@;
        proof {
            assert(decreases_to!(map => map.entries));
            assert(decreases_to!(map.entries => map.entries[i as int]));
            assert(decreases_to!(map.entries[i as int] => map.entries[i as int].1));
            assert(*value == map.entries[i as int].1);
        }
        match write_ipld(out, value) {
            Ok(_) => {},
            Err(e) => {
                proof {
                    assert(mid.take(start.len() as int) =~= start);
                    lemma_extends(out@, mid, start);
                    assert(pairs.contains_key(key@));
                    assert(pairs[key@] == value@);
                    lemma_map_obstacle(pairs, e);
                }
                return Err(e);
            },
        }
        proof {
            let body = encoding(*value);
            let chunk = text_bytes(key@) + body;
            assert(out@.skip(mid.len() as int) =~= body);
            assert(out@ =~= before + chunk);
            let more_keys = keys.push(key@);
            let more_bodies = bodies.push(body);
            assert(pair_chunks(more_keys, more_bodies).drop_last() =~= pair_chunks(keys, bodies));
            assert(pair_chunks(more_keys, more_bodies).last() == chunk);
            assert(out@ =~= start + head + joined(pair_chunks(more_keys, more_bodies)));
            lemma_next_entry(entries, i as int);
            assert(more_keys.drop_last() =~= keys);
            assert(views.push(value@).drop_last() =~= views);
            keys = more_keys;
            bodies = more_bodies;
            views = views.push(value@);
        }
        i = i + 1;
    }
    proof {
        let v = IpldView::StringMap(pairs);
        let all = head + joined(pair_chunks(keys, bodies));
        assert(entries.take(n as int) =~= entries);
        assert(encodes(all, v)) by {
            reveal(encodes);
            assert forall|rest: Seq<u8>| #[trigger]
                parse_ipld(all + rest) == Ok::<(IpldView, Seq<u8>), CborError>((v, rest)) by {
                lemma_map_reads_back(keys, bodies, views, rest);
            }
        }
        assert(out@ =~= start + all);
        lemma_appends(out@, start, all, v);
        lemma_map_encodable(entries);
        lemma_pair_encodings(entries);
        assert(pair_chunks(keys, bodies) =~= pair_encodings(entries));
    }
    Ok(())
}

/// Appends the encoding of `ipld`, in the shortest form of each header.
/// Floating-point numbers are written with all their 64 bits.
pub fn write_ipld(out: &mut Vec<u8>, ipld: &Ipld) -> (res: Result<(), EncodeError>)
    ensures
        written(res, final(out)@, old(out)@, ipld@),
        res is Ok ==> final(out)@ == old(out)@ + encoding(*ipld),
    decreases ipld,
{
    proof {
        lemma_view(*ipld);
        lemma_encoding(*ipld);
    }
    match ipld {
        Ipld::Null => {
            write_simple(out, 0xf6, Ghost(IpldView::Null));
            Ok(())
        },
        Ipld::Bool(b) => {
            if *b {
                write_simple(out, 0xf5, Ghost(IpldView::Bool(true)));
            } else {
                write_simple(out, 0xf4, Ghost(IpldView::Bool(false)));
            }
            Ok(())
        },
        Ipld::Integer(n) => write_integer(out, *n),
        Ipld::Float(bits) => {
            write_float(out, *bits);
            Ok(())
        },
        Ipld::String(text) => {
            write_string(out, text.as_str());
            Ok(())
        },
        Ipld::Bytes(bytes) => {
            write_byte_string(out, bytes.as_slice());
            Ok(())
        },
        Ipld::List(list) => write_list(out, list),
        Ipld::StringMap(map) => write_map(out, map),
        Ipld::Link(c) => write_link(out, c),
    }
}

/// The encoding of `ipld`: bytes that decode to `ipld` and to nothing more.
pub fn encode(ipld: &Ipld) -> (res: Result<Vec<u8>, EncodeError>)
    ensures
        match res {
            Ok(bytes) => {
                &&& encodable(ipld@)
                &&& bytes@ == encoding(*ipld)
                &&& parse_ipld(bytes@) == Ok::<(IpldView, Seq<u8>), CborError>(
                    (ipld@, Seq::empty()),
                )
            },
            Err(e) => obstacle_in(ipld@, e),
        },
{
    let mut out: Vec<u8> = Vec::new();
    match write_ipld(&mut out, ipld) {
        Ok(_) => {
            proof {
                reveal(encodes);
                assert(out@.skip(0) =~= out@);
                assert(out@ + Seq::<u8>::empty() =~= out@);
                assert(Seq::<u8>::empty() + encoding(*ipld) =~= encoding(*ipld));
            }
            Ok(out)
        },
        Err(e) => Err(e),
    }
}

} // verus!
