//! The decoder: reads values of a requested type off a byte reader.

use vstd::prelude::*;
use cid::Cid;
use crate::codec::cbor::format::lemma_ipld_leaves_tail;
use crate::codec::cbor::format::lemma_text_leaves_tail;
use crate::codec::cbor::format::minor_of;
use crate::codec::cbor::format::parse_argument;
use crate::codec::cbor::format::parse_bool;
use crate::codec::cbor::format::parse_cid;
use crate::codec::cbor::format::parse_double;
use crate::codec::cbor::format::parse_head;
use crate::codec::cbor::format::parse_ipld;
use crate::codec::cbor::format::parse_items;
use crate::codec::cbor::format::parse_length;
use crate::codec::cbor::format::parse_length_head;
use crate::codec::cbor::format::parse_link;
use crate::codec::cbor::format::parse_negative;
use crate::codec::cbor::format::parse_null;
use crate::codec::cbor::format::parse_pairs;
use crate::codec::cbor::format::parse_single;
use crate::codec::cbor::format::parse_text;
use crate::codec::cbor::format::parse_unsigned;
use crate::codec::cbor::format::Parsed;
use crate::error::CborError;
use crate::float::widen_single;
use crate::float::Double;
use crate::float::Single;
use crate::ipld::lemma_view;
use crate::ipld::list_view;
use crate::ipld::map_view;
use crate::ipld::Ipld;
use crate::ipld::IpldView;
use crate::link::cid_try_from;
use crate::map::StringMap;
use crate::reader::lemma_be_value_bound;
use crate::reader::read_bytes;
use crate::reader::read_str;
use crate::reader::read_u16;
use crate::reader::read_u32;
use crate::reader::read_u64;
use crate::reader::read_u8;
use crate::reader::ByteReader;

verus! {

/// A type whose values can be decoded from bytes.
pub trait ReadCbor: Sized {
    /// What a value of the type stands for.
    type Model;

    /// What `self` stands for.
    spec fn model(&self) -> Self::Model;

    /// The value at the front of `s` and the bytes after it, or the error
    /// that decoding `s` stops with.
    spec fn parse(s: Seq<u8>) -> Parsed<Self::Model>;

    /// Decodes one value from the front of what `r` has left, and moves `r`
    /// past it.
    fn read_cbor(r: &mut ByteReader) -> (res: Result<Self, CborError>)
        ensures
            final(r).follows(old(r)),
            match res {
                Ok(v) => Self::parse(old(r)@) == Ok::<(Self::Model, Seq<u8>), CborError>(
                    (v.model(), final(r)@),
                ),
                Err(e) => Self::parse(old(r)@) == Err::<(Self::Model, Seq<u8>), CborError>(e),
            },
    ;
}

/// Reads the argument of a header byte with the minor value `minor`.
pub fn read_argument(r: &mut ByteReader, minor: u8) -> (res: Result<u64, CborError>)
    ensures
        final(r).follows(old(r)),
        match res {
            Ok(n) => parse_argument(minor, old(r)@) == Ok::<(nat, Seq<u8>), CborError>(
                (n as nat, final(r)@),
            ),
            Err(e) => parse_argument(minor, old(r)@) == Err::<(nat, Seq<u8>), CborError>(e),
        },
{
    proof {
        use_type_invariant(&*r);
        if old(r)@.len() >= 1 {
            lemma_be_value_bound(old(r)@.take(1));
        }
    }
    if minor < 24 {
        Ok(minor as u64)
    } else if minor == 24 {
        Ok(read_u8(r)? as u64)
    } else if minor == 25 {
        Ok(read_u16(r)? as u64)
    } else if minor == 26 {
        Ok(read_u32(r)? as u64)
    } else if minor == 27 {
        read_u64(r)
    } else {
        Err(CborError::UnexpectedCode)
    }
}

/// Reads the argument of a header byte as a length.
pub fn read_length(r: &mut ByteReader, minor: u8) -> (res: Result<usize, CborError>)
    ensures
        final(r).follows(old(r)),
        match res {
            Ok(n) => parse_length(minor, old(r)@) == Ok::<(nat, Seq<u8>), CborError>(
                (n as nat, final(r)@),
            ),
            Err(e) => parse_length(minor, old(r)@) == Err::<(nat, Seq<u8>), CborError>(e),
        },
{
    let n = read_argument(r, minor)?;
    if n > usize::MAX as u64 {
        Err(CborError::LengthOutOfRange)
    } else {
        Ok(n as usize)
    }
}

/// Reads a header byte of the major type `major` whose minor value is at
/// most `widest`, and its argument.
pub fn read_head(r: &mut ByteReader, major: u8, widest: u8) -> (res: Result<u64, CborError>)
    ensures
        final(r).follows(old(r)),
        match res {
            Ok(n) => parse_head(old(r)@, major, widest) == Ok::<(nat, Seq<u8>), CborError>(
                (n as nat, final(r)@),
            ),
            Err(e) => parse_head(old(r)@, major, widest) == Err::<(nat, Seq<u8>), CborError>(e),
        },
{
    let b = read_u8(r)?;
    if b / 32 != major || b % 32 > widest {
        Err(CborError::UnexpectedCode)
    } else {
        read_argument(r, b % 32)
    }
}

/// Reads the header of a string or container of the major type `major`:
/// its length.
pub fn read_length_head(r: &mut ByteReader, major: u8) -> (res: Result<usize, CborError>)
    ensures
        final(r).follows(old(r)),
        match res {
            Ok(n) => parse_length_head(old(r)@, major) == Ok::<(nat, Seq<u8>), CborError>(
                (n as nat, final(r)@),
            ),
            Err(e) => parse_length_head(old(r)@, major) == Err::<(nat, Seq<u8>), CborError>(e),
        },
{
    let b = read_u8(r)?;
    if b / 32 != major || b % 32 > 27 {
        Err(CborError::UnexpectedCode)
    } else {
        read_length(r, b % 32)
    }
}

impl ReadCbor for bool {
    type Model = bool;

    open spec fn model(&self) -> bool {
        *self
    }

    open spec fn parse(s: Seq<u8>) -> Parsed<bool> {
        parse_bool(s)
    }

    fn read_cbor(r: &mut ByteReader) -> (res: Result<Self, CborError>) {
        let b = read_u8(r)?;
        if b == 0xf4 {
            Ok(false)
        } else if b == 0xf5 {
            Ok(true)
        } else {
            Err(CborError::UnexpectedCode)
        }
    }
}

impl ReadCbor for u8 {
    type Model = nat;

    open spec fn model(&self) -> nat {
        *self as nat
    }

    open spec fn parse(s: Seq<u8>) -> Parsed<nat> {
        parse_unsigned(s, 24)
    }

    fn read_cbor(r: &mut ByteReader) -> (res: Result<Self, CborError>) {
        proof {
            if old(r)@.len() >= 2 {
                lemma_be_value_bound(old(r)@.skip(1).take(1));
            }
        }
        let n = read_head(r, 0, 24)?;
        Ok(n as u8)
    }
}

impl ReadCbor for u16 {
    type Model = nat;

    open spec fn model(&self) -> nat {
        *self as nat
    }

    open spec fn parse(s: Seq<u8>) -> Parsed<nat> {
        parse_unsigned(s, 25)
    }

    fn read_cbor(r: &mut ByteReader) -> (res: Result<Self, CborError>) {
        proof {
            if old(r)@.len() >= 2 {
                lemma_be_value_bound(old(r)@.skip(1).take(1));
            }
            if old(r)@.len() >= 3 {
                lemma_be_value_bound(old(r)@.skip(1).take(2));
            }
        }
        let n = read_head(r, 0, 25)?;
        Ok(n as u16)
    }
}

impl ReadCbor for u32 {
    type Model = nat;

    open spec fn model(&self) -> nat {
        *self as nat
    }

    open spec fn parse(s: Seq<u8>) -> Parsed<nat> {
        parse_unsigned(s, 26)
    }

    fn read_cbor(r: &mut ByteReader) -> (res: Result<Self, CborError>) {
        proof {
            if old(r)@.len() >= 1 {
                lemma_argument_bound(old(r)@);
            }
        }
        let n = read_head(r, 0, 26)?;
        Ok(n as u32)
    }
}

impl ReadCbor for u64 {
    type Model = nat;

    open spec fn model(&self) -> nat {
        *self as nat
    }

    open spec fn parse(s: Seq<u8>) -> Parsed<nat> {
        parse_unsigned(s, 27)
    }

    fn read_cbor(r: &mut ByteReader) -> (res: Result<Self, CborError>) {
        read_head(r, 0, 27)
    }
}

/// The argument that follows the first byte of `s` is below `256^w` for the
/// width `w` that the byte asks for.
pub proof fn lemma_argument_bound(s: Seq<u8>)
    requires
        s.len() >= 1,
    ensures
        parse_argument(minor_of(s[0]), s.skip(1)) matches Ok((n, rest)) ==> {
            &&& minor_of(s[0]) <= 24 ==> n <= u8::MAX
            &&& minor_of(s[0]) <= 25 ==> n <= u16::MAX
            &&& minor_of(s[0]) <= 26 ==> n <= u32::MAX
            &&& n <= u64::MAX
            &&& rest.len() <= s.len() - 1
        },
{
    let t = s.skip(1);
    if t.len() >= 1 {
        lemma_be_value_bound(t.take(1));
    }
    if t.len() >= 2 {
        lemma_be_value_bound(t.take(2));
    }
    if t.len() >= 4 {
        lemma_be_value_bound(t.take(4));
    }
    if t.len() >= 8 {
        lemma_be_value_bound(t.take(8));
    }
}

impl ReadCbor for i8 {
    type Model = int;

    open spec fn model(&self) -> int {
        *self as int
    }

    open spec fn parse(s: Seq<u8>) -> Parsed<int> {
        parse_negative(s, 24, i8::MIN as int)
    }

    fn read_cbor(r: &mut ByteReader) -> (res: Result<Self, CborError>) {
        let m = read_head(r, 1, 24)?;
        if m > 0x7f {
            Err(CborError::LengthOutOfRange)
        } else {
            Ok(-1 - (m as i8))
        }
    }
}

impl ReadCbor for i16 {
    type Model = int;

    open spec fn model(&self) -> int {
        *self as int
    }

    open spec fn parse(s: Seq<u8>) -> Parsed<int> {
        parse_negative(s, 25, i16::MIN as int)
    }

    fn read_cbor(r: &mut ByteReader) -> (res: Result<Self, CborError>) {
        let m = read_head(r, 1, 25)?;
        if m > 0x7fff {
            Err(CborError::LengthOutOfRange)
        } else {
            Ok(-1 - (m as i16))
        }
    }
}

impl ReadCbor for i32 {
    type Model = int;

    open spec fn model(&self) -> int {
        *self as int
    }

    open spec fn parse(s: Seq<u8>) -> Parsed<int> {
        parse_negative(s, 26, i32::MIN as int)
    }

    fn read_cbor(r: &mut ByteReader) -> (res: Result<Self, CborError>) {
        let m = read_head(r, 1, 26)?;
        if m > 0x7fff_ffff {
            Err(CborError::LengthOutOfRange)
        } else {
            Ok(-1 - (m as i32))
        }
    }
}

impl ReadCbor for i64 {
    type Model = int;

    open spec fn model(&self) -> int {
        *self as int
    }

    open spec fn parse(s: Seq<u8>) -> Parsed<int> {
        parse_negative(s, 27, i64::MIN as int)
    }

    fn read_cbor(r: &mut ByteReader) -> (res: Result<Self, CborError>) {
        let m = read_head(r, 1, 27)?;
        if m > 0x7fff_ffff_ffff_ffff {
            Err(CborError::LengthOutOfRange)
        } else {
            Ok(-1 - (m as i64))
        }
    }
}

impl ReadCbor for Single {
    type Model = nat;

    open spec fn model(&self) -> nat {
        self.bits as nat
    }

    open spec fn parse(s: Seq<u8>) -> Parsed<nat> {
        parse_single(s)
    }

    fn read_cbor(r: &mut ByteReader) -> (res: Result<Self, CborError>) {
        let b = read_u8(r)?;
        if b == 0xfa {
            let bits = read_u32(r)?;
            Ok(Single { bits })
        } else {
            Err(CborError::UnexpectedCode)
        }
    }
}

impl ReadCbor for Double {
    type Model = nat;

    open spec fn model(&self) -> nat {
        self.bits as nat
    }

    open spec fn parse(s: Seq<u8>) -> Parsed<nat> {
        parse_double(s)
    }

    fn read_cbor(r: &mut ByteReader) -> (res: Result<Self, CborError>) {
        let b = read_u8(r)?;
        if b == 0xfa {
            let bits = read_u32(r)?;
            Ok(Double { bits: widen_single(bits) })
        } else if b == 0xfb {
            let bits = read_u64(r)?;
            Ok(Double { bits })
        } else {
            Err(CborError::UnexpectedCode)
        }
    }
}

impl ReadCbor for String {
    type Model = Seq<char>;

    open spec fn model(&self) -> Seq<char> {
        self@
    }

    open spec fn parse(s: Seq<u8>) -> Parsed<Seq<char>> {
        parse_text(s)
    }

    fn read_cbor(r: &mut ByteReader) -> (res: Result<Self, CborError>) {
        proof {
            reveal(parse_text);
        }
        let len = read_length_head(r, 3)?;
        read_str(r, len)
    }
}

/// Reads what follows the tag byte of a link, and parses the content
/// identifier that it carries.
pub fn read_link(r: &mut ByteReader) -> (res: Result<Cid, CborError>)
    ensures
        final(r).follows(old(r)),
        match res {
            Ok(c) => parse_link(old(r)@) == Ok::<(Cid, Seq<u8>), CborError>((c, final(r)@)),
            Err(e) => parse_link(old(r)@) == Err::<(Cid, Seq<u8>), CborError>(e),
        },
{
    let tag = read_u8(r)?;
    if tag != 42 {
        return Err(CborError::UnknownTag);
    }
    let ty = read_u8(r)?;
    if ty != 0x58 {
        return Err(CborError::UnknownTag);
    }
    let len = read_u8(r)?;
    let bytes = read_bytes(r, len as usize)?;
    match cid_try_from(bytes) {
        Ok(c) => Ok(c),
        Err(_) => Err(CborError::InvalidCid),
    }
}

impl ReadCbor for Cid {
    type Model = Cid;

    open spec fn model(&self) -> Cid {
        *self
    }

    open spec fn parse(s: Seq<u8>) -> Parsed<Cid> {
        parse_cid(s)
    }

    fn read_cbor(r: &mut ByteReader) -> (res: Result<Self, CborError>) {
        let b = read_u8(r)?;
        if b == 0xd8 {
            read_link(r)
        } else {
            Err(CborError::UnexpectedCode)
        }
    }
}

impl<T: ReadCbor> ReadCbor for Option<T> {
    type Model = Option<T::Model>;

    open spec fn model(&self) -> Option<T::Model> {
        match self {
            Some(v) => Some(v.model()),
            None => None,
        }
    }

    /// Only the absent value is read; a present one is not among the forms
    /// that this target accepts.
    open spec fn parse(s: Seq<u8>) -> Parsed<Option<T::Model>> {
        match parse_null(s) {
            Ok((_, rest)) => Ok((None, rest)),
            Err(e) => Err(e),
        }
    }

    fn read_cbor(r: &mut ByteReader) -> (res: Result<Self, CborError>) {
        let b = read_u8(r)?;
        if b == 0xf6 || b == 0xf7 {
            Ok(None)
        } else {
            Err(CborError::UnexpectedCode)
        }
    }
}

/// What the values of `s` stand for, in order.
pub open spec fn models<T: ReadCbor>(s: Seq<T>) -> Seq<T::Model> {
    Seq::new(s.len(), |i: int| s[i].model())
}

/// What the values of `m` stand for, under the same keys.
pub open spec fn models_by_key<T: ReadCbor>(m: Map<Seq<char>, T>) -> Map<Seq<char>, T::Model> {
    Map::new(|k: Seq<char>| m.contains_key(k), |k: Seq<char>| m[k].model())
}

/// `count` values of one type one after another, appended to `done`.
pub open spec fn parse_list<T: ReadCbor>(s: Seq<u8>, count: nat, done: Seq<T::Model>) -> Parsed<
    Seq<T::Model>,
>
    decreases count,
{
    if count == 0 {
        Ok((done, s))
    } else {
        match T::parse(s) {
            Err(e) => Err(e),
            Ok((item, rest)) => parse_list::<T>(rest, (count - 1) as nat, done.push(item)),
        }
    }
}

/// `count` pairs of a text key and a value of one type one after another,
/// put into `done`; a key that comes again takes the place of the earlier
/// one.
pub open spec fn parse_map<T: ReadCbor>(
    s: Seq<u8>,
    count: nat,
    done: Map<Seq<char>, T::Model>,
) -> Parsed<Map<Seq<char>, T::Model>>
    decreases count,
{
    if count == 0 {
        Ok((done, s))
    } else {
        match parse_text(s) {
            Err(e) => Err(e),
            Ok((key, s1)) => match T::parse(s1) {
                Err(e) => Err(e),
                Ok((value, rest)) => parse_map::<T>(
                    rest,
                    (count - 1) as nat,
                    done.insert(key, value),
                ),
            },
        }
    }
}

/// Reads `len` values one after another.
pub fn read_list<T: ReadCbor>(r: &mut ByteReader, len: usize) -> (res: Result<Vec<T>, CborError>)
    ensures
        final(r).follows(old(r)),
        match res {
            Ok(list) => parse_list::<T>(old(r)@, len as nat, Seq::empty()) == Ok::<
                (Seq<T::Model>, Seq<u8>),
                CborError,
            >((models(list@), final(r)@)),
            Err(e) => parse_list::<T>(old(r)@, len as nat, Seq::empty()) == Err::<
                (Seq<T::Model>, Seq<u8>),
                CborError,
            >(e),
        },
{
    let ghost start = *r;
    let mut list: Vec<T> = Vec::new();
    let mut i: usize = 0;
    proof {
        use_type_invariant(&*r);
        assert(models(list@) =~= Seq::<T::Model>::empty());
    }
    while i < len
        invariant
            i <= len,
            start == *old(r),
            r.follows(&start),
            parse_list::<T>(start@, len as nat, Seq::empty()) == parse_list::<T>(
                r@,
                (len - i) as nat,
                models(list@),
            ),
        decreases len - i,
    {
        let ghost before = models(list@);
        match T::read_cbor(r) {
            Ok(item) => {
                list.push(item);
                assert(models(list@) =~= before.push(item.model()));
            },
            Err(e) => {
                return Err(e);
            },
        }
        i = i + 1;
    }
    Ok(list)
}

/// Reads `len` pairs of a text key and a value one after another into a map.
/// Of two pairs with the same key the later one stays.
pub fn read_map<T: ReadCbor>(r: &mut ByteReader, len: usize) -> (res: Result<
    StringMap<T>,
    CborError,
>)
    ensures
        final(r).follows(old(r)),
        match res {
            Ok(map) => parse_map::<T>(old(r)@, len as nat, Map::empty()) == Ok::<
                (Map<Seq<char>, T::Model>, Seq<u8>),
                CborError,
            >((models_by_key(map@), final(r)@)),
            Err(e) => parse_map::<T>(old(r)@, len as nat, Map::empty()) == Err::<
                (Map<Seq<char>, T::Model>, Seq<u8>),
                CborError,
            >(e),
        },
{
    let ghost start = *r;
    let mut map: StringMap<T> = StringMap::new();
    let mut i: usize = 0;
    proof {
        use_type_invariant(&*r);
        assert(models_by_key(map@) =~= Map::<Seq<char>, T::Model>::empty());
    }
    while i < len
        invariant
            i <= len,
            start == *old(r),
            r.follows(&start),
            parse_map::<T>(start@, len as nat, Map::empty()) == parse_map::<T>(
                r@,
                (len - i) as nat,
                models_by_key(map@),
            ),
        decreases len - i,
    {
        let ghost before = models_by_key(map@);
        let key = match String::read_cbor(r) {
            Ok(key) => key,
            Err(e) => {
                return Err(e);
            },
        };
        let value = match T::read_cbor(r) {
            Ok(value) => value,
            Err(e) => {
                return Err(e);
            },
        };
        let ghost k = key@;
        let ghost v = value.model();
        map.insert(key, value);
        assert(models_by_key(map@) =~= before.insert(k, v));
        i = i + 1;
    }
    Ok(map)
}

impl<T: ReadCbor> ReadCbor for Vec<T> {
    type Model = Seq<T::Model>;

    open spec fn model(&self) -> Seq<T::Model> {
        models(self@)
    }

    open spec fn parse(s: Seq<u8>) -> Parsed<Seq<T::Model>> {
        match parse_length_head(s, 4) {
            Ok((len, rest)) => parse_list::<T>(rest, len, Seq::empty()),
            Err(e) => Err(e),
        }
    }

    fn read_cbor(r: &mut ByteReader) -> (res: Result<Self, CborError>) {
        let len = read_length_head(r, 4)?;
        read_list(r, len)
    }
}

impl<T: ReadCbor> ReadCbor for StringMap<T> {
    type Model = Map<Seq<char>, T::Model>;

    open spec fn model(&self) -> Map<Seq<char>, T::Model> {
        models_by_key(self@)
    }

    open spec fn parse(s: Seq<u8>) -> Parsed<Map<Seq<char>, T::Model>> {
        match parse_length_head(s, 5) {
            Ok((len, rest)) => parse_map::<T>(rest, len, Map::empty()),
            Err(e) => Err(e),
        }
    }

    fn read_cbor(r: &mut ByteReader) -> (res: Result<Self, CborError>) {
        let len = read_length_head(r, 5)?;
        read_map(r, len)
    }
}


/// Reads `len` values of any kind one after another.
pub fn read_ipld_list(r: &mut ByteReader, len: usize) -> (res: Result<Vec<Ipld>, CborError>)
    ensures
        final(r).follows(old(r)),
        match res {
            Ok(list) => parse_items(old(r)@, len as nat, Seq::empty()) == Ok::<
                (Seq<IpldView>, Seq<u8>),
                CborError,
            >((list_view(list@), final(r)@)),
            Err(e) => parse_items(old(r)@, len as nat, Seq::empty()) == Err::<
                (Seq<IpldView>, Seq<u8>),
                CborError,
            >(e),
        },
    decreases old(r)@.len(), 1nat,
{
    let ghost start = *r;
    let mut list: Vec<Ipld> = Vec::new();
    let mut i: usize = 0;
    proof {
        use_type_invariant(&*r);
        assert(list_view(list@) =~= Seq::<IpldView>::empty());
    }
    while i < len
        invariant
            i <= len,
            start == *old(r),
            r.follows(&start),
            parse_items(start@, len as nat, Seq::empty()) == parse_items(
                r@,
                (len - i) as nat,
                list_view(list@),
            ),
        decreases len - i,
    {
        let ghost before = list_view(list@);
        match read_ipld(r) {
            Ok(item) => {
                list.push(item);
                assert(list_view(list@) =~= before.push(item@));
            },
            Err(e) => {
                return Err(e);
            },
        }
        i = i + 1;
    }
    Ok(list)
}

/// Reads `len` pairs of a text key and a value of any kind one after another
/// into a map. Of two pairs with the same key the later one stays.
pub fn read_ipld_map(r: &mut ByteReader, len: usize) -> (res: Result<StringMap<Ipld>, CborError>)
    ensures
        final(r).follows(old(r)),
        match res {
            Ok(map) => parse_pairs(old(r)@, len as nat, Map::empty()) == Ok::<
                (Map<Seq<char>, IpldView>, Seq<u8>),
                CborError,
            >((map_view(map@), final(r)@)),
            Err(e) => parse_pairs(old(r)@, len as nat, Map::empty()) == Err::<
                (Map<Seq<char>, IpldView>, Seq<u8>),
                CborError,
            >(e),
        },
    decreases old(r)@.len(), 1nat,
{
    let ghost start = *r;
    let mut map: StringMap<Ipld> = StringMap::new();
    let mut i: usize = 0;
    proof {
        use_type_invariant(&*r);
        assert(map_view(map@) =~= Map::<Seq<char>, IpldView>::empty());
    }
    while i < len
        invariant
            i <= len,
            start == *old(r),
            r.follows(&start),
            parse_pairs(start@, len as nat, Map::empty()) == parse_pairs(
                r@,
                (len - i) as nat,
                map_view(map@),
            ),
        decreases len - i,
    {
        let ghost before = map_view(map@);
        let key = match String::read_cbor(r) {
            Ok(key) => key,
            Err(e) => {
                return Err(e);
            },
        };
        let value = match read_ipld(r) {
            Ok(value) => value,
            Err(e) => {
                return Err(e);
            },
        };
        let ghost k = key@;
        let ghost v = value@;
        map.insert(key, value);
        assert(map_view(map@) =~= before.insert(k, v));
        i = i + 1;
    }
    Ok(map)
}

/// Reads one value of any kind.
pub fn read_ipld(r: &mut ByteReader) -> (res: Result<Ipld, CborError>)
    ensures
        final(r).follows(old(r)),
        match res {
            Ok(v) => parse_ipld(old(r)@) == Ok::<(IpldView, Seq<u8>), CborError>((v@, final(r)@)),
            Err(e) => parse_ipld(old(r)@) == Err::<(IpldView, Seq<u8>), CborError>(e),
        },
    decreases old(r)@.len(), 0nat,
{
    proof {
        use_type_invariant(&*r);
    }
    let b = read_u8(r)?;
    let major = b / 32;
    let minor = b % 32;
    proof {
        use_type_invariant(&*r);
        lemma_argument_bound(old(r)@);
    }
    let ipld = if major == 0 {
        // Major type 0: an unsigned integer
        let n = read_argument(r, minor)?;
        Ipld::Integer(n as i128)
    } else if major == 1 {
        // Major type 1: a negative integer
        let n = read_argument(r, minor)?;
        Ipld::Integer(-1 - (n as i128))
    } else if major == 2 {
        // Major type 2: a byte string
        let len = read_length(r, minor)?;
        let bytes = read_bytes(r, len)?;
        Ipld::Bytes(bytes)
    } else if major == 3 {
        // Major type 3: a text string
        let len = read_length(r, minor)?;
        let text = read_str(r, len)?;
        Ipld::String(text)
    } else if major == 4 {
        // Major type 4: an array of data items
        let len = read_length(r, minor)?;
        proof {
            use_type_invariant(&*r);
        }
        let list = read_ipld_list(r, len)?;
        Ipld::List(list)
    } else if major == 5 {
        // Major type 5: a map of pairs of data items
        let len = read_length(r, minor)?;
        proof {
            use_type_invariant(&*r);
        }
        let map = read_ipld_map(r, len)?;
        Ipld::StringMap(map)
    } else if major == 6 {
        // Major type 6: a tag, of which only that of a link is known
        if minor != 24 {
            return Err(CborError::UnexpectedCode);
        }
        Ipld::Link(read_link(r)?)
    } else {
        // Major type 7: simple values and floating-point numbers
        if minor == 20 {
            Ipld::Bool(false)
        } else if minor == 21 {
            Ipld::Bool(true)
        } else if minor == 22 || minor == 23 {
            Ipld::Null
        } else if minor == 26 {
            Ipld::Float(widen_single(read_u32(r)?))
        } else if minor == 27 {
            Ipld::Float(read_u64(r)?)
        } else {
            return Err(CborError::UnexpectedCode);
        }
    };
    proof {
        lemma_view(ipld);
    }
    Ok(ipld)
}

impl ReadCbor for Ipld {
    type Model = IpldView;

    open spec fn model(&self) -> IpldView {
        self@
    }

    open spec fn parse(s: Seq<u8>) -> Parsed<IpldView> {
        parse_ipld(s)
    }

    fn read_cbor(r: &mut ByteReader) -> (res: Result<Self, CborError>) {
        read_ipld(r)
    }
}

/// A list of values of any kind decodes, as a list of one type, to what it
/// decodes to as a value.
pub proof fn lemma_list_of_values(s: Seq<u8>, count: nat, done: Seq<IpldView>)
    ensures
        parse_list::<Ipld>(s, count, done) == parse_items(s, count, done),
    decreases count,
{
    if count > 0 {
        lemma_ipld_leaves_tail(s);
        match parse_ipld(s) {
            Ok((item, rest)) => {
                lemma_list_of_values(rest, (count - 1) as nat, done.push(item));
            },
            Err(_) => {},
        }
    }
}

/// A map of values of any kind decodes, as a map of one type, to what it
/// decodes to as a value.
pub proof fn lemma_map_of_values(s: Seq<u8>, count: nat, done: Map<Seq<char>, IpldView>)
    ensures
        parse_map::<Ipld>(s, count, done) == parse_pairs(s, count, done),
    decreases count,
{
    if count > 0 {
        lemma_text_leaves_tail(s);
        match parse_text(s) {
            Ok((key, s1)) => {
                lemma_ipld_leaves_tail(s1);
                match parse_ipld(s1) {
                    Ok((value, rest)) => {
                        lemma_map_of_values(rest, (count - 1) as nat, done.insert(key, value));
                    },
                    Err(_) => {},
                }
            },
            Err(_) => {},
        }
    }
}

} // verus!
