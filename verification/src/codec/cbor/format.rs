//! The wire format, stated as functions from bytes to values.
//!
//! Each function takes the bytes at hand and gives either the value that
//! stands at their front together with the bytes after it, or the error that
//! decoding stops with.

use vstd::prelude::*;
use crate::error::CborError;
use crate::float::widen;
use crate::ipld::IpldView;
use crate::link::cid_from_bytes;
use crate::reader::be_value;
use crate::reader::spec_read_str;
use cid::Cid;

verus! {

/// A decoded value with the bytes that follow it, or an error.
pub type Parsed<T> = Result<(T, Seq<u8>), CborError>;

/// The major type of a header byte: its high three bits.
pub open spec fn major_of(b: u8) -> u8 {
    b / 32
}

/// The minor value of a header byte: its low five bits.
pub open spec fn minor_of(b: u8) -> u8 {
    b % 32
}

/// One byte.
pub open spec fn parse_byte(s: Seq<u8>) -> Parsed<u8> {
    if s.len() < 1 {
        Err(CborError::UnexpectedEof)
    } else {
        Ok((s[0], s.skip(1)))
    }
}

/// A big-endian number of `width` bytes.
pub open spec fn parse_be(s: Seq<u8>, width: nat) -> Parsed<nat> {
    if s.len() < width {
        Err(CborError::UnexpectedEof)
    } else {
        Ok((be_value(s.take(width as int)), s.skip(width as int)))
    }
}

/// The number of bytes that follow a header byte with the minor value
/// `minor` to spell its argument.
pub open spec fn width_of(minor: u8) -> nat {
    if minor == 24 {
        1
    } else if minor == 25 {
        2
    } else if minor == 26 {
        4
    } else if minor == 27 {
        8
    } else {
        0
    }
}

/// The argument of a header byte with the minor value `minor`, from the
/// bytes `s` after that byte: the minor value itself below 24, and a
/// big-endian number of 1, 2, 4 or 8 bytes for 24 to 27.
pub open spec fn parse_argument(minor: u8, s: Seq<u8>) -> Parsed<nat> {
    if minor < 24 {
        Ok((minor as nat, s))
    } else if minor <= 27 {
        parse_be(s, width_of(minor))
    } else {
        Err(CborError::UnexpectedCode)
    }
}

/// An argument that is a length: one that the host cannot address is
/// refused.
pub open spec fn parse_length(minor: u8, s: Seq<u8>) -> Parsed<nat> {
    match parse_argument(minor, s) {
        Ok((n, rest)) => if n > usize::MAX {
            Err(CborError::LengthOutOfRange)
        } else {
            Ok((n, rest))
        },
        Err(e) => Err(e),
    }
}

/// A header of the major type `major` whose minor value is at most
/// `widest`, with its argument.
pub open spec fn parse_head(s: Seq<u8>, major: u8, widest: u8) -> Parsed<nat> {
    if s.len() < 1 {
        Err(CborError::UnexpectedEof)
    } else if major_of(s[0]) != major || minor_of(s[0]) > widest {
        Err(CborError::UnexpectedCode)
    } else {
        parse_argument(minor_of(s[0]), s.skip(1))
    }
}

/// An unsigned integer whose header has a minor value of at most `widest`.
pub open spec fn parse_unsigned(s: Seq<u8>, widest: u8) -> Parsed<nat> {
    parse_head(s, 0, widest)
}

/// A negative integer whose header has a minor value of at most `widest`:
/// `-1 - m` for the magnitude `m` that the header spells, refused where it
/// is below `lowest`.
pub open spec fn parse_negative(s: Seq<u8>, widest: u8, lowest: int) -> Parsed<int> {
    match parse_head(s, 1, widest) {
        Ok((m, rest)) => if -1 - m < lowest {
            Err(CborError::LengthOutOfRange)
        } else {
            Ok((-1 - m, rest))
        },
        Err(e) => Err(e),
    }
}

/// A truth value: `0xf4` or `0xf5`.
pub open spec fn parse_bool(s: Seq<u8>) -> Parsed<bool> {
    match parse_byte(s) {
        Ok((b, rest)) => if b == 0xf4 {
            Ok((false, rest))
        } else if b == 0xf5 {
            Ok((true, rest))
        } else {
            Err(CborError::UnexpectedCode)
        },
        Err(e) => Err(e),
    }
}

/// The header of a container or string of the major type `major`: its
/// length.
pub open spec fn parse_length_head(s: Seq<u8>, major: u8) -> Parsed<nat> {
    if s.len() < 1 {
        Err(CborError::UnexpectedEof)
    } else if major_of(s[0]) != major || minor_of(s[0]) > 27 {
        Err(CborError::UnexpectedCode)
    } else {
        parse_length(minor_of(s[0]), s.skip(1))
    }
}

/// `len` raw bytes.
pub open spec fn parse_raw(s: Seq<u8>, len: nat) -> Parsed<Seq<u8>> {
    if len > s.len() {
        Err(CborError::UnexpectedEof)
    } else {
        Ok((s.take(len as int), s.skip(len as int)))
    }
}

/// A text string: a header of major type 3 and as many bytes of UTF-8 as it
/// says.
#[verifier::opaque]
pub open spec fn parse_text(s: Seq<u8>) -> Parsed<Seq<char>> {
    match parse_length_head(s, 3) {
        Ok((len, rest)) => spec_read_str(rest, len),
        Err(e) => Err(e),
    }
}

/// What follows the tag byte of a link: the tag number 42, the header byte
/// `0x58`, one byte of length and that many bytes, which spell a content
/// identifier.
pub open spec fn parse_link(s: Seq<u8>) -> Parsed<Cid> {
    match parse_byte(s) {
        Err(e) => Err(e),
        Ok((tag, s1)) => if tag != 42 {
            Err(CborError::UnknownTag)
        } else {
            match parse_byte(s1) {
                Err(e) => Err(e),
                Ok((ty, s2)) => if ty != 0x58 {
                    Err(CborError::UnknownTag)
                } else {
                    match parse_byte(s2) {
                        Err(e) => Err(e),
                        Ok((len, s3)) => match parse_raw(s3, len as nat) {
                            Err(e) => Err(e),
                            Ok((bytes, rest)) => match cid_from_bytes(bytes) {
                                Some(c) => Ok((c, rest)),
                                None => Err(CborError::InvalidCid),
                            },
                        },
                    }
                },
            }
        },
    }
}

/// A link: the tag byte `0xd8` and what [`parse_link`] reads.
pub open spec fn parse_cid(s: Seq<u8>) -> Parsed<Cid> {
    match parse_byte(s) {
        Ok((b, rest)) => if b == 0xd8 {
            parse_link(rest)
        } else {
            Err(CborError::UnexpectedCode)
        },
        Err(e) => Err(e),
    }
}

/// An absent value: `0xf6` or `0xf7`.
pub open spec fn parse_null(s: Seq<u8>) -> Parsed<()> {
    match parse_byte(s) {
        Ok((b, rest)) => if b == 0xf6 || b == 0xf7 {
            Ok(((), rest))
        } else {
            Err(CborError::UnexpectedCode)
        },
        Err(e) => Err(e),
    }
}

/// A single-precision number, as its bits: `0xfa` and four bytes.
pub open spec fn parse_single(s: Seq<u8>) -> Parsed<nat> {
    match parse_byte(s) {
        Ok((b, rest)) => if b == 0xfa {
            parse_be(rest, 4)
        } else {
            Err(CborError::UnexpectedCode)
        },
        Err(e) => Err(e),
    }
}

/// A double-precision number, as its bits: `0xfb` and eight bytes, or `0xfa`
/// and the four bytes of a single-precision number, which is widened.
pub open spec fn parse_double(s: Seq<u8>) -> Parsed<nat> {
    match parse_byte(s) {
        Ok((b, rest)) => if b == 0xfa {
            match parse_be(rest, 4) {
                Ok((bits, after)) => Ok((widen(bits as u32), after)),
                Err(e) => Err(e),
            }
        } else if b == 0xfb {
            parse_be(rest, 8)
        } else {
            Err(CborError::UnexpectedCode)
        },
        Err(e) => Err(e),
    }
}

/// A value of any kind, by the major type of its header byte.
///
/// The tests that what is left has not grown, here and in [`parse_items`]
/// and [`parse_pairs`], are there for the definitions to end; they never
/// fail, as [`lemma_ipld_leaves_tail`] shows.
pub open spec fn parse_ipld(s: Seq<u8>) -> Parsed<IpldView>
    decreases s.len(), 0nat,
{
    if s.len() < 1 {
        Err(CborError::UnexpectedEof)
    } else {
        let major = major_of(s[0]);
        let minor = minor_of(s[0]);
        let rest = s.skip(1);
        if major == 0 {
            match parse_argument(minor, rest) {
                Ok((n, after)) => Ok((IpldView::Integer(n as int), after)),
                Err(e) => Err(e),
            }
        } else if major == 1 {
            match parse_argument(minor, rest) {
                Ok((n, after)) => Ok((IpldView::Integer(-1 - n), after)),
                Err(e) => Err(e),
            }
        } else if major == 2 {
            match parse_length(minor, rest) {
                Ok((len, after)) => match parse_raw(after, len) {
                    Ok((bytes, end)) => Ok((IpldView::Bytes(bytes), end)),
                    Err(e) => Err(e),
                },
                Err(e) => Err(e),
            }
        } else if major == 3 {
            match parse_length(minor, rest) {
                Ok((len, after)) => match spec_read_str(after, len) {
                    Ok((text, end)) => Ok((IpldView::String(text), end)),
                    Err(e) => Err(e),
                },
                Err(e) => Err(e),
            }
        } else if major == 4 {
            match parse_length(minor, rest) {
                Ok((len, after)) => if after.len() < s.len() {
                    match parse_items(after, len, Seq::empty()) {
                        Ok((items, end)) => Ok((IpldView::List(items), end)),
                        Err(e) => Err(e),
                    }
                } else {
                    Err(CborError::UnexpectedEof)
                },
                Err(e) => Err(e),
            }
        } else if major == 5 {
            match parse_length(minor, rest) {
                Ok((len, after)) => if after.len() < s.len() {
                    match parse_pairs(after, len, Map::empty()) {
                        Ok((pairs, end)) => Ok((IpldView::StringMap(pairs), end)),
                        Err(e) => Err(e),
                    }
                } else {
                    Err(CborError::UnexpectedEof)
                },
                Err(e) => Err(e),
            }
        } else if major == 6 {
            if minor == 24 {
                match parse_link(rest) {
                    Ok((c, after)) => Ok((IpldView::Link(c), after)),
                    Err(e) => Err(e),
                }
            } else {
                Err(CborError::UnexpectedCode)
            }
        } else {
            if minor == 20 {
                Ok((IpldView::Bool(false), rest))
            } else if minor == 21 {
                Ok((IpldView::Bool(true), rest))
            } else if minor == 22 || minor == 23 {
                Ok((IpldView::Null, rest))
            } else if minor == 26 {
                match parse_be(rest, 4) {
                    Ok((bits, after)) => Ok((IpldView::Float(widen(bits as u32) as u64), after)),
                    Err(e) => Err(e),
                }
            } else if minor == 27 {
                match parse_be(rest, 8) {
                    Ok((bits, after)) => Ok((IpldView::Float(bits as u64), after)),
                    Err(e) => Err(e),
                }
            } else {
                Err(CborError::UnexpectedCode)
            }
        }
    }
}

/// `count` values one after another, appended to `done`.
pub open spec fn parse_items(s: Seq<u8>, count: nat, done: Seq<IpldView>) -> Parsed<Seq<IpldView>>
    decreases s.len(), 1 + count,
{
    if count == 0 {
        Ok((done, s))
    } else {
        match parse_ipld(s) {
            Err(e) => Err(e),
            Ok((item, rest)) => if rest.len() <= s.len() {
                parse_items(rest, (count - 1) as nat, done.push(item))
            } else {
                Err(CborError::UnexpectedEof)
            },
        }
    }
}

/// `count` pairs of a text key and a value one after another, put into
/// `done`; a key that comes again takes the place of the earlier one.
pub open spec fn parse_pairs(s: Seq<u8>, count: nat, done: Map<Seq<char>, IpldView>) -> Parsed<
    Map<Seq<char>, IpldView>,
>
    decreases s.len(), 1 + count,
{
    if count == 0 {
        Ok((done, s))
    } else {
        match parse_text(s) {
            Err(e) => Err(e),
            Ok((key, s1)) => if s1.len() <= s.len() {
                match parse_ipld(s1) {
                    Err(e) => Err(e),
                    Ok((value, rest)) => if rest.len() <= s.len() {
                        parse_pairs(rest, (count - 1) as nat, done.insert(key, value))
                    } else {
                        Err(CborError::UnexpectedEof)
                    },
                }
            } else {
                Err(CborError::UnexpectedEof)
            },
        }
    }
}


/// The `width` bytes that spell `n` in base 256, most significant byte
/// first.
pub open spec fn be_bytes(n: nat, width: nat) -> Seq<u8>
    decreases width,
{
    if width == 0 {
        Seq::empty()
    } else {
        be_bytes(n / 256, (width - 1) as nat).push((n % 256) as u8)
    }
}

/// The least number that `width` bytes cannot spell: `256^width`.
pub open spec fn be_limit(width: nat) -> nat
    decreases width,
{
    if width == 0 {
        1
    } else {
        256 * be_limit((width - 1) as nat)
    }
}

/// The bytes of a number below the limit of their width spell that number.
pub proof fn lemma_be_bytes_value(n: nat, width: nat)
    requires
        n < be_limit(width),
    ensures
        be_bytes(n, width).len() == width,
        be_value(be_bytes(n, width)) == n,
    decreases width,
{
    if width > 0 {
        let front = be_bytes(n / 256, (width - 1) as nat);
        lemma_be_bytes_value(n / 256, (width - 1) as nat);
        assert(be_bytes(n, width).drop_last() =~= front);
    }
}

/// The limits of the widths that headers use.
pub proof fn lemma_be_limits()
    ensures
        be_limit(0) == 1,
        be_limit(1) == 0x100,
        be_limit(2) == 0x1_0000,
        be_limit(4) == 0x1_0000_0000,
        be_limit(8) == 0x1_0000_0000_0000_0000,
{
    reveal_with_fuel(be_limit, 9);
}

/// The width in bytes of the argument in the tier `tier`: none in tier 0,
/// where the header byte itself holds the argument, then 1, 2, 4 and 8.
pub open spec fn tier_width(tier: nat) -> nat {
    if tier == 0 {
        0
    } else if tier == 1 {
        1
    } else if tier == 2 {
        2
    } else if tier == 3 {
        4
    } else {
        8
    }
}

/// Whether the tier `tier` can hold the argument `n`.
pub open spec fn fits_tier(n: nat, tier: nat) -> bool {
    &&& tier <= 4
    &&& tier == 0 ==> n < 24
    &&& tier > 0 ==> n < be_limit(tier_width(tier))
}

/// The header of the major type `major` that holds the argument `n` in the
/// tier `tier`.
pub open spec fn head_bytes(major: u8, tier: nat, n: nat) -> Seq<u8> {
    let minor = if tier == 0 {
        n
    } else {
        23 + tier
    };
    seq![(major * 32 + minor) as u8] + be_bytes(n, tier_width(tier))
}

/// Whichever tier a header holds its argument in, reading it gives the same
/// argument, and leaves what follows the header.
pub proof fn lemma_head_any_tier(major: u8, tier: nat, n: nat, rest: Seq<u8>)
    requires
        major < 8,
        fits_tier(n, tier),
    ensures
        (head_bytes(major, tier, n) + rest).len() >= 1,
        major_of((head_bytes(major, tier, n) + rest)[0]) == major,
        minor_of((head_bytes(major, tier, n) + rest)[0]) <= 27,
        tier == 0 ==> minor_of((head_bytes(major, tier, n) + rest)[0]) == n,
        tier > 0 ==> minor_of((head_bytes(major, tier, n) + rest)[0]) == 23 + tier,
        parse_argument(
            minor_of((head_bytes(major, tier, n) + rest)[0]),
            (head_bytes(major, tier, n) + rest).skip(1),
        ) == Ok::<(nat, Seq<u8>), CborError>((n, rest)),
        parse_head(head_bytes(major, tier, n) + rest, major, 27) == Ok::<
            (nat, Seq<u8>),
            CborError,
        >((n, rest)),
{
    let width = tier_width(tier);
    let all = head_bytes(major, tier, n) + rest;
    let after = all.skip(1);
    lemma_be_limits();
    if tier > 0 {
        lemma_be_bytes_value(n, width);
    }
    assert(after =~= be_bytes(n, width) + rest);
    assert(after.take(width as int) =~= be_bytes(n, width));
    assert(after.skip(width as int) =~= rest);
    if tier == 0 {
        assert(be_bytes(n, 0) =~= Seq::<u8>::empty());
        assert(after =~= rest);
    }
}

/// What the value behind a header of the major type `major` with the
/// argument `n` decodes to, given the bytes `tail` after the header: an
/// integer for the major types 0 and 1, and for the others what `n` bytes, or
/// `n` items or pairs, of `tail` hold. The tier of the header makes no
/// difference.
pub proof fn lemma_parse_by_head(major: u8, tier: nat, n: nat, tail: Seq<u8>)
    requires
        major <= 5,
        fits_tier(n, tier),
        major >= 2 ==> n <= usize::MAX,
    ensures
        major == 0 ==> parse_ipld(head_bytes(major, tier, n) + tail) == Ok::<
            (IpldView, Seq<u8>),
            CborError,
        >((IpldView::Integer(n as int), tail)),
        major == 1 ==> parse_ipld(head_bytes(major, tier, n) + tail) == Ok::<
            (IpldView, Seq<u8>),
            CborError,
        >((IpldView::Integer(-1 - n), tail)),
        major == 2 ==> parse_ipld(head_bytes(major, tier, n) + tail) == match parse_raw(tail, n) {
            Ok((bytes, end)) => Ok::<(IpldView, Seq<u8>), CborError>((IpldView::Bytes(bytes), end)),
            Err(e) => Err(e),
        },
        major == 3 ==> parse_ipld(head_bytes(major, tier, n) + tail) == match spec_read_str(
            tail,
            n,
        ) {
            Ok((text, end)) => Ok::<(IpldView, Seq<u8>), CborError>((IpldView::String(text), end)),
            Err(e) => Err(e),
        },
        major == 4 ==> parse_ipld(head_bytes(major, tier, n) + tail) == match parse_items(
            tail,
            n,
            Seq::empty(),
        ) {
            Ok((items, end)) => Ok::<(IpldView, Seq<u8>), CborError>((IpldView::List(items), end)),
            Err(e) => Err(e),
        },
        major == 5 ==> parse_ipld(head_bytes(major, tier, n) + tail) == match parse_pairs(
            tail,
            n,
            Map::empty(),
        ) {
            Ok((pairs, end)) => Ok::<(IpldView, Seq<u8>), CborError>(
                (IpldView::StringMap(pairs), end),
            ),
            Err(e) => Err(e),
        },
{
    lemma_head_any_tier(major, tier, n, tail);
}

/// An unsigned integer decodes to the same number from every tier that can
/// hold it, and a negative one likewise.
pub proof fn lemma_integer_any_tier(tier: nat, n: nat, rest: Seq<u8>)
    requires
        fits_tier(n, tier),
    ensures
        parse_ipld(head_bytes(0, tier, n) + rest) == Ok::<(IpldView, Seq<u8>), CborError>(
            (IpldView::Integer(n as int), rest),
        ),
        parse_ipld(head_bytes(1, tier, n) + rest) == Ok::<(IpldView, Seq<u8>), CborError>(
            (IpldView::Integer(-1 - n), rest),
        ),
{
    lemma_parse_by_head(0, tier, n, rest);
    lemma_parse_by_head(1, tier, n, rest);
}

/// A length decodes to the same number from every tier that can hold it.
pub proof fn lemma_length_any_tier(major: u8, tier: nat, n: nat, rest: Seq<u8>)
    requires
        major < 8,
        fits_tier(n, tier),
        n <= usize::MAX,
    ensures
        parse_length_head(head_bytes(major, tier, n) + rest, major) == Ok::<
            (nat, Seq<u8>),
            CborError,
        >((n, rest)),
{
    lemma_head_any_tier(major, tier, n, rest);
}


/// `rest` is what is left of `s` after some bytes at its front.
pub open spec fn is_tail(rest: Seq<u8>, s: Seq<u8>) -> bool {
    rest.len() <= s.len() && rest == s.skip(s.len() - rest.len())
}

/// What is left of what is left of `s` is left of `s`.
pub proof fn lemma_tail_of_tail(last: Seq<u8>, mid: Seq<u8>, s: Seq<u8>)
    requires
        is_tail(last, mid),
        is_tail(mid, s),
    ensures
        is_tail(last, s),
{
    assert(s.skip(s.len() - mid.len()).skip(mid.len() - last.len()) =~= s.skip(
        s.len() - last.len(),
    ));
}

/// Reading an argument leaves a tail of the bytes.
pub proof fn lemma_argument_leaves_tail(minor: u8, s: Seq<u8>)
    ensures
        parse_argument(minor, s) matches Ok((_, rest)) ==> is_tail(rest, s),
        parse_length(minor, s) matches Ok((_, rest)) ==> is_tail(rest, s),
{
    assert(s.skip(0) =~= s);
}

/// Reading a text of a given length leaves a tail of the bytes.
pub proof fn lemma_str_leaves_tail(s: Seq<u8>, len: nat)
    ensures
        spec_read_str(s, len) matches Ok((_, rest)) ==> is_tail(rest, s),
        parse_raw(s, len) matches Ok((_, rest)) ==> is_tail(rest, s),
{
    reveal(spec_read_str);
}

/// Reading a text leaves a tail of the bytes, shorter than they are.
pub proof fn lemma_text_leaves_tail(s: Seq<u8>)
    ensures
        parse_text(s) matches Ok((_, rest)) ==> is_tail(rest, s) && rest.len() < s.len(),
{
    reveal(parse_text);
    if s.len() >= 1 {
        let s1 = s.skip(1);
        assert(is_tail(s1, s));
        lemma_argument_leaves_tail(minor_of(s[0]), s1);
        match parse_length(minor_of(s[0]), s1) {
            Ok((len, after)) => {
                lemma_str_leaves_tail(after, len);
                match spec_read_str(after, len) {
                    Ok((_, rest)) => {
                        lemma_tail_of_tail(after, s1, s);
                        lemma_tail_of_tail(rest, after, s);
                    },
                    Err(_) => {},
                }
            },
            Err(_) => {},
        }
    }
}

/// Reading what follows the tag byte of a link leaves a tail of the bytes.
pub proof fn lemma_link_leaves_tail(s: Seq<u8>)
    ensures
        parse_link(s) matches Ok((_, rest)) ==> is_tail(rest, s),
{
    if parse_link(s) is Ok {
        let s1 = s.skip(1);
        let s2 = s1.skip(1);
        let s3 = s2.skip(1);
        let len = s2[0] as nat;
        let rest = s3.skip(len as int);
        assert(rest =~= s.skip(s.len() - rest.len()));
    }
}

/// Decoding a value takes at least one byte and leaves a tail of the bytes:
/// the tests on lengths in [`parse_ipld`], [`parse_items`] and
/// [`parse_pairs`] never fail.
pub proof fn lemma_ipld_leaves_tail(s: Seq<u8>)
    ensures
        parse_ipld(s) matches Ok((_, rest)) ==> is_tail(rest, s) && rest.len() < s.len(),
    decreases s.len(), 0nat,
{
    if s.len() >= 1 {
        let major = major_of(s[0]);
        let minor = minor_of(s[0]);
        let s1 = s.skip(1);
        assert(is_tail(s1, s));
        lemma_argument_leaves_tail(minor, s1);
        if major <= 1 {
            match parse_argument(minor, s1) {
                Ok((_, after)) => {
                    lemma_tail_of_tail(after, s1, s);
                },
                Err(_) => {},
            }
        } else if major <= 5 {
            match parse_length(minor, s1) {
                Ok((len, after)) => {
                    lemma_tail_of_tail(after, s1, s);
                    lemma_str_leaves_tail(after, len);
                    if major == 2 {
                        match parse_raw(after, len) {
                            Ok((_, rest)) => {
                                lemma_tail_of_tail(rest, after, s);
                            },
                            Err(_) => {},
                        }
                    } else if major == 3 {
                        match spec_read_str(after, len) {
                            Ok((_, rest)) => {
                                lemma_tail_of_tail(rest, after, s);
                            },
                            Err(_) => {},
                        }
                    } else if major == 4 {
                        lemma_items_leave_tail(after, len, Seq::empty());
                        match parse_items(after, len, Seq::empty()) {
                            Ok((_, rest)) => {
                                lemma_tail_of_tail(rest, after, s);
                            },
                            Err(_) => {},
                        }
                    } else {
                        lemma_pairs_leave_tail(after, len, Map::empty());
                        match parse_pairs(after, len, Map::empty()) {
                            Ok((_, rest)) => {
                                lemma_tail_of_tail(rest, after, s);
                            },
                            Err(_) => {},
                        }
                    }
                },
                Err(_) => {},
            }
        } else if major == 6 {
            lemma_link_leaves_tail(s1);
            match parse_link(s1) {
                Ok((_, rest)) => {
                    lemma_tail_of_tail(rest, s1, s);
                },
                Err(_) => {},
            }
        } else {
            if minor == 26 {
                match parse_be(s1, 4) {
                    Ok((_, rest)) => {
                        lemma_tail_of_tail(rest, s1, s);
                    },
                    Err(_) => {},
                }
            } else if minor == 27 {
                match parse_be(s1, 8) {
                    Ok((_, rest)) => {
                        lemma_tail_of_tail(rest, s1, s);
                    },
                    Err(_) => {},
                }
            }
        }
    }
}

/// Decoding items one after another leaves a tail of the bytes.
pub proof fn lemma_items_leave_tail(s: Seq<u8>, count: nat, done: Seq<IpldView>)
    ensures
        parse_items(s, count, done) matches Ok((_, rest)) ==> is_tail(rest, s),
    decreases s.len(), 1 + count,
{
    if count == 0 {
        assert(s.skip(0) =~= s);
    } else {
        lemma_ipld_leaves_tail(s);
        match parse_ipld(s) {
            Ok((item, after)) => {
                lemma_items_leave_tail(after, (count - 1) as nat, done.push(item));
                match parse_items(after, (count - 1) as nat, done.push(item)) {
                    Ok((_, rest)) => {
                        lemma_tail_of_tail(rest, after, s);
                    },
                    Err(_) => {},
                }
            },
            Err(_) => {},
        }
    }
}

/// Decoding pairs one after another leaves a tail of the bytes.
pub proof fn lemma_pairs_leave_tail(s: Seq<u8>, count: nat, done: Map<Seq<char>, IpldView>)
    ensures
        parse_pairs(s, count, done) matches Ok((_, rest)) ==> is_tail(rest, s),
    decreases s.len(), 1 + count,
{
    if count == 0 {
        assert(s.skip(0) =~= s);
    } else {
        lemma_text_leaves_tail(s);
        match parse_text(s) {
            Ok((key, s1)) => {
                lemma_ipld_leaves_tail(s1);
                match parse_ipld(s1) {
                    Ok((value, after)) => {
                        lemma_tail_of_tail(after, s1, s);
                        lemma_pairs_leave_tail(after, (count - 1) as nat, done.insert(key, value));
                        match parse_pairs(after, (count - 1) as nat, done.insert(key, value)) {
                            Ok((_, rest)) => {
                                lemma_tail_of_tail(rest, after, s);
                            },
                            Err(_) => {},
                        }
                    },
                    Err(_) => {},
                }
            },
            Err(_) => {},
        }
    }
}


/// The bytes at the front of `s` that are gone when `rest` is left.
pub open spec fn front(s: Seq<u8>, rest: Seq<u8>) -> Seq<u8> {
    s.take(s.len() - rest.len())
}

/// What two reads in a row take is what the first takes and then what the
/// second takes.
pub proof fn lemma_front_of_front(last: Seq<u8>, mid: Seq<u8>, s: Seq<u8>)
    requires
        is_tail(last, mid),
        is_tail(mid, s),
    ensures
        is_tail(last, s),
        front(s, last) == front(s, mid) + front(mid, last),
        s == front(s, mid) + mid,
{
    lemma_tail_of_tail(last, mid, s);
    assert(front(s, last) =~= front(s, mid) + front(mid, last));
    assert(s =~= front(s, mid) + mid);
}

/// An argument is read from its own bytes alone.
pub proof fn lemma_argument_reads_its_bytes(minor: u8, s: Seq<u8>, t: Seq<u8>)
    ensures
        parse_argument(minor, s) matches Ok((n, rest)) ==> parse_argument(
            minor,
            front(s, rest) + t,
        ) == Ok::<(nat, Seq<u8>), CborError>((n, t)),
        parse_length(minor, s) matches Ok((n, rest)) ==> parse_length(minor, front(s, rest) + t)
            == Ok::<(nat, Seq<u8>), CborError>((n, t)),
{
    match parse_argument(minor, s) {
        Ok((n, rest)) => {
            let w = s.len() - rest.len();
            let fresh = front(s, rest) + t;
            if minor < 24 {
                assert(fresh =~= t);
            } else {
                assert(fresh.take(w) =~= s.take(w));
                assert(fresh.skip(w) =~= t);
            }
        },
        Err(_) => {},
    }
}

/// Raw bytes and a text of a given length are read from their own bytes
/// alone.
pub proof fn lemma_str_reads_its_bytes(s: Seq<u8>, len: nat, t: Seq<u8>)
    ensures
        parse_raw(s, len) matches Ok((bytes, rest)) ==> parse_raw(front(s, rest) + t, len) == Ok::<
            (Seq<u8>, Seq<u8>),
            CborError,
        >((bytes, t)),
        spec_read_str(s, len) matches Ok((text, rest)) ==> spec_read_str(front(s, rest) + t, len)
            == Ok::<(Seq<char>, Seq<u8>), CborError>((text, t)),
{
    reveal(spec_read_str);
    if len <= s.len() {
        let fresh = s.take(len as int) + t;
        assert(fresh.take(len as int) =~= s.take(len as int));
        assert(fresh.skip(len as int) =~= t);
    }
}

/// A text is read from its own bytes alone.
pub proof fn lemma_text_reads_its_bytes(s: Seq<u8>, t: Seq<u8>)
    ensures
        parse_text(s) matches Ok((text, rest)) ==> parse_text(front(s, rest) + t) == Ok::<
            (Seq<char>, Seq<u8>),
            CborError,
        >((text, t)),
{
    reveal(parse_text);
    match parse_text(s) {
        Ok((text, rest)) => {
            let s1 = s.skip(1);
            let minor = minor_of(s[0]);
            assert(is_tail(s1, s));
            lemma_argument_leaves_tail(minor, s1);
            match parse_length(minor, s1) {
                Ok((len, after)) => {
                    lemma_str_leaves_tail(after, len);
                    lemma_front_of_front(after, s1, s);
                    lemma_front_of_front(rest, after, s);
                    lemma_front_of_front(rest, after, s1);
                    let body = front(after, rest) + t;
                    lemma_argument_reads_its_bytes(minor, s1, body);
                    lemma_str_reads_its_bytes(after, len, t);
                    let fresh = front(s, rest) + t;
                    assert(fresh[0] == s[0]);
                    assert(fresh.skip(1) =~= front(s1, after) + body);
                },
                Err(_) => {},
            }
        },
        Err(_) => {},
    }
}

/// What follows the tag byte of a link is read from its own bytes alone.
pub proof fn lemma_link_reads_its_bytes(s: Seq<u8>, t: Seq<u8>)
    ensures
        parse_link(s) matches Ok((c, rest)) ==> parse_link(front(s, rest) + t) == Ok::<
            (Cid, Seq<u8>),
            CborError,
        >((c, t)),
{
    match parse_link(s) {
        Ok((c, rest)) => {
            let len = s[2] as nat;
            let fresh = front(s, rest) + t;
            let s3 = s.skip(1).skip(1).skip(1);
            let f3 = fresh.skip(1).skip(1).skip(1);
            assert(rest == s3.skip(len as int));
            assert(fresh[0] == s[0] && fresh[1] == s[1] && fresh[2] == s[2]);
            assert(f3.take(len as int) =~= s3.take(len as int));
            assert(f3.skip(len as int) =~= t);
        },
        Err(_) => {},
    }
}

/// An integer, a link, a truth value, the absent value or a floating-point
/// number is decoded from its own bytes alone.
pub proof fn lemma_scalar_reads_its_bytes(s: Seq<u8>, t: Seq<u8>)
    requires
        s.len() >= 1,
        major_of(s[0]) <= 1 || major_of(s[0]) >= 6,
    ensures
        parse_ipld(s) matches Ok((v, rest)) ==> parse_ipld(front(s, rest) + t) == Ok::<
            (IpldView, Seq<u8>),
            CborError,
        >((v, t)),
{
    match parse_ipld(s) {
        Ok((v, rest)) => {
            let major = major_of(s[0]);
            let minor = minor_of(s[0]);
            let s1 = s.skip(1);
            let fresh = front(s, rest) + t;
            lemma_ipld_leaves_tail(s);
            assert(fresh[0] == s[0]);
            if major <= 1 {
                lemma_argument_leaves_tail(minor, s1);
                lemma_argument_reads_its_bytes(minor, s1, t);
                assert(fresh.skip(1) =~= front(s1, rest) + t);
            } else if major == 6 {
                lemma_link_leaves_tail(s1);
                lemma_link_reads_its_bytes(s1, t);
                assert(fresh.skip(1) =~= front(s1, rest) + t);
            } else {
                if minor == 26 || minor == 27 {
                    let w = width_of(minor);
                    assert(fresh.skip(1) =~= s1.take(w as int) + t);
                    assert(fresh.skip(1).take(w as int) =~= s1.take(w as int));
                    assert(fresh.skip(1).skip(w as int) =~= t);
                } else {
                    assert(fresh.skip(1) =~= t);
                }
            }
        },
        Err(_) => {},
    }
}

/// What a value with a length decodes to, from the length and what is
/// behind it.
pub open spec fn parse_body(major: u8, len: nat, after: Seq<u8>) -> Parsed<IpldView> {
    if major == 2 {
        match parse_raw(after, len) {
            Ok((bytes, end)) => Ok((IpldView::Bytes(bytes), end)),
            Err(e) => Err(e),
        }
    } else if major == 3 {
        match spec_read_str(after, len) {
            Ok((text, end)) => Ok((IpldView::String(text), end)),
            Err(e) => Err(e),
        }
    } else if major == 4 {
        match parse_items(after, len, Seq::empty()) {
            Ok((items, end)) => Ok((IpldView::List(items), end)),
            Err(e) => Err(e),
        }
    } else {
        match parse_pairs(after, len, Map::empty()) {
            Ok((pairs, end)) => Ok((IpldView::StringMap(pairs), end)),
            Err(e) => Err(e),
        }
    }
}

/// A byte string, a text, a list or a map decodes to what its length and
/// the bytes behind the length give.
pub proof fn lemma_parse_by_length(s: Seq<u8>)
    requires
        s.len() >= 1,
        2 <= major_of(s[0]) <= 5,
    ensures
        parse_ipld(s) == match parse_length(minor_of(s[0]), s.skip(1)) {
            Ok((len, after)) => parse_body(major_of(s[0]), len, after),
            Err(e) => Err(e),
        },
{
    lemma_argument_leaves_tail(minor_of(s[0]), s.skip(1));
}

/// A byte string, a text, a list or a map is decoded from its own bytes
/// alone, if what is behind its length is.
pub proof fn lemma_lengthy_reads_its_bytes(s: Seq<u8>, t: Seq<u8>)
    requires
        s.len() >= 1,
        2 <= major_of(s[0]) <= 5,
        parse_length(minor_of(s[0]), s.skip(1)) matches Ok((len, after)) ==> (parse_body(
            major_of(s[0]),
            len,
            after,
        ) matches Ok((v, rest)) ==> is_tail(rest, after) && parse_body(
            major_of(s[0]),
            len,
            front(after, rest) + t,
        ) == Ok::<(IpldView, Seq<u8>), CborError>((v, t))),
    ensures
        parse_ipld(s) matches Ok((v, rest)) ==> parse_ipld(front(s, rest) + t) == Ok::<
            (IpldView, Seq<u8>),
            CborError,
        >((v, t)),
{
    lemma_parse_by_length(s);
    let minor = minor_of(s[0]);
    let s1 = s.skip(1);
    match parse_length(minor, s1) {
        Ok((len, after)) => {
            match parse_body(major_of(s[0]), len, after) {
                Ok((v, rest)) => {
                    assert(is_tail(s1, s));
                    lemma_argument_leaves_tail(minor, s1);
                    lemma_front_of_front(after, s1, s);
                    lemma_front_of_front(rest, after, s);
                    lemma_front_of_front(rest, after, s1);
                    let body = front(after, rest) + t;
                    let fresh = front(s, rest) + t;
                    lemma_argument_reads_its_bytes(minor, s1, body);
                    assert(fresh[0] == s[0]);
                    assert(fresh.skip(1) =~= front(s1, after) + body);
                    lemma_parse_by_length(fresh);
                },
                Err(_) => {},
            }
        },
        Err(_) => {},
    }
}

/// A value is decoded from its own bytes alone: with other bytes behind
/// them, the bytes that a value was decoded from give the same value and
/// leave those other bytes.
pub proof fn lemma_ipld_reads_its_bytes(s: Seq<u8>, t: Seq<u8>)
    ensures
        parse_ipld(s) matches Ok((v, rest)) ==> parse_ipld(front(s, rest) + t) == Ok::<
            (IpldView, Seq<u8>),
            CborError,
        >((v, t)),
    decreases s.len(), 0nat,
{
    if s.len() >= 1 {
        let major = major_of(s[0]);
        if major <= 1 || major >= 6 {
            lemma_scalar_reads_its_bytes(s, t);
        } else {
            let s1 = s.skip(1);
            lemma_argument_leaves_tail(minor_of(s[0]), s1);
            match parse_length(minor_of(s[0]), s1) {
                Ok((len, after)) => {
                    if major == 2 || major == 3 {
                        lemma_str_leaves_tail(after, len);
                        lemma_str_reads_its_bytes(after, len, t);
                    } else if major == 4 {
                        lemma_items_leave_tail(after, len, Seq::empty());
                        lemma_items_read_their_bytes(after, len, Seq::empty(), t);
                    } else {
                        lemma_pairs_leave_tail(after, len, Map::empty());
                        lemma_pairs_read_their_bytes(after, len, Map::empty(), t);
                    }
                },
                Err(_) => {},
            }
            lemma_lengthy_reads_its_bytes(s, t);
        }
    }
}

/// Items one after another are decoded from their own bytes alone.
pub proof fn lemma_items_read_their_bytes(
    s: Seq<u8>,
    count: nat,
    done: Seq<IpldView>,
    t: Seq<u8>,
)
    ensures
        parse_items(s, count, done) matches Ok((items, rest)) ==> parse_items(
            front(s, rest) + t,
            count,
            done,
        ) == Ok::<(Seq<IpldView>, Seq<u8>), CborError>((items, t)),
    decreases s.len(), 1 + count,
{
    match parse_items(s, count, done) {
        Ok((items, rest)) => {
            if count == 0 {
                assert(front(s, rest) + t =~= t);
            } else {
                lemma_ipld_leaves_tail(s);
                match parse_ipld(s) {
                    Ok((item, after)) => {
                        lemma_items_leave_tail(after, (count - 1) as nat, done.push(item));
                        lemma_front_of_front(rest, after, s);
                        let body = front(after, rest) + t;
                        lemma_ipld_reads_its_bytes(s, body);
                        lemma_items_read_their_bytes(
                            after,
                            (count - 1) as nat,
                            done.push(item),
                            t,
                        );
                        assert(front(s, rest) + t =~= front(s, after) + body);
                    },
                    Err(_) => {},
                }
            }
        },
        Err(_) => {},
    }
}

/// One pair at the front of pairs is a text and a value, and the other
/// pairs follow.
pub proof fn lemma_pairs_by_pair(s: Seq<u8>, count: nat, done: Map<Seq<char>, IpldView>)
    requires
        count > 0,
    ensures
        parse_pairs(s, count, done) == match parse_text(s) {
            Err(e) => Err(e),
            Ok((key, s1)) => match parse_ipld(s1) {
                Err(e) => Err(e),
                Ok((value, after)) => parse_pairs(
                    after,
                    (count - 1) as nat,
                    done.insert(key, value),
                ),
            },
        },
{
    lemma_text_leaves_tail(s);
    match parse_text(s) {
        Ok((key, s1)) => {
            lemma_ipld_leaves_tail(s1);
        },
        Err(_) => {},
    }
}

/// Pairs one after another are decoded from their own bytes alone.
pub proof fn lemma_pairs_read_their_bytes(
    s: Seq<u8>,
    count: nat,
    done: Map<Seq<char>, IpldView>,
    t: Seq<u8>,
)
    ensures
        parse_pairs(s, count, done) matches Ok((pairs, rest)) ==> parse_pairs(
            front(s, rest) + t,
            count,
            done,
        ) == Ok::<(Map<Seq<char>, IpldView>, Seq<u8>), CborError>((pairs, t)),
    decreases s.len(), 1 + count,
{
    match parse_pairs(s, count, done) {
        Ok((pairs, rest)) => {
            if count == 0 {
                assert(front(s, rest) + t =~= t);
            } else {
                lemma_pairs_by_pair(s, count, done);
                lemma_text_leaves_tail(s);
                match parse_text(s) {
                    Ok((key, s1)) => {
                        lemma_ipld_leaves_tail(s1);
                        match parse_ipld(s1) {
                            Ok((value, after)) => {
                                let more = done.insert(key, value);
                                lemma_pairs_leave_tail(after, (count - 1) as nat, more);
                                lemma_front_of_front(rest, after, s1);
                                lemma_front_of_front(rest, s1, s);
                                let body = front(after, rest) + t;
                                let most = front(s1, rest) + t;
                                let fresh = front(s, rest) + t;
                                lemma_text_reads_its_bytes(s, most);
                                lemma_ipld_reads_its_bytes(s1, body);
                                lemma_pairs_read_their_bytes(after, (count - 1) as nat, more, t);
                                assert(fresh =~= front(s, s1) + most);
                                assert(most =~= front(s1, after) + body);
                                lemma_pairs_by_pair(fresh, count, done);
                            },
                            Err(_) => {},
                        }
                    },
                    Err(_) => {},
                }
            }
        },
        Err(_) => {},
    }
}

} // verus!
