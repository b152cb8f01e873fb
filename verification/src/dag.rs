//! Lookups along a path through a graph of linked blocks.

use vstd::prelude::*;
use cid::Cid;
use crate::codec::cbor::decode::read_ipld;
use crate::codec::cbor::encode::encodable;
use crate::codec::cbor::encode::encode;
use crate::codec::cbor::encode::encoding;
use crate::codec::cbor::encode::obstacle_in;
use crate::codec::cbor::encode::EncodeError;
use crate::codec::cbor::format::parse_ipld;
use crate::error::CborError;
use crate::ipld::lemma_view;
use crate::ipld::Ipld;
use crate::ipld::IpldView;
use crate::path::index_of_text;
use crate::path::parse_index;
use crate::path::Path;
use crate::reader::ByteReader;
use crate::store::IpldStore;

verus! {

/// Why a path cannot be followed through a value.
#[derive(Debug, PartialEq)]
pub enum PathError {
    /// The value is neither a list nor a map, so it has nothing to index.
    NotIndexable(Ipld),
    /// A segment that indexes a list is not a number.
    InvalidIndex,
    /// A segment that indexes a list names a place beyond its end.
    IndexOutOfRange,
}

/// Why a lookup failed.
#[derive(Debug, PartialEq)]
pub enum DagError<E> {
    /// The store failed to hand out a block.
    Store(E),
    /// A block does not decode.
    Block(CborError),
    /// The path does not fit the values along it.
    Path(PathError),
    /// A value cannot be written as a block.
    Encode(EncodeError),
}

/// Why a lookup in a given set of blocks fails.
pub enum Failure {
    /// No block is held under the identifier.
    Missing(Cid),
    /// A block does not decode.
    Block(CborError),
    /// The value is neither a list nor a map.
    NotIndexable(IpldView),
    /// A segment that indexes a list is not a number.
    InvalidIndex,
    /// A segment that indexes a list names a place beyond its end.
    IndexOutOfRange,
}

impl View for PathError {
    type V = Failure;

    open spec fn view(&self) -> Failure {
        match self {
            PathError::NotIndexable(v) => Failure::NotIndexable(v@),
            PathError::InvalidIndex => Failure::InvalidIndex,
            PathError::IndexOutOfRange => Failure::IndexOutOfRange,
        }
    }
}

impl<E> DagError<E> {
    /// Whether the error `self` is the one that a lookup with the failure
    /// `f` reports. A failure of the store itself says nothing of the blocks.
    pub open spec fn reports(&self, f: Failure) -> bool {
        match self {
            DagError::Store(_) => true,
            DagError::Block(e) => f == Failure::Block(*e),
            DagError::Path(e) => f == e@,
            DagError::Encode(_) => false,
        }
    }
}

/// The child of `value` that `segment` names: of a list the item at the
/// index that the segment spells, of a map the value under the segment as a
/// key, or nothing where the map has no such key.
pub open spec fn child_of(value: IpldView, segment: Seq<char>) -> Result<Option<IpldView>, Failure> {
    match value {
        IpldView::List(items) => match index_of_text(segment) {
            None => Err(Failure::InvalidIndex),
            Some(i) => if i < items.len() {
                Ok(Some(items[i as int]))
            } else {
                Err(Failure::IndexOutOfRange)
            },
        },
        IpldView::StringMap(pairs) => if pairs.contains_key(segment) {
            Ok(Some(pairs[segment]))
        } else {
            Ok(None)
        },
        _ => Err(Failure::NotIndexable(value)),
    }
}

/// How far a path leads within one block.
pub enum Reach {
    /// To this value, at the end of the path.
    Found(IpldView),
    /// To a map that lacks the key.
    NotFound,
    /// To a link, with these segments still to follow in the block that it
    /// refers to.
    Follow(Cid, Seq<Seq<char>>),
}

/// Follows `path` from `value` for as long as it stays within the block.
pub open spec fn walk(value: IpldView, path: Seq<Seq<char>>) -> Result<Reach, Failure>
    decreases path.len(),
{
    if path.len() == 0 {
        Ok(Reach::Found(value))
    } else {
        match child_of(value, path[0]) {
            Err(f) => Err(f),
            Ok(None) => Ok(Reach::NotFound),
            Ok(Some(IpldView::Link(c))) => Ok(Reach::Follow(c, path.skip(1))),
            Ok(Some(child)) => walk(child, path.skip(1)),
        }
    }
}

/// The value that the block under `cid` decodes to.
pub open spec fn load(blocks: Map<Cid, Seq<u8>>, cid: Cid) -> Result<IpldView, Failure> {
    if !blocks.contains_key(cid) {
        Err(Failure::Missing(cid))
    } else {
        match parse_ipld(blocks[cid]) {
            Ok((value, _)) => Ok(value),
            Err(e) => Err(Failure::Block(e)),
        }
    }
}

/// The value that `path` leads to from `value`: segment by segment to the
/// child that the segment names, and from a child that is a link on to the
/// value of the block that it refers to. Nothing where a map on the way lacks
/// the key.
pub open spec fn follow(blocks: Map<Cid, Seq<u8>>, value: IpldView, path: Seq<Seq<char>>) -> Result<
    Option<IpldView>,
    Failure,
>
    decreases path.len(),
{
    if path.len() == 0 {
        Ok(Some(value))
    } else {
        match child_of(value, path[0]) {
            Err(f) => Err(f),
            Ok(None) => Ok(None),
            Ok(Some(IpldView::Link(c))) => match load(blocks, c) {
                Err(f) => Err(f),
                Ok(next) => follow(blocks, next, path.skip(1)),
            },
            Ok(Some(child)) => follow(blocks, child, path.skip(1)),
        }
    }
}

/// The value that `path` leads to from the block under `root`.
pub open spec fn lookup(blocks: Map<Cid, Seq<u8>>, root: Cid, path: Seq<Seq<char>>) -> Result<
    Option<IpldView>,
    Failure,
> {
    match load(blocks, root) {
        Err(f) => Err(f),
        Ok(value) => follow(blocks, value, path),
    }
}

/// Following a path is walking it to the end of the block, and from a link
/// that the walk stops at on through the block that it refers to.
pub proof fn lemma_follow_by_blocks(blocks: Map<Cid, Seq<u8>>, value: IpldView, path: Seq<Seq<char>>)
    ensures
        follow(blocks, value, path) == match walk(value, path) {
            Err(f) => Err::<Option<IpldView>, Failure>(f),
            Ok(Reach::Found(v)) => Ok(Some(v)),
            Ok(Reach::NotFound) => Ok(None),
            Ok(Reach::Follow(c, rest)) => lookup(blocks, c, rest),
        },
        walk(value, path) matches Ok(Reach::Follow(_, rest)) ==> rest.len() < path.len(),
    decreases path.len(),
{
    if path.len() > 0 {
        match child_of(value, path[0]) {
            Ok(Some(IpldView::Link(c))) => {},
            Ok(Some(child)) => {
                lemma_follow_by_blocks(blocks, child, path.skip(1));
            },
            _ => {},
        }
    }
}

/// A path without segments leads to the value that the root block decodes
/// to, unchanged.
pub proof fn lemma_empty_path(blocks: Map<Cid, Seq<u8>>, root: Cid, value: IpldView)
    ensures
        follow(blocks, value, Seq::empty()) == Ok::<Option<IpldView>, Failure>(Some(value)),
        lookup(blocks, root, Seq::empty()) == match load(blocks, root) {
            Ok(v) => Ok::<Option<IpldView>, Failure>(Some(v)),
            Err(f) => Err(f),
        },
{
}

/// A segment that names a link is followed through: the rest of the path is
/// looked up from the block that the link refers to, and the caller names
/// that block nowhere.
pub proof fn lemma_link_is_followed(
    blocks: Map<Cid, Seq<u8>>,
    root: Cid,
    value: IpldView,
    path: Seq<Seq<char>>,
    target: Cid,
)
    requires
        load(blocks, root) == Ok::<IpldView, Failure>(value),
        path.len() > 0,
        child_of(value, path[0]) == Ok::<Option<IpldView>, Failure>(
            Some(IpldView::Link(target)),
        ),
    ensures
        follow(blocks, value, path) == lookup(blocks, target, path.skip(1)),
        lookup(blocks, root, path) == lookup(blocks, target, path.skip(1)),
{
}

/// A segment that is no key of the map it meets ends the lookup with
/// nothing found, whatever segments come after it.
pub proof fn lemma_missing_key_is_not_found(
    blocks: Map<Cid, Seq<u8>>,
    root: Cid,
    pairs: Map<Seq<char>, IpldView>,
    path: Seq<Seq<char>>,
)
    requires
        load(blocks, root) == Ok::<IpldView, Failure>(IpldView::StringMap(pairs)),
        path.len() > 0,
        !pairs.contains_key(path[0]),
    ensures
        follow(blocks, IpldView::StringMap(pairs), path) == Ok::<Option<IpldView>, Failure>(None),
        lookup(blocks, root, path) == Ok::<Option<IpldView>, Failure>(None),
{
}

/// A segment that spells an index at or beyond the end of the list it meets
/// fails the lookup; it is not a case of nothing found.
pub proof fn lemma_index_out_of_range_fails(
    blocks: Map<Cid, Seq<u8>>,
    root: Cid,
    items: Seq<IpldView>,
    path: Seq<Seq<char>>,
    index: nat,
)
    requires
        load(blocks, root) == Ok::<IpldView, Failure>(IpldView::List(items)),
        path.len() > 0,
        index_of_text(path[0]) == Some(index),
        index >= items.len(),
    ensures
        follow(blocks, IpldView::List(items), path) == Err::<Option<IpldView>, Failure>(
            Failure::IndexOutOfRange,
        ),
        lookup(blocks, root, path) == Err::<Option<IpldView>, Failure>(Failure::IndexOutOfRange),
{
}

/// Something that names a path.
pub trait IntoPath {
    /// The segments of the path that `self` names.
    spec fn segments(&self) -> Seq<Seq<char>>;

    /// The path that `self` names.
    fn into_path(self) -> (p: Path)
        ensures
            p@ == self.segments(),
    ;
}

impl IntoPath for Path {
    open spec fn segments(&self) -> Seq<Seq<char>> {
        self@
    }

    fn into_path(self) -> (p: Path) {
        self
    }
}

impl<'a> IntoPath for &'a str {
    open spec fn segments(&self) -> Seq<Seq<char>> {
        crate::path::split_path(self@)
    }

    fn into_path(self) -> (p: Path) {
        Path::parse(self)
    }
}

/// Path in a dag: the identifier of a root block and the segments to follow
/// from its value.
#[derive(Debug, Clone, PartialEq, Hash)]
pub struct DagPath<'a> {
    root: &'a Cid,
    path: Path,
}

impl<'a> DagPath<'a> {
    /// The identifier of the block that the path starts at.
    pub closed spec fn root(&self) -> Cid {
        *self.root
    }

    /// The segments of the path.
    pub closed spec fn segments(&self) -> Seq<Seq<char>> {
        self.path@
    }

    /// Creates a new dag path.
    pub fn new<T: IntoPath>(cid: &'a Cid, path: T) -> (res: Self)
        ensures
            res.root() == *cid,
            res.segments() == path.segments(),
    {
        DagPath { root: cid, path: path.into_path() }
    }

    /// The path that ends at the value of the block under `cid` itself.
    pub fn at_root(cid: &'a Cid) -> (res: Self)
        ensures
            res.root() == *cid,
            res.segments() == Seq::<Seq<char>>::empty(),
    {
        DagPath { root: cid, path: Path::new() }
    }
}

/// How far a path leads within one block, with the value that it leads to.
#[derive(Debug, PartialEq)]
pub enum Resolved {
    /// To this value, at the end of the path.
    Found(Ipld),
    /// To a map that lacks the key.
    NotFound,
    /// To a link, at the segment with this index.
    Follow(Cid, usize),
}

/// Follows the segments of `path` from the one at `from` on, starting at
/// `block`, for as long as they stay within the block.
pub fn resolve(block: Ipld, path: &Path, from: usize) -> (res: Result<Resolved, PathError>)
    requires
        from <= path@.len(),
    ensures
        match res {
            Ok(Resolved::Found(v)) => walk(block@, path@.skip(from as int)) == Ok::<
                Reach,
                Failure,
            >(Reach::Found(v@)),
            Ok(Resolved::NotFound) => walk(block@, path@.skip(from as int)) == Ok::<
                Reach,
                Failure,
            >(Reach::NotFound),
            Ok(Resolved::Follow(c, next)) => from < next <= path@.len() && walk(
                block@,
                path@.skip(from as int),
            ) == Ok::<Reach, Failure>(Reach::Follow(c, path@.skip(next as int))),
            Err(e) => walk(block@, path@.skip(from as int)) == Err::<Reach, Failure>(e@),
        },
{
    let mut current = block;
    let mut i: usize = from;
    while i < path.len()
        invariant
            from <= i <= path@.len(),
            walk(block@, path@.skip(from as int)) == walk(current@, path@.skip(i as int)),
        decreases path@.len() - i,
    {
        let segment = path.segment(i);
        let ghost rest = path@.skip(i as int);
        proof {
            lemma_view(current);
            assert(rest[0] == segment@);
            assert(rest.skip(1) =~= path@.skip(i + 1));
        }
        let child = match current {
            Ipld::List(list) => {
                let mut list = list;
                match parse_index(segment) {
                    None => {
                        return Err(PathError::InvalidIndex);
                    },
                    Some(at) => {
                        if at >= list.len() {
                            return Err(PathError::IndexOutOfRange);
                        }
                        list.swap_remove(at)
                    },
                }
            },
            Ipld::StringMap(map) => {
                match map.into_value(segment) {
                    Some(value) => value,
                    None => {
                        return Ok(Resolved::NotFound);
                    },
                }
            },
            other => {
                return Err(PathError::NotIndexable(other));
            },
        };
        proof {
            lemma_view(child);
        }
        i = i + 1;
        match child {
            Ipld::Link(c) => {
                return Ok(Resolved::Follow(c, i));
            },
            value => {
                current = value;
            },
        }
    }
    proof {
        assert(path@.skip(i as int).len() == 0);
    }
    Ok(Resolved::Found(current))
}

/// The DAG: linked blocks in a store.
#[derive(Debug)]
pub struct Dag<TStore: IpldStore> {
    store: TStore,
}

impl<TStore: IpldStore> Dag<TStore> {
    /// The blocks that the store of the dag holds.
    pub closed spec fn blocks(&self) -> Map<Cid, Seq<u8>> {
        self.store.blocks()
    }

    /// Creates a new Dag.
    pub fn new(store: TStore) -> (dag: Self)
        ensures
            dag.blocks() == store.blocks(),
    {
        Self { store }
    }

    /// Retrieves a block from the store and decodes it.
    pub fn get_ipld(&self, cid: &Cid) -> (res: Result<Ipld, DagError<TStore::Error>>)
        ensures
            match res {
                Ok(v) => load(self.blocks(), *cid) == Ok::<IpldView, Failure>(v@),
                Err(e) => e is Store || (load(self.blocks(), *cid) matches Err(f) && e.reports(f)),
            },
    {
        match self.store.read(cid) {
            Err(e) => Err(DagError::Store(e)),
            Ok(bytes) => decode_block(bytes.as_slice()),
        }
    }

    /// Retrieves the value that a path leads to, or nothing where a map on
    /// the way lacks a key.
    pub fn get(&self, path: &DagPath) -> (res: Result<Option<Ipld>, DagError<TStore::Error>>)
        ensures
            match res {
                Ok(Some(v)) => lookup(self.blocks(), path.root(), path.segments()) == Ok::<
                    Option<IpldView>,
                    Failure,
                >(Some(v@)),
                Ok(None) => lookup(self.blocks(), path.root(), path.segments()) == Ok::<
                    Option<IpldView>,
                    Failure,
                >(None),
                Err(e) => e is Store || (lookup(self.blocks(), path.root(), path.segments())
                    matches Err(f) && e.reports(f)),
            },
    {
        let mut cid: Cid = *path.root;
        let mut from: usize = 0;
        proof {
            assert(path.path@.skip(0) =~= path.path@);
        }
        loop
            invariant
                from <= path.path@.len(),
                lookup(self.blocks(), path.root(), path.segments()) == lookup(
                    self.blocks(),
                    cid,
                    path.path@.skip(from as int),
                ),
            decreases path.path@.len() - from,
        {
            let block = match self.get_ipld(&cid) {
                Ok(block) => block,
                Err(e) => {
                    return Err(e);
                },
            };
            proof {
                lemma_follow_by_blocks(self.blocks(), block@, path.path@.skip(from as int));
            }
            match resolve(block, &path.path, from) {
                Err(e) => {
                    return Err(DagError::Path(e));
                },
                Ok(Resolved::Found(v)) => {
                    return Ok(Some(v));
                },
                Ok(Resolved::NotFound) => {
                    return Ok(None);
                },
                Ok(Resolved::Follow(c, next)) => {
                    cid = c;
                    from = next;
                },
            }
        }
    }
}

impl<TStore: IpldStore> Dag<TStore> {
    /// Puts a value into the dag: encodes it and stores the block under the
    /// identifier that the hash function with the multihash code `hash`
    /// gives it. A value that cannot be encoded leaves the store as it is.
    pub fn put_ipld(&mut self, ipld: &Ipld, hash: u64) -> (res: Result<
        Cid,
        DagError<TStore::Error>,
    >)
        ensures
            match res {
                Ok(cid) => {
                    &&& encodable(ipld@)
                    &&& final(self).blocks() == old(self).blocks().insert(cid, encoding(*ipld))
                    &&& load(final(self).blocks(), cid) == Ok::<IpldView, Failure>(ipld@)
                },
                Err(DagError::Encode(e)) => obstacle_in(ipld@, e) && final(self).blocks() == old(
                    self,
                ).blocks(),
                Err(DagError::Store(_)) => encodable(ipld@),
                Err(_) => false,
            },
    {
        match encode(ipld) {
            Err(e) => Err(DagError::Encode(e)),
            Ok(bytes) => {
                match self.store.write(bytes, hash) {
                    Err(e) => Err(DagError::Store(e)),
                    Ok(cid) => Ok(cid),
                }
            },
        }
    }
}

/// Decodes the value at the front of a block.
pub fn decode_block<E>(bytes: &[u8]) -> (res: Result<Ipld, DagError<E>>)
    ensures
        match res {
            Ok(v) => parse_ipld(bytes@) matches Ok((value, _)) && value == v@,
            Err(e) => parse_ipld(bytes@) matches Err(c) && e == DagError::<E>::Block(c),
        },
{
    let mut r = ByteReader::new(bytes);
    match read_ipld(&mut r) {
        Ok(v) => Ok(v),
        Err(e) => Err(DagError::Block(e)),
    }
}

} // verus!
