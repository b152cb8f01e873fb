//! The generic value that every block decodes to.

use vstd::prelude::*;
use cid::Cid;
use crate::map::entries_map;
use crate::map::has_key;
use crate::map::index_of;
use crate::map::keys_increase;
use crate::map::lemma_key_place;
use crate::map::StringMap;
use vstd::slice::slice_to_vec;

verus! {

/// A self-describing value: one of nine kinds, lists and maps holding values
/// in turn.
#[derive(Debug, PartialEq)]
pub enum Ipld {
    /// The absent value.
    Null,
    /// A truth value.
    Bool(bool),
    /// An integer between `-(2^64)` and `2^64 - 1`, or any other of 128 bits.
    Integer(i128),
    /// A double-precision number, held as the 64 bits of its IEEE 754 form.
    Float(u64),
    /// A text.
    String(String),
    /// A byte string.
    Bytes(Vec<u8>),
    /// A list of values, in order.
    List(Vec<Ipld>),
    /// A map from text keys to values, held in the order of the keys.
    StringMap(StringMap<Ipld>),
    /// A reference to another block.
    Link(Cid),
}

/// What an [`Ipld`] stands for: the same nine kinds over mathematical
/// integers, sequences and maps.
pub enum IpldView {
    Null,
    Bool(bool),
    Integer(int),
    Float(u64),
    String(Seq<char>),
    Bytes(Seq<u8>),
    List(Seq<IpldView>),
    StringMap(Map<Seq<char>, IpldView>),
    Link(Cid),
}

/// The views of the values of a list, in order.
pub open spec fn list_view(s: Seq<Ipld>) -> Seq<IpldView> {
    Seq::new(s.len(), |i: int| s[i]@)
}

/// The views of the values of a map, under the same keys.
pub open spec fn map_view(m: Map<Seq<char>, Ipld>) -> Map<Seq<char>, IpldView> {
    Map::new(|k: Seq<char>| m.contains_key(k), |k: Seq<char>| m[k]@)
}

spec fn view_of(i: Ipld) -> IpldView
    decreases i,
{
    match i {
        Ipld::Null => IpldView::Null,
        Ipld::Bool(b) => IpldView::Bool(b),
        Ipld::Integer(n) => IpldView::Integer(n as int),
        Ipld::Float(bits) => IpldView::Float(bits),
        Ipld::String(s) => IpldView::String(s@),
        Ipld::Bytes(b) => IpldView::Bytes(b@),
        Ipld::List(v) => IpldView::List(
            Seq::new(
                v@.len(),
                |k: int|
                    if 0 <= k < v@.len() {
                        view_of(v@[k])
                    } else {
                        IpldView::Null
                    },
            ),
        ),
        Ipld::StringMap(m) => IpldView::StringMap(
            Map::new(
                |k: Seq<char>| has_key(m.entries@, k),
                |k: Seq<char>|
                    {
                        let at = index_of(m.entries@, k);
                        if 0 <= at < m.entries@.len() {
                            view_of(m.entries@[at].1)
                        } else {
                            IpldView::Null
                        }
                    },
            ),
        ),
        Ipld::Link(c) => IpldView::Link(c),
    }
}

impl View for Ipld {
    type V = IpldView;

    closed spec fn view(&self) -> IpldView {
        view_of(*self)
    }
}

/// The view of a value, kind by kind.
pub open spec fn view_by_kind(i: Ipld) -> IpldView {
    match i {
        Ipld::Null => IpldView::Null,
        Ipld::Bool(b) => IpldView::Bool(b),
        Ipld::Integer(n) => IpldView::Integer(n as int),
        Ipld::Float(bits) => IpldView::Float(bits),
        Ipld::String(s) => IpldView::String(s@),
        Ipld::Bytes(b) => IpldView::Bytes(b@),
        Ipld::List(v) => IpldView::List(list_view(v@)),
        Ipld::StringMap(m) => IpldView::StringMap(map_view(m@)),
        Ipld::Link(c) => IpldView::Link(c),
    }
}

/// The view of a value is that of its kind, over the views of what it holds.
pub proof fn lemma_view(i: Ipld)
    ensures
        i@ == view_by_kind(i),
{
    match i {
        Ipld::List(v) => {
            assert(i@->List_0 =~= list_view(v@));
        },
        Ipld::StringMap(m) => {
            m.lemma_view();
            m.lemma_entries();
            assert(i@->StringMap_0 =~= map_view(m@));
        },
        _ => {},
    }
}

/// The map of the first `i + 1` of increasing entries is the map of the
/// first `i` with the entry at `i` put in.
pub proof fn lemma_next_entry(entries: Seq<(String, Ipld)>, i: int)
    requires
        keys_increase(entries),
        0 <= i < entries.len(),
    ensures
        map_view(entries_map(entries.take(i + 1))) == map_view(entries_map(entries.take(i))).insert(
            entries[i].0@,
            entries[i].1@,
        ),
{
    let key = entries[i].0@;
    let shorter = entries.take(i);
    let longer = entries.take(i + 1);
    assert(longer =~= shorter.insert(i, longer[i]));
    assert(keys_increase(shorter)) by {
        assert forall|a: int, b: int| 0 <= a < b < shorter.len() implies crate::map::key_lt(
            #[trigger] shorter[a].0@,
            #[trigger] shorter[b].0@,
        ) by {
            assert(crate::map::key_lt(entries[a].0@, entries[b].0@));
        }
    }
    assert(keys_increase(longer)) by {
        assert forall|a: int, b: int| 0 <= a < b < longer.len() implies crate::map::key_lt(
            #[trigger] longer[a].0@,
            #[trigger] longer[b].0@,
        ) by {
            assert(crate::map::key_lt(entries[a].0@, entries[b].0@));
        }
    }
    if has_key(shorter, key) {
        let at = index_of(shorter, key);
        assert(entries[at].0@ == entries[i].0@);
        lemma_key_place(entries, at);
        lemma_key_place(entries, i);
    }
    StringMap::<Ipld>::lemma_inserted(shorter, longer, i);
    assert(map_view(entries_map(longer)) =~= map_view(entries_map(shorter)).insert(
        key,
        entries[i].1@,
    ));
}

/// Copies of the values of `list`, in order.
fn duplicate_list(list: &Vec<Ipld>) -> (copy: Vec<Ipld>)
    ensures
        list_view(copy@) == list_view(list@),
    decreases list,
{
    let mut copy: Vec<Ipld> = Vec::new();
    let mut i: usize = 0;
    while i < list.len()
        invariant
            i <= list@.len(),
            copy@.len() == i,
            forall|j: int| 0 <= j < i ==> #[trigger] copy@[j]@ == list@[j]@,
        decreases list@.len() - i,
    {
        proof {
            assert(decreases_to!(list => list[i as int]));
        }
        copy.push(list[i].duplicate());
        i = i + 1;
    }
    proof {
        assert(list_view(copy@) =~= list_view(list@));
    }
    copy
}

/// A map with the keys of `map`, each with a copy of its value.
fn duplicate_map(map: &StringMap<Ipld>) -> (copy: StringMap<Ipld>)
    ensures
        map_view(copy@) == map_view(map@),
    decreases map,
{
    let mut copy: StringMap<Ipld> = StringMap::new();
    let n = map.len();
    let ghost entries = map.entries();
    let mut i: usize = 0;
    proof {
        map.lemma_entries();
        assert(entries.take(0) =~= Seq::<(String, Ipld)>::empty());
        assert(map_view(copy@) =~= map_view(entries_map(entries.take(0))));
    }
    while i < n
        invariant
            i <= n,
            n == entries.len(),
            entries == map.entries(),
            entries == map.entries@,
            keys_increase(entries),
            map@ == entries_map(entries),
            map_view(copy@) == map_view(entries_map(entries.take(i as int))),
        decreases n - i,
    {
        let (key, value) = map.entry(i);
        proof {
            assert(decreases_to!(map => map.entries));
            assert(decreases_to!(map.entries => map.entries[i as int]));
            assert(decreases_to!(map.entries[i as int] => map.entries[i as int].1));
            assert(*value == map.entries[i as int].1);
        }
        let ghost before = map_view(copy@);
        let item = value.duplicate();
        copy.insert(key.clone(), item);
        proof {
            lemma_next_entry(entries, i as int);
            assert(map_view(copy@) =~= before.insert(key@, value@));
        }
        i = i + 1;
    }
    proof {
        assert(entries.take(n as int) =~= entries);
    }
    copy
}

impl Ipld {
    /// A copy of the value, with copies of all that it holds.
    pub fn duplicate(&self) -> (res: Ipld)
        ensures
            res@ == self@,
        decreases self,
    {
        let res = match self {
            Ipld::Null => Ipld::Null,
            Ipld::Bool(b) => Ipld::Bool(*b),
            Ipld::Integer(n) => Ipld::Integer(*n),
            Ipld::Float(bits) => Ipld::Float(*bits),
            Ipld::String(text) => Ipld::String(text.clone()),
            Ipld::Bytes(bytes) => Ipld::Bytes(slice_to_vec(bytes.as_slice())),
            Ipld::List(list) => Ipld::List(duplicate_list(list)),
            Ipld::StringMap(map) => Ipld::StringMap(duplicate_map(map)),
            Ipld::Link(c) => Ipld::Link(*c),
        };
        proof {
            lemma_view(res);
            lemma_view(*self);
        }
        res
    }
}

impl Clone for Ipld {
    fn clone(&self) -> (res: Self)
        ensures
            res@ == self@,
    {
        self.duplicate()
    }
}

} // verus!
