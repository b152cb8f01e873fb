use std::collections::HashMap;

use cid::Cid;
use ipld_dag::codec::cbor::encode::{encode, EncodeError};
use ipld_dag::dag::{resolve, Dag, DagError, DagPath, PathError, Resolved};
use ipld_dag::error::CborError;
use ipld_dag::ipld::Ipld;
use ipld_dag::map::StringMap;
use ipld_dag::path::Path;
use ipld_dag::store::{Blocks, IpldStore, BLAKE2B_256};
use multihash_codetable::{Code, MultihashDigest};

const DAG_CBOR: u64 = 0x71;

#[derive(Debug, Default)]
struct MemStore {
    blocks: HashMap<Cid, Vec<u8>>,
    fail_reads: bool,
}

impl IpldStore for MemStore {
    type Error = String;

    fn blocks(&self) -> Blocks {
        unreachable!("a specification, never run")
    }

    fn read(&self, cid: &Cid) -> Result<Vec<u8>, String> {
        if self.fail_reads {
            return Err(format!("read refused"));
        }
        match self.blocks.get(cid) {
            Some(bytes) => Ok(bytes.clone()),
            None => Err(format!("no block {}", cid)),
        }
    }

    fn write(&mut self, bytes: Vec<u8>, hash: u64) -> Result<Cid, String> {
        let code = match Code::try_from(hash) {
            Ok(code) => code,
            Err(_) => return Err(format!("unknown hash {}", hash)),
        };
        let cid = Cid::new_v1(DAG_CBOR, code.digest(&bytes));
        self.blocks.insert(cid, bytes);
        Ok(cid)
    }
}

fn map_of(pairs: Vec<(&str, Ipld)>) -> Ipld {
    let mut map = StringMap::new();
    for (key, value) in pairs {
        map.insert(key.to_string(), value);
    }
    Ipld::StringMap(map)
}

#[test]
fn test_dag() {
    let store = MemStore::default();
    let mut dag = Dag::new(store);
    let cid = dag
        .put_ipld(&map_of(vec![("a", Ipld::Integer(3))]), BLAKE2B_256)
        .unwrap();
    let root = dag
        .put_ipld(
            &map_of(vec![(
                "root",
                Ipld::List(vec![map_of(vec![("child", Ipld::Link(cid))])]),
            )]),
            BLAKE2B_256,
        )
        .unwrap();
    let path = DagPath::new(&root, "root/0/child/a");
    assert_eq!(dag.get(&path).unwrap(), Some(Ipld::Integer(3)));
}

#[test]
fn empty_path_returns_the_root_value() {
    let mut dag = Dag::new(MemStore::default());
    let value = map_of(vec![("a", Ipld::Integer(3)), ("b", Ipld::Bool(true))]);
    let root = dag.put_ipld(&value, BLAKE2B_256).unwrap();
    assert_eq!(dag.get(&DagPath::new(&root, "")).unwrap(), Some(map_of(vec![
        ("a", Ipld::Integer(3)),
        ("b", Ipld::Bool(true)),
    ])));
    assert_eq!(dag.get(&DagPath::at_root(&root)).unwrap(), dag.get_ipld(&root).ok());
    assert_eq!(dag.get(&DagPath::new(&root, Path::new())).unwrap(), dag.get_ipld(&root).ok());
}

#[test]
fn link_under_a_key_is_followed() {
    let mut dag = Dag::new(MemStore::default());
    let x = dag.put_ipld(&map_of(vec![("b", Ipld::Integer(7))]), BLAKE2B_256).unwrap();
    let root = dag.put_ipld(&map_of(vec![("a", Ipld::Link(x))]), BLAKE2B_256).unwrap();
    assert_eq!(dag.get(&DagPath::new(&root, "a/b")).unwrap(), Some(Ipld::Integer(7)));
}

#[test]
fn link_at_the_end_of_the_path_is_followed() {
    let mut dag = Dag::new(MemStore::default());
    let x = dag.put_ipld(&Ipld::String("leaf".to_string()), BLAKE2B_256).unwrap();
    let root = dag.put_ipld(&map_of(vec![("a", Ipld::Link(x))]), BLAKE2B_256).unwrap();
    assert_eq!(
        dag.get(&DagPath::new(&root, "a")).unwrap(),
        Some(Ipld::String("leaf".to_string()))
    );
}

#[test]
fn link_as_a_root_value_is_returned_as_it_is() {
    let mut dag = Dag::new(MemStore::default());
    let x = dag.put_ipld(&Ipld::Integer(1), BLAKE2B_256).unwrap();
    let root = dag.put_ipld(&Ipld::Link(x), BLAKE2B_256).unwrap();
    assert_eq!(dag.get(&DagPath::new(&root, "")).unwrap(), Some(Ipld::Link(x)));
    assert_eq!(
        dag.get(&DagPath::new(&root, "a")),
        Err(DagError::Path(PathError::NotIndexable(Ipld::Link(x))))
    );
}

#[test]
fn missing_key_is_not_found_but_index_out_of_range_is_an_error() {
    let mut dag = Dag::new(MemStore::default());
    let value = map_of(vec![(
        "list",
        Ipld::List(vec![Ipld::Integer(10), Ipld::Integer(11)]),
    )]);
    let root = dag.put_ipld(&value, BLAKE2B_256).unwrap();
    assert_eq!(dag.get(&DagPath::new(&root, "nothing")), Ok(None));
    assert_eq!(dag.get(&DagPath::new(&root, "nothing/more")), Ok(None));
    assert_eq!(dag.get(&DagPath::new(&root, "list/1")), Ok(Some(Ipld::Integer(11))));
    assert_eq!(
        dag.get(&DagPath::new(&root, "list/2")),
        Err(DagError::Path(PathError::IndexOutOfRange))
    );
    assert_eq!(
        dag.get(&DagPath::new(&root, "list/x")),
        Err(DagError::Path(PathError::InvalidIndex))
    );
    assert_eq!(
        dag.get(&DagPath::new(&root, "list/-1")),
        Err(DagError::Path(PathError::InvalidIndex))
    );
}

#[test]
fn scalar_cannot_be_indexed() {
    let mut dag = Dag::new(MemStore::default());
    let root = dag.put_ipld(&map_of(vec![("a", Ipld::Integer(3))]), BLAKE2B_256).unwrap();
    assert_eq!(
        dag.get(&DagPath::new(&root, "a/b")),
        Err(DagError::Path(PathError::NotIndexable(Ipld::Integer(3))))
    );
}

#[test]
fn store_failures_are_passed_on() {
    let mut dag = Dag::new(MemStore::default());
    let x = dag.put_ipld(&Ipld::Integer(1), BLAKE2B_256).unwrap();
    let root = dag.put_ipld(&map_of(vec![("a", Ipld::Link(x))]), BLAKE2B_256).unwrap();
    let mut store = MemStore::default();
    store.blocks.insert(root, encode(&map_of(vec![("a", Ipld::Link(x))])).unwrap());
    let dag = Dag::new(store);
    assert!(matches!(dag.get(&DagPath::new(&root, "a")), Err(DagError::Store(_))));
    assert!(matches!(dag.get_ipld(&x), Err(DagError::Store(_))));
    let refusing = Dag::new(MemStore { blocks: HashMap::new(), fail_reads: true });
    assert!(matches!(refusing.get(&DagPath::new(&root, "")), Err(DagError::Store(_))));
}

#[test]
fn corrupt_block_is_a_block_error() {
    let mut store = MemStore::default();
    let cid = store.write(vec![0xff], BLAKE2B_256).unwrap();
    let short = store.write(vec![0x19, 0x01], BLAKE2B_256).unwrap();
    let dag = Dag::new(store);
    assert_eq!(dag.get_ipld(&cid), Err(DagError::Block(CborError::UnexpectedCode)));
    assert_eq!(
        dag.get(&DagPath::new(&short, "a")),
        Err(DagError::Block(CborError::UnexpectedEof))
    );
}

#[test]
fn put_refuses_what_cannot_be_encoded() {
    let mut dag = Dag::new(MemStore::default());
    let too_big = Ipld::List(vec![Ipld::Integer(1), Ipld::Integer(1i128 << 64)]);
    assert_eq!(
        dag.put_ipld(&too_big, BLAKE2B_256),
        Err(DagError::Encode(EncodeError::IntegerOutOfRange))
    );
    assert!(matches!(dag.put_ipld(&Ipld::Null, 0x1234_5678), Err(DagError::Store(_))));
}

#[test]
fn put_then_get_ipld_gives_the_value_back() {
    let mut dag = Dag::new(MemStore::default());
    let value = map_of(vec![
        ("z", Ipld::Null),
        ("a", Ipld::Bytes(vec![1, 2, 3])),
        ("m", Ipld::Float(1.5f64.to_bits())),
    ]);
    let cid = dag.put_ipld(&value, BLAKE2B_256).unwrap();
    assert_eq!(dag.get_ipld(&cid), Ok(map_of(vec![
        ("a", Ipld::Bytes(vec![1, 2, 3])),
        ("m", Ipld::Float(1.5f64.to_bits())),
        ("z", Ipld::Null),
    ])));
}

#[test]
fn resolve_stops_at_a_link_and_names_the_next_segment() {
    let cid = Cid::new_v1(DAG_CBOR, Code::Blake2b256.digest(b"x"));
    let block = map_of(vec![(
        "root",
        Ipld::List(vec![map_of(vec![("child", Ipld::Link(cid))])]),
    )]);
    let path = Path::parse("root/0/child/a");
    assert_eq!(resolve(block, &path, 0), Ok(Resolved::Follow(cid, 3)));
    let inner = map_of(vec![("a", Ipld::Integer(3))]);
    assert_eq!(resolve(inner, &path, 3), Ok(Resolved::Found(Ipld::Integer(3))));
    let other = map_of(vec![("b", Ipld::Integer(3))]);
    assert_eq!(resolve(other, &path, 3), Ok(Resolved::NotFound));
    assert_eq!(resolve(Ipld::Null, &path, 4), Ok(Resolved::Found(Ipld::Null)));
}
