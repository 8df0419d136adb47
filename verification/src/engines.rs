//! Engine handles: the kv and raft storage engines of one node, and
//! the minimal engine interface the rest of the node consumes.

use vstd::prelude::*;

verus! {

/// One key-value pair of an engine's flat keyspace.
pub struct RawPair {
    pub key: Vec<u8>,
    pub value: Vec<u8>,
}

/// Errors of the engine layer.
#[derive(Debug)]
pub enum EngineError {
    /// An error string reported by the underlying store.
    RocksDb(String),
    /// A key fell outside the region's range.
    NotInRange { key: Vec<u8>, region_id: u64, start: Vec<u8>, end: Vec<u8> },
}

/// A storage engine instance: a flat, in-memory model of the node's
/// persistent keyspace.  All mutation flows through the verified
/// executors; syncing the write-ahead log cannot fail here.
pub struct Db {
    pub data: Vec<RawPair>,
}

impl Db {
    /// An empty engine.
    pub fn new() -> (r: Db)
        ensures
            r.data@.len() == 0,
    {
        Db { data: Vec::new() }
    }

    /// Flushes the write-ahead log.  The in-memory model holds all
    /// state directly, so the flush always succeeds.
    pub fn sync_wal(&self) -> (r: Result<(), EngineError>)
        ensures
            r is Ok,
    {
        Ok(())
    }
}

/// Two sequences of pairs hold the same keys and values, position by
/// position.
pub open spec fn pairs_equal(a: Seq<RawPair>, b: Seq<RawPair>) -> bool {
    &&& a.len() == b.len()
    &&& forall|i: int|
        0 <= i < a.len() ==> (#[trigger] a[i]).key@ == b[i].key@ && a[i].value@ == b[i].value@
}

/// The minimal engine interface: a consistent snapshot of the
/// keyspace and a durability barrier.  One flat contract instead of a
/// chain of capability traits.
pub trait KvEngine: Sized {
    type Snapshot;

    /// The keyspace the engine holds.
    spec fn spec_keyspace(&self) -> Seq<RawPair>;

    /// The keyspace a snapshot shows.
    spec fn spec_snapshot_pairs(s: &Self::Snapshot) -> Seq<RawPair>;

    /// A consistent point-in-time copy of the keyspace.
    fn snapshot(&self) -> (r: Self::Snapshot)
        ensures
            pairs_equal(Self::spec_snapshot_pairs(&r), self.spec_keyspace()),
    ;

    fn sync(&self) -> Result<(), EngineError>;
}

impl KvEngine for Db {
    type Snapshot = Vec<RawPair>;

    open spec fn spec_keyspace(&self) -> Seq<RawPair> {
        self.data@
    }

    open spec fn spec_snapshot_pairs(s: &Vec<RawPair>) -> Seq<RawPair> {
        s@
    }

    fn snapshot(&self) -> (r: Self::Snapshot) {
        let n = self.data.len();
        let mut out: Vec<RawPair> = Vec::new();
        let mut i: usize = 0;
        while i < n
            invariant
                n == self.data@.len(),
                i <= n,
                out@.len() == i,
                forall|j: int|
                    0 <= j < i ==> (#[trigger] out@[j]).key@ == self.data@[j].key@ && out@[j].value@
                        == self.data@[j].value@,
            decreases n - i,
        {
            let p = RawPair { key: self.data[i].key.clone(), value: self.data[i].value.clone() };
            out.push(p);
            i = i + 1;
        }
        out
    }

    fn sync(&self) -> Result<(), EngineError> {
        self.sync_wal()
    }
}

/// The two engines of one node: one for data, one for the consensus
/// log, with a flag saying whether they share a block cache.
pub struct Engines {
    pub kv: Db,
    pub raft: Db,
    pub shared_block_cache: bool,
}

impl Engines {
    pub fn new(kv_engine: Db, raft_engine: Db, shared_block_cache: bool) -> (r: Engines)
        ensures
            r.kv == kv_engine,
            r.raft == raft_engine,
            r.shared_block_cache == shared_block_cache,
    {
        Engines { kv: kv_engine, raft: raft_engine, shared_block_cache }
    }

    /// Syncs the data engine's write-ahead log.
    pub fn sync_kv(&self) -> (r: Result<(), EngineError>)
        ensures
            r is Ok,
    {
        self.kv.sync_wal()
    }

    /// Syncs the consensus-log engine's write-ahead log.
    pub fn sync_raft(&self) -> (r: Result<(), EngineError>)
        ensures
            r is Ok,
    {
        self.raft.sync_wal()
    }
}

/// The uppercase hex digit for a nibble.
pub open spec fn hex_digit(n: int) -> char {
    if n == 0 {
        '0'
    } else if n == 1 {
        '1'
    } else if n == 2 {
        '2'
    } else if n == 3 {
        '3'
    } else if n == 4 {
        '4'
    } else if n == 5 {
        '5'
    } else if n == 6 {
        '6'
    } else if n == 7 {
        '7'
    } else if n == 8 {
        '8'
    } else if n == 9 {
        '9'
    } else if n == 10 {
        'A'
    } else if n == 11 {
        'B'
    } else if n == 12 {
        'C'
    } else if n == 13 {
        'D'
    } else if n == 14 {
        'E'
    } else {
        'F'
    }
}

/// Bytes as uppercase hex text: two digits per byte, high nibble
/// first.
pub open spec fn hex_upper_of(s: Seq<u8>) -> Seq<char>
    decreases s.len(),
{
    if s.len() == 0 {
        Seq::empty()
    } else {
        seq![hex_digit(s[0] as int / 16), hex_digit(s[0] as int % 16)] + hex_upper_of(
            s.drop_first(),
        )
    }
}

/// Relies on hex::encode_upper: each input byte becomes exactly two
/// uppercase hex digits, high nibble first.
#[verifier::external_body]
fn to_hex_upper(b: &Vec<u8>) -> (r: String)
    ensures
        r@ == hex_upper_of(b@),
{
    hex::encode_upper(b.as_slice())
}

impl EngineError {
    /// The offending key of a range error, rendered as uppercase hex
    /// for diagnostics.
    pub fn key_hex(&self) -> (r: Option<String>)
        ensures
            match self {
                EngineError::NotInRange { key, .. } => r is Some && r->Some_0@ == hex_upper_of(
                    key@,
                ),
                _ => r is None,
            },
    {
        match self {
            EngineError::NotInRange { key, .. } => Some(to_hex_upper(key)),
            _ => None,
        }
    }
}

} // verus!
