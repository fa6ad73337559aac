//! The index kept in a sled database: one tree per namespace, each block
//! committed in one sled transaction over the three trees.
use crate::codec::{decimal, lemma_parse_decimal};
use crate::indexer::{
    apply_pairs, decode_height, last_height_key, last_height_key_bytes, pairs_view, plan_block,
    stored_height, BlockWrites, CacheSource, IndexState, Indexer, IndexerError,
};
use crate::model::SumTx;
use sled::transaction::{ConflictableTransactionError, TransactionalTree, Transactional};
use vstd::prelude::*;

verus! {

#[verifier::external_type_specification]
#[verifier::external_body]
pub struct ExDb(sled::Db);

#[verifier::external_type_specification]
#[verifier::external_body]
pub struct ExTree(sled::Tree);

#[verifier::external_type_specification]
#[verifier::external_body]
pub struct ExTransactionalTree(TransactionalTree);

#[verifier::external_type_specification]
#[verifier::external_body]
#[verifier::reject_recursive_types(T)]
pub struct ExConflictableTransactionError<T>(ConflictableTransactionError<T>);

/// What a sled tree holds: its keys and values as bytes.
pub uninterp spec fn tree_entries(t: sled::Tree) -> Map<Seq<u8>, Seq<u8>>;

/// Relies on `sled::open`: opens, or creates, the database at `path`.
#[verifier::external_body]
fn open_db(path: &str) -> (r: Result<sled::Db, IndexerError>)
    ensures
        r matches Err(e) ==> e is SledError,
{
    sled::open(path).map_err(|e| IndexerError::SledError(e.to_string()))
}

/// Relies on `sled::Db::open_tree`: opens, or creates, the tree called `name`.
#[verifier::external_body]
fn open_tree(db: &sled::Db, name: &str) -> (r: Result<sled::Tree, IndexerError>)
    ensures
        r matches Err(e) ==> e is SledError,
{
    db.open_tree(name).map_err(|e| IndexerError::SledError(e.to_string()))
}

/// Relies on `sled::Tree::get`: the value stored under `key`, if any.
#[verifier::external_body]
fn tree_get(t: &sled::Tree, key: &Vec<u8>) -> (r: Result<Option<Vec<u8>>, IndexerError>)
    ensures
        match r {
            Ok(Some(v)) => tree_entries(*t).contains_key(key@) && tree_entries(*t)[key@] == v@,
            Ok(None) => !tree_entries(*t).contains_key(key@),
            Err(e) => e is SledError,
        },
{
    match t.get(key.as_slice()) {
        Ok(v) => Ok(v.map(|b| b.to_vec())),
        Err(e) => Err(IndexerError::SledError(e.to_string())),
    }
}

/// Relies on `sled::transaction::TransactionalTree::insert`: stages a put of
/// `value` under `key` in the running transaction.
#[verifier::external_body]
fn txn_insert(t: &TransactionalTree, key: &Vec<u8>, value: &Vec<u8>) -> (r: Result<
    (),
    ConflictableTransactionError<()>,
>) {
    match t.insert(key.as_slice(), value.as_slice()) {
        Ok(_) => Ok(()),
        Err(e) => Err(ConflictableTransactionError::from(e)),
    }
}

/// Relies on `sled::Transactional::transaction` over three trees: the puts
/// that the closure stages, through `stage_block`, are applied to all three
/// trees together, in order, when it returns `Ok`.
#[verifier::external_body]
fn commit_writes(
    address: &mut sled::Tree,
    cache: &mut sled::Tree,
    meta: &mut sled::Tree,
    w: &BlockWrites,
) -> (r: Result<(), IndexerError>)
    ensures
        match r {
            Ok(()) => {
                &&& tree_entries(*final(address)) == apply_pairs(
                    tree_entries(*old(address)),
                    pairs_view(w.address@),
                )
                &&& tree_entries(*final(cache)) == apply_pairs(
                    tree_entries(*old(cache)),
                    pairs_view(w.cache@),
                )
                &&& tree_entries(*final(meta)) == apply_pairs(
                    tree_entries(*old(meta)),
                    pairs_view(w.meta@),
                )
            },
            Err(e) => e is SledError,
        },
{
    let trees = (&*address, &*cache, &*meta);
    Transactional::<()>::transaction(&trees, |v| stage_block(&v.0, &v.1, &v.2, w)).map_err(
        |e| IndexerError::SledError(format!("{:?}", e)),
    )
}

/// Stages each put of `pairs` in order.
fn stage_pairs(t: &TransactionalTree, pairs: &Vec<(Vec<u8>, Vec<u8>)>) -> (r: Result<
    (),
    ConflictableTransactionError<()>,
>) {
    let mut i: usize = 0;
    while i < pairs.len()
        invariant
            i <= pairs.len(),
        decreases pairs.len() - i,
    {
        match txn_insert(t, &pairs[i].0, &pairs[i].1) {
            Ok(()) => {},
            Err(e) => return Err(e),
        }
        i += 1;
    }
    Ok(())
}

/// Stages the writes of one block in the three trees of a transaction.
fn stage_block(
    address: &TransactionalTree,
    cache: &TransactionalTree,
    meta: &TransactionalTree,
    w: &BlockWrites,
) -> (r: Result<(), ConflictableTransactionError<()>>) {
    match stage_pairs(cache, &w.cache) {
        Ok(()) => {},
        Err(e) => return Err(e),
    }
    match stage_pairs(address, &w.address) {
        Ok(()) => {},
        Err(e) => return Err(e),
    }
    stage_pairs(meta, &w.meta)
}

impl CacheSource for sled::Tree {
    open spec fn entries(&self) -> Map<Seq<u8>, Seq<u8>> {
        tree_entries(*self)
    }

    open spec fn fallible(&self) -> bool {
        true
    }

    fn read(&self, key: &Vec<u8>) -> (r: Result<Option<Vec<u8>>, IndexerError>) {
        tree_get(self, key)
    }
}

/// The index after putting CACHE writes `cw`, ADDRESS writes `aw` and the cursor `height`.
spec fn before_commit(
    s: IndexState,
    height: u64,
    cw: Seq<(Seq<u8>, Seq<u8>)>,
    aw: Seq<(Seq<u8>, Seq<u8>)>,
) -> IndexState {
    IndexState {
        address: apply_pairs(s.address, aw),
        cache: apply_pairs(s.cache, cw),
        meta: s.meta.insert(last_height_key(), decimal(height as nat)),
    }
}

/// The index in a sled database.
pub struct SledDbIndexer {
    db: sled::Db,
    address: sled::Tree,
    cache: sled::Tree,
    meta: sled::Tree,
    last_height: u64,
}

impl Indexer for SledDbIndexer {
    closed spec fn wf(&self) -> bool {
        stored_height(tree_entries(self.meta)) == Some(self.last_height)
    }

    closed spec fn state(&self) -> IndexState {
        IndexState {
            address: tree_entries(self.address),
            cache: tree_entries(self.cache),
            meta: tree_entries(self.meta),
        }
    }

    fn update_balance(&mut self, height: u64, sum_txs: &Vec<SumTx>) -> (r: Result<(), IndexerError>) {
        let ghost before = self.state();
        let w = match plan_block(&self.cache, height, sum_txs) {
            Ok(w) => w,
            Err(e) => return Err(e),
        };
        match commit_writes(&mut self.address, &mut self.cache, &mut self.meta, &w) {
            Ok(()) => {},
            Err(e) => return Err(e),
        }
        self.last_height = height;
        proof {
            let mw = pairs_view(w.meta@);
            assert(mw.drop_last() =~= Seq::<(Seq<u8>, Seq<u8>)>::empty());
            assert(apply_pairs(before.meta, mw.drop_last()) == before.meta);
            assert(mw.len() == 1 && mw.last() == (last_height_key(), decimal(height as nat)));
            assert(apply_pairs(before.meta, mw) == before.meta.insert(
                last_height_key(),
                decimal(height as nat),
            ));
            lemma_parse_decimal(height as nat);
            assert(self.state() == before_commit(before, height, pairs_view(w.cache@), pairs_view(w.address@)));
        }
        Ok(())
    }

    fn get_last_height(&self) -> (h: u64) {
        self.last_height
    }

    fn new(_num_cores: i32, db_path: &str) -> (r: Result<SledDbIndexer, IndexerError>) {
        let db = open_db(db_path)?;
        let address = open_tree(&db, "ADDRESS_CF")?;
        let cache = open_tree(&db, "CACHE_CF")?;
        let meta = open_tree(&db, "META_CF")?;
        let stored = tree_get(&meta, &last_height_key_bytes())?;
        let last_height = match &stored {
            Some(b) => decode_height(Some(b))?,
            None => decode_height(None)?,
        };
        Ok(SledDbIndexer { db, address, cache, meta, last_height })
    }
}

} // verus!
