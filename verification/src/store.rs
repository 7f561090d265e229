//! The database: records kept in a `sled` tree under encoded [`Key`]s.
//!
//! Values are stored as the bytes their owner encodes them to; the library
//! decodes only the values that are plain strings (the key of a user and the
//! user a key belongs to). What a call into the tree returns depends on what
//! the tree holds, which is shared by every handle on it and kept on disk, so
//! the contracts below say what holds whatever the tree returned; the
//! decisions taken on what it returned are functions of their own with exact
//! contracts.
use vstd::prelude::*;
use crate::cbor::{encode_text, item_text, read_text, text_item};
use crate::frame::views;
use crate::cbor::text_fits;
use crate::key::{key_bytes, key_from_bytes, Key, KeyError, KeyView};
use crate::key_laws::{
    lemma_item_text, lemma_key_roundtrip, lemma_known_key_bytes_distinct, lemma_scan_prefix,
    lemma_scan_prefix_keys,
};

verus! {

/// `sled::Tree`, held opaque.
#[verifier::external_type_specification]
#[verifier::external_body]
pub struct ExTree(sled::Tree);

/// `sled::Iter`, the scan a range of a tree gives, held opaque.
#[verifier::external_type_specification]
#[verifier::external_body]
pub struct ExIter(sled::Iter);

/// `sled::Error`, held opaque.
#[verifier::external_type_specification]
#[verifier::external_body]
pub struct ExSledError(sled::Error);

/// `sled::IVec`, the buffer type of the items a scan yields; declared so
/// that `sled::Iter` can be, and copied out of in the wrappers.
#[verifier::external_type_specification]
#[verifier::external_body]
pub struct ExIVec(sled::IVec);

/// `sled::transaction::TransactionalTree`, held opaque.
#[verifier::external_type_specification]
#[verifier::external_body]
pub struct ExTransactionalTree(sled::transaction::TransactionalTree);

/// Reads the value stored under `key` with `sled::Tree::get`, copied out of
/// the tree's buffer. Nothing is stated of the result: it is what the tree
/// holds at the time of the call.
#[verifier::external_body]
fn tree_get(tree: &sled::Tree, key: &[u8]) -> (r: Result<Option<Vec<u8>>, sled::Error>) {
    match tree.get(key) {
        Ok(Some(value)) => Ok(Some(value.to_vec())),
        Ok(None) => Ok(None),
        Err(e) => Err(e),
    }
}

/// Stores `value` under `key` with `sled::Tree::insert`, dropping the value
/// it replaces.
#[verifier::external_body]
fn tree_insert(tree: &sled::Tree, key: Vec<u8>, value: Vec<u8>) -> (r: Result<(), sled::Error>) {
    match tree.insert(key, value) {
        Ok(_) => Ok(()),
        Err(e) => Err(e),
    }
}

/// Removes `key` with `sled::Tree::remove`, dropping the value it held.
#[verifier::external_body]
fn tree_remove(tree: &sled::Tree, key: Vec<u8>) -> (r: Result<(), sled::Error>) {
    match tree.remove(key) {
        Ok(_) => Ok(()),
        Err(e) => Err(e),
    }
}

/// Starts an ascending scan of the keys from `start` on, with
/// `sled::Tree::range` over `start..`.
#[verifier::external_body]
fn tree_scan_from(tree: &sled::Tree, start: Vec<u8>) -> (it: sled::Iter) {
    tree.range(start..)
}

/// `a` comes before `b` in the order of byte strings that sled keeps its
/// keys in (lexicographic, a proper prefix first).
pub open spec fn bytes_lt(a: Seq<u8>, b: Seq<u8>) -> bool
    decreases a.len(),
{
    if b.len() == 0 {
        false
    } else if a.len() == 0 {
        true
    } else if a[0] != b[0] {
        a[0] < b[0]
    } else {
        bytes_lt(a.drop_first(), b.drop_first())
    }
}

/// `a` is `b` or comes before it.
pub open spec fn bytes_le(a: Seq<u8>, b: Seq<u8>) -> bool {
    a == b || bytes_lt(a, b)
}

/// Entries in the order a range scan from `start` gives them: every key at
/// or after `start`, and each key after the keys given before it.
pub open spec fn scan_order(start: Seq<u8>, entries: Seq<(Seq<u8>, Seq<u8>)>) -> bool {
    &&& forall|i: int| 0 <= i < entries.len() ==> bytes_le(start, #[trigger] entries[i].0)
    &&& forall|i: int, j: int|
        0 <= j < i < entries.len() ==> bytes_lt(#[trigger] entries[j].0, #[trigger] entries[i].0)
}

/// A scan of a tree from a start key, with a record of the entries it has
/// given.
pub struct TreeScan {
    it: sled::Iter,
    start: Ghost<Seq<u8>>,
    read: Ghost<Seq<(Seq<u8>, Seq<u8>)>>,
    ended: Ghost<bool>,
}

impl TreeScan {
    /// The key the scan started from.
    pub closed spec fn start(&self) -> Seq<u8> {
        self.start@
    }

    /// The entries the scan has given, in order.
    pub closed spec fn read(&self) -> Seq<(Seq<u8>, Seq<u8>)> {
        self.read@
    }

    /// Whether the last step of the scan found no entry left: the scan has
    /// met the end of its range.
    pub closed spec fn ended(&self) -> bool {
        self.ended@
    }
}

/// A scan of `tree` from `start` that has given nothing yet.
pub fn scan_tree(tree: &sled::Tree, start: Vec<u8>) -> (s: TreeScan)
    ensures
        s.start() == start@,
        s.read() == Seq::<(Seq<u8>, Seq<u8>)>::empty(),
        !s.ended(),
{
    let ghost from = start@;
    let it = tree_scan_from(tree, start);
    TreeScan { it, start: Ghost(from), read: Ghost(Seq::empty()), ended: Ghost(false) }
}

/// The next entry of a scan, with `Iterator::next` of `sled::Iter`, its key
/// and value copied out of the tree's buffers.
///
/// Trusted: sled's range iterator gives a key only if it is at or after the
/// start of the range and after every key it gave before (it moves its lower
/// bound past each key it gives), and `None` once no key is left in the
/// range, which the scan records as its end. What entry comes is what the
/// tree holds.
#[verifier::external_body]
fn scan_next(s: &mut TreeScan) -> (r: Option<Result<(Vec<u8>, Vec<u8>), sled::Error>>)
    ensures
        final(s).start() == old(s).start(),
        final(s).ended() == (r is None),
        match r {
            Some(Ok((k, v))) => {
                &&& final(s).read() == old(s).read().push((k@, v@))
                &&& bytes_le(old(s).start(), k@)
                &&& forall|i: int|
                    0 <= i < old(s).read().len() ==> bytes_lt(#[trigger] old(s).read()[i].0, k@)
            },
            _ => final(s).read() == old(s).read(),
        },
{
    match s.it.next() {
        Some(Ok((key, value))) => Some(Ok((key.to_vec(), value.to_vec()))),
        Some(Err(e)) => Some(Err(e)),
        None => None,
    }
}

/// The transactional view of the tree that sled hands to a transaction's
/// closure, with a record of the writes made through it: for each key
/// written, the value last written (`None` for a removal). sled keeps the
/// writes of a view in such a map, the last write to a key winning, and
/// gives each run of the closure a view with no writes.
pub struct TxView<'a> {
    tree: &'a sled::transaction::TransactionalTree,
    writes: Ghost<Map<Seq<u8>, Option<Seq<u8>>>>,
}

impl<'a> TxView<'a> {
    /// The writes made through this view.
    pub closed spec fn writes(&self) -> Map<Seq<u8>, Option<Seq<u8>>> {
        self.writes@
    }

    /// A view on the fresh transactional tree of one run of a closure.
    fn new(tree: &'a sled::transaction::TransactionalTree) -> (view: TxView<'a>)
        ensures
            view.writes() == Map::<Seq<u8>, Option<Seq<u8>>>::empty(),
    {
        TxView { tree, writes: Ghost(Map::empty()) }
    }
}

/// Why a run of a transaction's closure stopped: a conflict with another
/// transaction (sled runs the closure again) or a storage failure.
#[derive(Debug)]
pub enum TxFailure {
    Conflict,
    Storage(sled::Error),
}

/// Why a transaction did not commit. sled answers `Abort` only when the
/// closure asks for it, which [`run_ops`] never does.
#[derive(Debug)]
pub enum CommitError {
    Aborted,
    Storage(sled::Error),
}

/// Records `value` under `key` in a transaction, with
/// `sled::transaction::TransactionalTree::insert`.
///
/// Trusted: sled reads the old value first and, when that read fails,
/// returns the error before writing; otherwise it puts `Some(value)` under
/// `key` in the view's map of writes.
#[verifier::external_body]
fn tx_insert(view: &mut TxView, key: &Vec<u8>, value: &Vec<u8>) -> (r: Result<(), TxFailure>)
    ensures
        r is Ok ==> final(view).writes() == old(view).writes().insert(key@, Some(value@)),
        r is Err ==> final(view).writes() == old(view).writes(),
{
    match view.tree.insert(key.clone(), value.clone()) {
        Ok(_) => Ok(()),
        Err(sled::transaction::UnabortableTransactionError::Conflict) => Err(TxFailure::Conflict),
        Err(sled::transaction::UnabortableTransactionError::Storage(e)) => Err(
            TxFailure::Storage(e),
        ),
    }
}

/// Records the removal of `key` in a transaction, with
/// `sled::transaction::TransactionalTree::remove`.
///
/// Trusted: sled puts `None` under `key` in the view's map of writes whether
/// or not its read of the old value succeeds.
#[verifier::external_body]
fn tx_remove(view: &mut TxView, key: &Vec<u8>) -> (r: Result<(), TxFailure>)
    ensures
        final(view).writes() == old(view).writes().insert(key@, None),
{
    match view.tree.remove(key.clone()) {
        Ok(_) => Ok(()),
        Err(sled::transaction::UnabortableTransactionError::Conflict) => Err(TxFailure::Conflict),
        Err(sled::transaction::UnabortableTransactionError::Storage(e)) => Err(
            TxFailure::Storage(e),
        ),
    }
}

/// Runs [`run_ops`] on `ops` as one transaction with
/// `sled::Tree::transaction`, which runs it again after a conflict and
/// applies the writes of its last run atomically. The closure hands sled the
/// failure of a run as the matching `ConflictableTransactionError`.
///
/// Trusted: sled answers `TransactionError::Abort` only when the closure
/// returns `ConflictableTransactionError::Abort`, which this closure never
/// does. Nothing else is stated of the result: it depends on the tree.
#[verifier::external_body]
fn tree_transaction(tree: &sled::Tree, ops: &Vec<Operation>) -> (r: Result<(), CommitError>)
    ensures
        !(r matches Err(CommitError::Aborted)),
{
    let outcome = tree.transaction(|t| match run_ops(t, ops) {
        Ok(()) => Ok(()),
        Err(TxFailure::Conflict) => Err(sled::transaction::ConflictableTransactionError::Conflict),
        Err(TxFailure::Storage(e)) => Err(sled::transaction::ConflictableTransactionError::Storage(e)),
    });
    match outcome {
        Ok(()) => Ok(()),
        Err(sled::transaction::TransactionError::Abort(())) => Err(CommitError::Aborted),
        Err(sled::transaction::TransactionError::Storage(e)) => Err(CommitError::Storage(e)),
    }
}

/// A write that a transaction will make.
#[derive(Debug, Clone, PartialEq, Eq)]
pub enum Operation {
    Remove(Vec<u8>),
    Insert(Vec<u8>, Vec<u8>),
}

/// The mathematical value of an [`Operation`].
pub enum OperationView {
    Remove(Seq<u8>),
    Insert(Seq<u8>, Seq<u8>),
}

impl View for Operation {
    type V = OperationView;

    open spec fn view(&self) -> OperationView {
        match self {
            Operation::Remove(key) => OperationView::Remove(key@),
            Operation::Insert(key, value) => OperationView::Insert(key@, value@),
        }
    }
}

/// The views of the writes of a transaction.
pub open spec fn ops_view(ops: Seq<Operation>) -> Seq<OperationView> {
    ops.map_values(|op: Operation| op@)
}

/// The map of writes after making `op` on top of `w`.
pub open spec fn write_of(w: Map<Seq<u8>, Option<Seq<u8>>>, op: OperationView) -> Map<
    Seq<u8>,
    Option<Seq<u8>>,
> {
    match op {
        OperationView::Remove(key) => w.insert(key, None),
        OperationView::Insert(key, value) => w.insert(key, Some(value)),
    }
}

/// The map of writes after making `ops`, in order, on top of `w`: for each
/// key, the last write to it.
pub open spec fn apply_writes(w: Map<Seq<u8>, Option<Seq<u8>>>, ops: Seq<OperationView>) -> Map<
    Seq<u8>,
    Option<Seq<u8>>,
>
    decreases ops.len(),
{
    if ops.len() == 0 {
        w
    } else {
        write_of(apply_writes(w, ops.drop_last()), ops.last())
    }
}

/// Makes the writes of `ops`, in order, through `view`; stops at the first
/// one that fails. When all succeed, the view holds exactly those writes on
/// top of the ones it held.
pub fn apply_ops(view: &mut TxView, ops: &Vec<Operation>) -> (r: Result<(), TxFailure>)
    ensures
        r is Ok ==> final(view).writes() == apply_writes(old(view).writes(), ops_view(ops@)),
{
    let ghost start = view.writes();
    let mut i: usize = 0;
    while i < ops.len()
        invariant
            i <= ops@.len(),
            view.writes() == apply_writes(start, ops_view(ops@).take(i as int)),
        decreases ops@.len() - i,
    {
        let ghost done = ops_view(ops@).take(i as int);
        let ghost next = ops_view(ops@).take(i + 1);
        proof {
            assert(next.drop_last() =~= done);
            assert(next.last() == ops@[i as int]@);
        }
        let step = match &ops[i] {
            Operation::Insert(key, value) => tx_insert(view, key, value),
            Operation::Remove(key) => tx_remove(view, key),
        };
        match step {
            Ok(()) => {},
            Err(e) => {
                return Err(e);
            },
        }
        i = i + 1;
    }
    proof {
        assert(ops_view(ops@).take(ops@.len() as int) =~= ops_view(ops@));
    }
    Ok(())
}

/// One run of a transaction's closure: makes the writes of `ops` on the
/// fresh view sled hands it.
fn run_ops(tree: &sled::transaction::TransactionalTree, ops: &Vec<Operation>) -> (r: Result<
    (),
    TxFailure,
>) {
    let mut view = TxView::new(tree);
    apply_ops(&mut view, ops)
}

/// Why a database operation failed.
#[derive(Debug)]
pub enum DbError {
    /// A key met in a scan does not decode.
    Key(KeyError),
    /// The tree failed.
    Storage(sled::Error),
    /// A transaction did not commit.
    Commit,
}

/// Writes collected to be made together on a tree.
pub struct Transaction<'a> {
    tree: &'a sled::Tree,
    ops: Vec<Operation>,
}

impl<'a> Transaction<'a> {
    /// The writes collected so far, in order.
    pub closed spec fn pending(&self) -> Seq<OperationView> {
        ops_view(self.ops@)
    }

    /// The tree the writes are for.
    pub closed spec fn tree(&self) -> sled::Tree {
        *self.tree
    }

    /// Insert the given key and value.
    pub fn insert(&mut self, key: &Key, value: Vec<u8>) -> (r: Result<(), DbError>)
        ensures
            r is Ok,
            final(self).pending() == old(self).pending().push(
                OperationView::Insert(key_bytes(key@), value@),
            ),
            final(self).tree() == old(self).tree(),
    {
        let bytes = slot_of(key);
        let ghost before = self.ops@;
        self.ops.push(Operation::Insert(bytes, value));
        proof {
            assert(ops_view(self.ops@) =~= ops_view(before).push(
                OperationView::Insert(key_bytes(key@), value@),
            ));
        }
        Ok(())
    }

    /// Delete the given key.
    pub fn remove(&mut self, key: &Key) -> (r: Result<(), DbError>)
        ensures
            r is Ok,
            final(self).pending() == old(self).pending().push(
                OperationView::Remove(key_bytes(key@)),
            ),
            final(self).tree() == old(self).tree(),
    {
        let bytes = slot_of(key);
        let ghost before = self.ops@;
        self.ops.push(Operation::Remove(bytes));
        proof {
            assert(ops_view(self.ops@) =~= ops_view(before).push(
                OperationView::Remove(key_bytes(key@)),
            ));
        }
        Ok(())
    }

    /// Adds the writes of `ops`, in order, after those collected so far.
    pub fn push_ops(&mut self, ops: Vec<Operation>)
        ensures
            final(self).pending() == old(self).pending() + ops_view(ops@),
            final(self).tree() == old(self).tree(),
    {
        let ghost before = self.ops@;
        let mut ops = ops;
        let ghost added = ops@;
        self.ops.append(&mut ops);
        proof {
            assert(ops_view(self.ops@) =~= ops_view(before) + ops_view(added));
        }
    }

    /// Commit the current transaction: make all its writes, in order, or
    /// none of them. Each run of the transaction makes exactly the writes of
    /// `pending()` (see [`apply_ops`]); whether a run commits is the tree's
    /// answer. It fails only on a storage failure.
    pub fn commit(self) -> (r: Result<(), CommitError>)
        ensures
            r matches Err(e) ==> e is Storage,
    {
        tree_transaction(self.tree, &self.ops)
    }
}

/// A requester found by a scan: its login and the bytes stored for it.
#[derive(Debug, Clone, PartialEq, Eq)]
pub struct StoredRequester {
    pub user_login: String,
    pub value: Vec<u8>,
}

/// What a scan over the connections of a user does with a key it meets.
#[derive(Debug, Clone, Copy, PartialEq, Eq)]
pub enum ScanStep {
    /// The key is a connection of the user: its value is one of the results.
    Take,
    /// The key is the prefix key of the user's connections: go on.
    Skip,
    /// The key belongs to something else: the user's connections are behind.
    Stop,
}

/// What a scan over requesters does with the key `b`: its login when it is a
/// requester key, `None` (stop) when it is another key.
pub open spec fn requester_step(b: Seq<u8>) -> Result<Option<Seq<char>>, KeyError> {
    match key_from_bytes(b) {
        Ok(KeyView::Requester { user_login }) => Ok(Some(user_login)),
        Ok(_) => Ok(None),
        Err(e) => Err(e),
    }
}

/// What a scan over the connections of `needle` does with the key `b`.
pub open spec fn connection_step(needle: Seq<char>, b: Seq<u8>) -> Result<ScanStep, KeyError> {
    match key_from_bytes(b) {
        Ok(KeyView::Connection { user_id, id }) => if user_id == needle {
            Ok(ScanStep::Take)
        } else {
            Ok(ScanStep::Stop)
        },
        Ok(KeyView::ConnectionsByUserId { user_id }) => if user_id == needle {
            Ok(ScanStep::Skip)
        } else {
            Ok(ScanStep::Stop)
        },
        Ok(_) => Ok(ScanStep::Stop),
        Err(e) => Err(e),
    }
}

/// Where a scan stands after the entries it has read.
pub enum ScanState<T> {
    /// Still reading; what it has collected.
    Running(Seq<T>),
    /// Met a key that ends it; what it collected.
    Stopped(Seq<T>),
    /// Met a key that does not decode.
    Failed(KeyError),
}

/// A scan over requesters after reading `entries` (key and value bytes, in
/// the order the tree gave them): it collects the login and value of each
/// requester key and stops at the first other key.
pub open spec fn requester_scan(entries: Seq<(Seq<u8>, Seq<u8>)>) -> ScanState<
    (Seq<char>, Seq<u8>),
>
    decreases entries.len(),
{
    if entries.len() == 0 {
        ScanState::Running(Seq::empty())
    } else {
        match requester_scan(entries.drop_last()) {
            ScanState::Running(found) => match requester_step(entries.last().0) {
                Ok(Some(login)) => ScanState::Running(found.push((login, entries.last().1))),
                Ok(None) => ScanState::Stopped(found),
                Err(e) => ScanState::Failed(e),
            },
            done => done,
        }
    }
}

/// A scan over the connections of `needle` after reading `entries`: it
/// collects the value of each connection of `needle`, passes over the
/// prefix key of `needle`'s connections, and stops at any other key.
pub open spec fn connection_scan(needle: Seq<char>, entries: Seq<(Seq<u8>, Seq<u8>)>) -> ScanState<
    Seq<u8>,
>
    decreases entries.len(),
{
    if entries.len() == 0 {
        ScanState::Running(Seq::empty())
    } else {
        match connection_scan(needle, entries.drop_last()) {
            ScanState::Running(found) => match connection_step(needle, entries.last().0) {
                Ok(ScanStep::Take) => ScanState::Running(found.push(entries.last().1)),
                Ok(ScanStep::Skip) => ScanState::Running(found),
                Ok(ScanStep::Stop) => ScanState::Stopped(found),
                Err(e) => ScanState::Failed(e),
            },
            done => done,
        }
    }
}

/// What a scan has collected: nothing when it failed.
pub open spec fn collected<T>(state: ScanState<T>) -> Seq<T> {
    match state {
        ScanState::Running(found) => found,
        ScanState::Stopped(found) => found,
        ScanState::Failed(_) => Seq::empty(),
    }
}

/// Nothing a scan over requesters reads is dropped: while it runs, or when
/// it has just stopped at the last entry read, it has collected the login and
/// value of every entry read whose key is a requester key, and nothing else;
/// and when it stopped, the key it stopped at is no requester key.
pub proof fn lemma_requester_scan_collects(seen: Seq<(Seq<u8>, Seq<u8>)>)
    requires
        !(requester_scan(seen) is Failed),
        requester_scan(seen) is Running || (seen.len() > 0 && requester_scan(seen.drop_last()) is Running),
    ensures
        forall|i: int|
            0 <= i < seen.len() ==> (requester_step(#[trigger] seen[i].0) matches Ok(Some(login))
                ==> collected(requester_scan(seen)).contains((login, seen[i].1))),
        forall|j: int|
            #![trigger collected(requester_scan(seen))[j]]
            0 <= j < collected(requester_scan(seen)).len() ==> exists|i: int|
                0 <= i < seen.len() && requester_step(#[trigger] seen[i].0) == Ok::<
                    Option<Seq<char>>,
                    KeyError,
                >(Some(collected(requester_scan(seen))[j].0)) && seen[i].1 == collected(
                    requester_scan(seen),
                )[j].1,
        requester_scan(seen) is Stopped ==> requester_step(seen.last().0) == Ok::<
            Option<Seq<char>>,
            KeyError,
        >(None),
    decreases seen.len(),
{
    if seen.len() > 0 {
        let prev = seen.drop_last();
        assert(requester_scan(prev) is Running);
        lemma_requester_scan_collects(prev);
        let f0 = collected(requester_scan(prev));
        let f = collected(requester_scan(seen));
        let last = seen.len() - 1;
        assert(seen[last] == seen.last());
        assert forall|i: int|
            0 <= i < seen.len() && requester_step(#[trigger] seen[i].0) is Ok && requester_step(
                seen[i].0,
            )->Ok_0 is Some implies f.contains((requester_step(seen[i].0)->Ok_0->Some_0, seen[i].1)) by {
            let login = requester_step(seen[i].0)->Ok_0->Some_0;
            if i < last {
                assert(seen[i] == prev[i]);
                let k = choose|k: int| 0 <= k < f0.len() && f0[k] == (login, prev[i].1);
                assert(f[k] == f0[k]);
            } else {
                assert(f[f0.len() as int] == (login, seen[i].1));
            }
        }
        assert forall|j: int| #![trigger f[j]] 0 <= j < f.len() implies exists|i: int|
            0 <= i < seen.len() && requester_step(#[trigger] seen[i].0) == Ok::<
                Option<Seq<char>>,
                KeyError,
            >(Some(f[j].0)) && seen[i].1 == f[j].1 by {
            if j < f0.len() {
                assert(f[j] == f0[j]);
                let i = choose|i: int|
                    0 <= i < prev.len() && requester_step(#[trigger] prev[i].0) == Ok::<
                        Option<Seq<char>>,
                        KeyError,
                    >(Some(f0[j].0)) && prev[i].1 == f0[j].1;
                assert(seen[i] == prev[i]);
            } else {
                assert(requester_step(seen[last].0) == Ok::<Option<Seq<char>>, KeyError>(
                    Some(f[j].0),
                ));
            }
        }
    }
}

/// Nothing a scan over the connections of `needle` reads is dropped: while
/// it runs, or when it has just stopped at the last entry read, it has
/// collected the value of every entry read whose key is a connection of
/// `needle`, and nothing else; and when it stopped, the key it stopped at is
/// neither such a connection nor the prefix key of `needle`'s connections.
pub proof fn lemma_connection_scan_collects(needle: Seq<char>, seen: Seq<(Seq<u8>, Seq<u8>)>)
    requires
        !(connection_scan(needle, seen) is Failed),
        connection_scan(needle, seen) is Running || (seen.len() > 0 && connection_scan(
            needle,
            seen.drop_last(),
        ) is Running),
    ensures
        forall|i: int|
            0 <= i < seen.len() && connection_step(needle, #[trigger] seen[i].0) == Ok::<
                ScanStep,
                KeyError,
            >(ScanStep::Take) ==> collected(connection_scan(needle, seen)).contains(seen[i].1),
        forall|j: int|
            #![trigger collected(connection_scan(needle, seen))[j]]
            0 <= j < collected(connection_scan(needle, seen)).len() ==> exists|i: int|
                0 <= i < seen.len() && connection_step(needle, #[trigger] seen[i].0) == Ok::<
                    ScanStep,
                    KeyError,
                >(ScanStep::Take) && seen[i].1 == collected(connection_scan(needle, seen))[j],
        connection_scan(needle, seen) is Stopped ==> connection_step(needle, seen.last().0)
            == Ok::<ScanStep, KeyError>(ScanStep::Stop),
    decreases seen.len(),
{
    if seen.len() > 0 {
        let prev = seen.drop_last();
        assert(connection_scan(needle, prev) is Running);
        lemma_connection_scan_collects(needle, prev);
        let f0 = collected(connection_scan(needle, prev));
        let f = collected(connection_scan(needle, seen));
        let last = seen.len() - 1;
        assert(seen[last] == seen.last());
        assert forall|i: int|
            0 <= i < seen.len() && connection_step(needle, #[trigger] seen[i].0) == Ok::<
                ScanStep,
                KeyError,
            >(ScanStep::Take) implies f.contains(seen[i].1) by {
            if i < last {
                assert(seen[i] == prev[i]);
                let k = choose|k: int| 0 <= k < f0.len() && f0[k] == prev[i].1;
                assert(f[k] == f0[k]);
            } else {
                assert(f[f0.len() as int] == seen[i].1);
            }
        }
        assert forall|j: int| #![trigger f[j]] 0 <= j < f.len() implies exists|i: int|
            0 <= i < seen.len() && connection_step(needle, #[trigger] seen[i].0) == Ok::<
                ScanStep,
                KeyError,
            >(ScanStep::Take) && seen[i].1 == f[j] by {
            if j < f0.len() {
                assert(f[j] == f0[j]);
                let i = choose|i: int|
                    0 <= i < prev.len() && connection_step(needle, #[trigger] prev[i].0) == Ok::<
                        ScanStep,
                        KeyError,
                    >(ScanStep::Take) && prev[i].1 == f0[j];
                assert(seen[i] == prev[i]);
            } else {
                assert(connection_step(needle, seen[last].0) == Ok::<ScanStep, KeyError>(
                    ScanStep::Take,
                ));
            }
        }
    }
}

/// The views of found requesters.
pub open spec fn requester_views(v: Seq<StoredRequester>) -> Seq<(Seq<char>, Seq<u8>)> {
    v.map_values(|r: StoredRequester| (r.user_login@, r.value@))
}

/// Decides, as [`requester_step`], what a scan over requesters does with the
/// key `key`.
pub fn requester_scan_step(key: &[u8]) -> (r: Result<Option<String>, KeyError>)
    ensures
        match r {
            Ok(Some(login)) => requester_step(key@) == Ok::<Option<Seq<char>>, KeyError>(
                Some(login@),
            ),
            Ok(None) => requester_step(key@) == Ok::<Option<Seq<char>>, KeyError>(None),
            Err(e) => requester_step(key@) == Err::<Option<Seq<char>>, KeyError>(e),
        },
{
    match Key::deserialize(key) {
        Ok(Key::Requester { user_login }) => Ok(Some(user_login)),
        Ok(_) => Ok(None),
        Err(e) => Err(e),
    }
}

/// Decides, as [`connection_step`], what a scan over the connections of
/// `needle` does with the key `key`.
pub fn connection_scan_step(needle: &str, key: &[u8]) -> (r: Result<ScanStep, KeyError>)
    ensures
        match r {
            Ok(step) => connection_step(needle@, key@) == Ok::<ScanStep, KeyError>(step),
            Err(e) => connection_step(needle@, key@) == Err::<ScanStep, KeyError>(e),
        },
{
    let needle = needle.to_owned();
    match Key::deserialize(key) {
        Ok(Key::Connection { user_id, id }) => if user_id.eq(&needle) {
            Ok(ScanStep::Take)
        } else {
            Ok(ScanStep::Stop)
        },
        Ok(Key::ConnectionsByUserId { user_id }) => if user_id.eq(&needle) {
            Ok(ScanStep::Skip)
        } else {
            Ok(ScanStep::Stop)
        },
        Ok(_) => Ok(ScanStep::Stop),
        Err(e) => Err(e),
    }
}

/// The string a stored value holds, when it holds one: what serde_cbor reads
/// from the value as a `String`.
pub fn decode_string_value(value: Option<Vec<u8>>) -> (r: Option<String>)
    ensures
        match value {
            None => r is None,
            Some(bytes) => match r {
                Some(s) => item_text(bytes@) == Some(s@),
                None => item_text(bytes@) is None,
            },
        },
{
    match value {
        None => None,
        Some(bytes) => read_text(bytes.as_slice()),
    }
}

/// The bytes of `key` without its final "break" byte: every key that extends
/// `key` by more fields begins with them.
pub fn scan_prefix(key: &Key) -> (prefix: Vec<u8>)
    ensures
        prefix@ == key_bytes(key@).drop_last(),
{
    let mut bytes = match key.serialize() {
        Ok(bytes) => bytes,
        Err(_) => Vec::new(),
    };
    bytes.pop();
    bytes
}

/// Where a running scan stands, held as values.
#[derive(Debug, Clone, Copy, PartialEq, Eq)]
pub enum ScanStatus {
    Running,
    Stopped,
    Failed(KeyError),
}

/// A scan over requesters, fed the entries the tree gives in order: what it
/// has collected, as [`requester_scan`] of the entries fed.
pub struct RequesterScan {
    found: Vec<StoredRequester>,
    status: ScanStatus,
    seen: Ghost<Seq<(Seq<u8>, Seq<u8>)>>,
}

impl RequesterScan {
    /// The entries fed so far.
    pub closed spec fn seen(&self) -> Seq<(Seq<u8>, Seq<u8>)> {
        self.seen@
    }

    /// Where the scan stands.
    pub closed spec fn state(&self) -> ScanState<(Seq<char>, Seq<u8>)> {
        match self.status {
            ScanStatus::Running => ScanState::Running(requester_views(self.found@)),
            ScanStatus::Stopped => ScanState::Stopped(requester_views(self.found@)),
            ScanStatus::Failed(e) => ScanState::Failed(e),
        }
    }

    /// The scan stands where [`requester_scan`] of the entries fed puts it.
    pub open spec fn wf(&self) -> bool {
        self.state() == requester_scan(self.seen())
    }

    /// A scan that has read nothing.
    pub fn new() -> (s: RequesterScan)
        ensures
            s.wf(),
            s.seen() == Seq::<(Seq<u8>, Seq<u8>)>::empty(),
    {
        let s = RequesterScan { found: Vec::new(), status: ScanStatus::Running, seen: Ghost(Seq::empty()) };
        proof {
            assert(requester_views(s.found@) =~= Seq::<(Seq<char>, Seq<u8>)>::empty());
        }
        s
    }

    /// Whether the scan goes on reading.
    pub fn is_running(&self) -> (b: bool)
        ensures
            b == (self.state() is Running),
    {
        match self.status {
            ScanStatus::Running => true,
            _ => false,
        }
    }

    /// Feeds the next entry.
    pub fn feed(&mut self, key: Vec<u8>, value: Vec<u8>)
        requires
            old(self).wf(),
        ensures
            final(self).wf(),
            final(self).seen() == old(self).seen().push((key@, value@)),
    {
        let ghost before = self.seen@;
        let ghost entry = (key@, value@);
        let ghost found = requester_views(self.found@);
        proof {
            self.seen = Ghost(before.push(entry));
            assert(self.seen@.drop_last() =~= before);
        }
        match self.status {
            ScanStatus::Running => {
                match requester_scan_step(key.as_slice()) {
                    Ok(Some(user_login)) => {
                        let ghost e = (user_login@, value@);
                        self.found.push(StoredRequester { user_login, value });
                        assert(requester_views(self.found@) =~= found.push(e));
                    },
                    Ok(None) => {
                        self.status = ScanStatus::Stopped;
                    },
                    Err(e) => {
                        self.status = ScanStatus::Failed(e);
                    },
                }
            },
            _ => {},
        }
    }

    /// What the scan collected, or the key error it met.
    pub fn finish(self) -> (r: Result<Vec<StoredRequester>, KeyError>)
        requires
            self.wf(),
        ensures
            match requester_scan(self.seen()) {
                ScanState::Running(f) => r matches Ok(v) && requester_views(v@) == f,
                ScanState::Stopped(f) => r matches Ok(v) && requester_views(v@) == f,
                ScanState::Failed(e) => r == Err::<Vec<StoredRequester>, KeyError>(e),
            },
    {
        match self.status {
            ScanStatus::Failed(e) => Err(e),
            _ => Ok(self.found),
        }
    }
}

/// A scan over the connections of a user, fed the entries the tree gives in
/// order: what it has collected, as [`connection_scan`] of the entries fed.
pub struct ConnectionScan {
    needle: String,
    found: Vec<Vec<u8>>,
    status: ScanStatus,
    seen: Ghost<Seq<(Seq<u8>, Seq<u8>)>>,
}

impl ConnectionScan {
    /// The user whose connections the scan collects.
    pub closed spec fn needle(&self) -> Seq<char> {
        self.needle@
    }

    /// The entries fed so far.
    pub closed spec fn seen(&self) -> Seq<(Seq<u8>, Seq<u8>)> {
        self.seen@
    }

    /// Where the scan stands.
    pub closed spec fn state(&self) -> ScanState<Seq<u8>> {
        match self.status {
            ScanStatus::Running => ScanState::Running(views(self.found@)),
            ScanStatus::Stopped => ScanState::Stopped(views(self.found@)),
            ScanStatus::Failed(e) => ScanState::Failed(e),
        }
    }

    /// The scan stands where [`connection_scan`] of the entries fed puts it.
    pub open spec fn wf(&self) -> bool {
        self.state() == connection_scan(self.needle(), self.seen())
    }

    /// A scan over the connections of `needle` that has read nothing.
    pub fn new(needle: &str) -> (s: ConnectionScan)
        ensures
            s.wf(),
            s.needle() == needle@,
            s.seen() == Seq::<(Seq<u8>, Seq<u8>)>::empty(),
    {
        let s = ConnectionScan {
            needle: needle.to_owned(),
            found: Vec::new(),
            status: ScanStatus::Running,
            seen: Ghost(Seq::empty()),
        };
        proof {
            assert(views(s.found@) =~= Seq::<Seq<u8>>::empty());
        }
        s
    }

    /// Whether the scan goes on reading.
    pub fn is_running(&self) -> (b: bool)
        ensures
            b == (self.state() is Running),
    {
        match self.status {
            ScanStatus::Running => true,
            _ => false,
        }
    }

    /// Feeds the next entry.
    pub fn feed(&mut self, key: Vec<u8>, value: Vec<u8>)
        requires
            old(self).wf(),
        ensures
            final(self).wf(),
            final(self).needle() == old(self).needle(),
            final(self).seen() == old(self).seen().push((key@, value@)),
    {
        let ghost before = self.seen@;
        let ghost entry = (key@, value@);
        let ghost found = views(self.found@);
        proof {
            self.seen = Ghost(before.push(entry));
            assert(self.seen@.drop_last() =~= before);
        }
        match self.status {
            ScanStatus::Running => {
                match connection_scan_step(self.needle.as_str(), key.as_slice()) {
                    Ok(ScanStep::Take) => {
                        self.found.push(value);
                        assert(views(self.found@) =~= found.push(entry.1));
                    },
                    Ok(ScanStep::Skip) => {},
                    Ok(ScanStep::Stop) => {
                        self.status = ScanStatus::Stopped;
                    },
                    Err(e) => {
                        self.status = ScanStatus::Failed(e);
                    },
                }
            },
            _ => {},
        }
    }

    /// What the scan collected, or the key error it met.
    pub fn finish(self) -> (r: Result<Vec<Vec<u8>>, KeyError>)
        requires
            self.wf(),
        ensures
            match connection_scan(self.needle(), self.seen()) {
                ScanState::Running(f) => r matches Ok(v) && views(v@) == f,
                ScanState::Stopped(f) => r matches Ok(v) && views(v@) == f,
                ScanState::Failed(e) => r == Err::<Vec<Vec<u8>>, KeyError>(e),
            },
    {
        match self.status {
            ScanStatus::Failed(e) => Err(e),
            _ => Ok(self.found),
        }
    }
}

/// One more entry that a scan gives keeps its entries in scan order.
proof fn lemma_scan_order_push(start: Seq<u8>, before: Seq<(Seq<u8>, Seq<u8>)>, now: Seq<
    (Seq<u8>, Seq<u8>),
>)
    requires
        scan_order(start, before),
        now.len() == before.len() + 1,
        now.drop_last() == before,
        bytes_le(start, now.last().0),
        forall|i: int| 0 <= i < before.len() ==> bytes_lt(#[trigger] before[i].0, now.last().0),
    ensures
        scan_order(start, now),
{
    assert forall|i: int, j: int| 0 <= j < i < now.len() implies bytes_lt(
        #[trigger] now[j].0,
        #[trigger] now[i].0,
    ) by {
        assert(now[j] == before[j]);
        if i < before.len() {
            assert(now[i] == before[i]);
        }
    }
    assert forall|i: int| 0 <= i < now.len() implies bytes_le(start, #[trigger] now[i].0) by {
        if i < before.len() {
            assert(now[i] == before[i]);
        }
    }
}

/// A key at or after `p` that does not begin with `p` comes after every key
/// that does.
proof fn lemma_lt_past_prefix(p: Seq<u8>, k: Seq<u8>, c: Seq<u8>)
    requires
        bytes_le(p, k),
        !p.is_prefix_of(k),
        p.is_prefix_of(c),
    ensures
        bytes_lt(c, k),
    decreases p.len(),
{
    if p.len() == 0 {
        assert(p.is_prefix_of(k)) by {
            assert(p =~= k.subrange(0, 0));
        }
    } else if p == k {
        assert(p.is_prefix_of(k)) by {
            assert(p =~= k.subrange(0, p.len() as int));
        }
    } else {
        assert(c[0] == p[0]) by {
            assert(c.subrange(0, p.len() as int)[0] == c[0]);
        }
        if p[0] == k[0] {
            let p1 = p.drop_first();
            let k1 = k.drop_first();
            let c1 = c.drop_first();
            assert(p1.is_prefix_of(c1)) by {
                assert(p1 =~= c1.subrange(0, p1.len() as int));
            }
            if p1.is_prefix_of(k1) {
                assert forall|i: int| 0 <= i < p.len() implies p[i] == k[i] by {
                    if i > 0 {
                        assert(p[i] == p1[i - 1]);
                        assert(p1[i - 1] == k1.subrange(0, p1.len() as int)[i - 1]);
                    }
                }
                assert(p.is_prefix_of(k)) by {
                    assert(p =~= k.subrange(0, p.len() as int));
                }
            }
            lemma_lt_past_prefix(p1, k1, c1);
        }
    }
}

/// The key of each connection of `needle` is one a scan over `needle`'s
/// connections takes, and the prefix key of `needle`'s connections one it
/// passes over.
pub proof fn lemma_connection_steps(needle: Seq<char>, id: Seq<char>)
    requires
        text_fits(needle),
        text_fits(id),
    ensures
        connection_step(needle, key_bytes(KeyView::Connection { user_id: needle, id }))
            == Ok::<ScanStep, KeyError>(ScanStep::Take),
        connection_step(needle, key_bytes(KeyView::ConnectionsByUserId { user_id: needle }))
            == Ok::<ScanStep, KeyError>(ScanStep::Skip),
{
    lemma_key_roundtrip(KeyView::Connection { user_id: needle, id });
    lemma_key_roundtrip(KeyView::ConnectionsByUserId { user_id: needle });
}

/// A key that stops a scan over the connections of `needle`, met at or after
/// where the scan starts, comes after the key of every connection of
/// `needle`: a scan in key order that has stopped has passed all of them.
pub proof fn lemma_connection_stop_after_all(needle: Seq<char>, id: Seq<char>, k: Seq<u8>)
    requires
        text_fits(needle),
        bytes_le(key_bytes(KeyView::ConnectionsByUserId { user_id: needle }).drop_last(), k),
        connection_step(needle, k) == Ok::<ScanStep, KeyError>(ScanStep::Stop),
    ensures
        bytes_lt(key_bytes(KeyView::Connection { user_id: needle, id }), k),
{
    let p = key_bytes(KeyView::ConnectionsByUserId { user_id: needle }).drop_last();
    if p.is_prefix_of(k) {
        lemma_scan_prefix_keys(needle, k);
    }
    lemma_scan_prefix(needle, id, Seq::empty());
    lemma_lt_past_prefix(p, k, key_bytes(KeyView::Connection { user_id: needle, id }));
}

/// Reads `src` with a scan over requesters until the scan stops or fails, or
/// the tree has no entry left (or `usize::MAX` entries have been read).
///
/// On success the scan has either stopped at the last entry read, or is
/// still running and `src` has met the end of its range; what it returns is
/// the login and value of every requester key read, in the order read. A key
/// that does not decode fails the call with its error; a failure of the tree
/// fails it with that failure.
pub fn collect_requesters(src: &mut TreeScan) -> (r: Result<Vec<StoredRequester>, DbError>)
    requires
        old(src).read().len() == 0,
    ensures
        final(src).start() == old(src).start(),
        scan_order(final(src).start(), final(src).read()),
        !(requester_scan(final(src).read()) is Running) ==> final(src).read().len() > 0
            && requester_scan(final(src).read().drop_last()) is Running,
        match r {
            Ok(found) => match requester_scan(final(src).read()) {
                ScanState::Stopped(f) => requester_views(found@) == f,
                ScanState::Running(f) => requester_views(found@) == f && (final(src).ended()
                    || final(src).read().len() == usize::MAX),
                ScanState::Failed(_) => false,
            },
            Err(DbError::Key(k)) => requester_scan(final(src).read()) == ScanState::<
                (Seq<char>, Seq<u8>),
            >::Failed(k),
            Err(DbError::Storage(_)) => requester_scan(final(src).read()) is Running,
            Err(DbError::Commit) => false,
        },
        r matches Ok(found) ==> forall|i: int|
            0 <= i < final(src).read().len() ==> (requester_step(
                #[trigger] final(src).read()[i].0,
            ) matches Ok(Some(login)) ==> requester_views(found@).contains(
                (login, final(src).read()[i].1),
            )),
{
    let mut scan = RequesterScan::new();
    let mut budget: usize = usize::MAX;
    let mut at_end = false;
    while budget > 0 && scan.is_running() && !at_end
        invariant
            scan.wf(),
            scan.seen() == src.read(),
            src.start() == old(src).start(),
            scan_order(src.start(), src.read()),
            !at_end ==> src.read().len() + budget == usize::MAX,
            at_end ==> src.ended(),
            at_end ==> requester_scan(src.read()) is Running,
            !(requester_scan(src.read()) is Running) ==> src.read().len() > 0
                && requester_scan(src.read().drop_last()) is Running,
        decreases budget,
    {
        budget = budget - 1;
        let ghost before = src.read();
        match scan_next(src) {
            None => {
                at_end = true;
            },
            Some(Err(e)) => {
                return Err(DbError::Storage(e));
            },
            Some(Ok((key, value))) => {
                proof {
                    assert(src.read().drop_last() =~= before);
                    lemma_scan_order_push(src.start(), before, src.read());
                }
                scan.feed(key, value);
            },
        }
    }
    let r = match scan.finish() {
        Ok(found) => Ok(found),
        Err(e) => Err(DbError::Key(e)),
    };
    proof {
        let seen = src.read();
        if !(requester_scan(seen) is Failed) {
            lemma_requester_scan_collects(seen);
        }
    }
    r
}

/// Reads `src` with a scan over the connections of `needle` until the scan
/// stops or fails, or the tree has no entry left (or `usize::MAX` entries
/// have been read).
///
/// On success the scan has either stopped at the last entry read, or is
/// still running and `src` has met the end of its range; what it returns is
/// the value of every connection of `needle` read, in the order read. When
/// the scan starts at [`connections_scan_start`] of `needle`, the key it
/// stopped at comes after the key of every connection of `needle`. A key
/// that does not decode fails the call with its error; a failure of the tree
/// fails it with that failure.
pub fn collect_connections(src: &mut TreeScan, needle: &str) -> (r: Result<Vec<Vec<u8>>, DbError>)
    requires
        old(src).read().len() == 0,
    ensures
        final(src).start() == old(src).start(),
        scan_order(final(src).start(), final(src).read()),
        !(connection_scan(needle@, final(src).read()) is Running) ==> final(src).read().len() > 0
            && connection_scan(needle@, final(src).read().drop_last()) is Running,
        match r {
            Ok(found) => match connection_scan(needle@, final(src).read()) {
                ScanState::Stopped(f) => views(found@) == f,
                ScanState::Running(f) => views(found@) == f && (final(src).ended()
                    || final(src).read().len() == usize::MAX),
                ScanState::Failed(_) => false,
            },
            Err(DbError::Key(k)) => connection_scan(needle@, final(src).read())
                == ScanState::<Seq<u8>>::Failed(k),
            Err(DbError::Storage(_)) => connection_scan(needle@, final(src).read()) is Running,
            Err(DbError::Commit) => false,
        },
        r matches Ok(found) ==> forall|i: int|
            0 <= i < final(src).read().len() && connection_step(
                needle@,
                #[trigger] final(src).read()[i].0,
            ) == Ok::<ScanStep, KeyError>(ScanStep::Take) ==> views(found@).contains(
                final(src).read()[i].1,
            ),
        r is Ok && connection_scan(needle@, final(src).read()) is Stopped && text_fits(needle@)
            && old(src).start() == key_bytes(
            KeyView::ConnectionsByUserId { user_id: needle@ },
        ).drop_last() ==> forall|id: Seq<char>|
            #[trigger] bytes_lt(
                key_bytes(KeyView::Connection { user_id: needle@, id }),
                final(src).read().last().0,
            ),
{
    let mut scan = ConnectionScan::new(needle);
    let mut budget: usize = usize::MAX;
    let mut at_end = false;
    while budget > 0 && scan.is_running() && !at_end
        invariant
            scan.wf(),
            scan.needle() == needle@,
            scan.seen() == src.read(),
            src.start() == old(src).start(),
            scan_order(src.start(), src.read()),
            !at_end ==> src.read().len() + budget == usize::MAX,
            at_end ==> src.ended(),
            at_end ==> connection_scan(needle@, src.read()) is Running,
            !(connection_scan(needle@, src.read()) is Running) ==> src.read().len() > 0
                && connection_scan(needle@, src.read().drop_last()) is Running,
        decreases budget,
    {
        budget = budget - 1;
        let ghost before = src.read();
        match scan_next(src) {
            None => {
                at_end = true;
            },
            Some(Err(e)) => {
                return Err(DbError::Storage(e));
            },
            Some(Ok((key, value))) => {
                proof {
                    assert(src.read().drop_last() =~= before);
                    lemma_scan_order_push(src.start(), before, src.read());
                }
                scan.feed(key, value);
            },
        }
    }
    let r = match scan.finish() {
        Ok(found) => Ok(found),
        Err(e) => Err(DbError::Key(e)),
    };
    proof {
        let seen = src.read();
        if !(connection_scan(needle@, seen) is Failed) {
            lemma_connection_scan_collects(needle@, seen);
        }
        if connection_scan(needle@, seen) is Stopped && text_fits(needle@) && src.start()
            == key_bytes(KeyView::ConnectionsByUserId { user_id: needle@ }).drop_last() {
            let k = seen.last().0;
            assert(bytes_le(src.start(), seen[seen.len() - 1].0));
            assert forall|id: Seq<char>|
                #[trigger] bytes_lt(key_bytes(KeyView::Connection { user_id: needle@, id }), k) by {
                lemma_connection_stop_after_all(needle@, id, k);
            }
        }
    }
    r
}

/// The bytes of `key`.
fn slot_of(key: &Key) -> (b: Vec<u8>)
    ensures
        b@ == key_bytes(key@),
{
    match key.serialize() {
        Ok(bytes) => bytes,
        Err(_) => Vec::new(),
    }
}

/// The slot of a requester.
pub fn requester_slot(user_login: &str) -> (b: Vec<u8>)
    ensures
        b@ == key_bytes(KeyView::Requester { user_login: user_login@ }),
{
    slot_of(&Key::Requester { user_login: user_login.to_owned() })
}

/// The slot of a user.
pub fn user_slot(user_id: &str) -> (b: Vec<u8>)
    ensures
        b@ == key_bytes(KeyView::User { user_id: user_id@ }),
{
    slot_of(&Key::User { user_id: user_id.to_owned() })
}

/// The slot of the key assigned to a user.
pub fn user_key_slot(user_id: &str) -> (b: Vec<u8>)
    ensures
        b@ == key_bytes(KeyView::UserIdToKey { user_id: user_id@ }),
{
    slot_of(&Key::UserIdToKey { user_id: user_id.to_owned() })
}

/// The slot of the user a key belongs to.
pub fn key_owner_slot(key: &str) -> (b: Vec<u8>)
    ensures
        b@ == key_bytes(KeyView::KeyToUserId { key: key@ }),
{
    slot_of(&Key::KeyToUserId { key: key.to_owned() })
}

/// The slot of a connection of a user.
pub fn connection_slot(user_id: &str, id: &str) -> (b: Vec<u8>)
    ensures
        b@ == key_bytes(KeyView::Connection { user_id: user_id@, id: id@ }),
{
    slot_of(&Key::Connection { user_id: user_id.to_owned(), id: id.to_owned() })
}

/// The slot of the releases of a repository of a requester.
pub fn releases_slot(user: &str, repo: &str) -> (b: Vec<u8>)
    ensures
        b@ == key_bytes(KeyView::RequesterReleases { user: user@, repo: repo@ }),
{
    slot_of(&Key::requesterReleases { user: user.to_owned(), repo: repo.to_owned() })
}

/// Where a scan over requesters starts.
pub fn requesters_scan_start() -> (b: Vec<u8>)
    ensures
        b@ == key_bytes(KeyView::Requesters).drop_last(),
{
    scan_prefix(&Key::Requesters)
}

/// Where a scan over the connections of a user starts.
pub fn connections_scan_start(user_id: &str) -> (b: Vec<u8>)
    ensures
        b@ == key_bytes(KeyView::ConnectionsByUserId { user_id: user_id@ }).drop_last(),
{
    scan_prefix(&Key::ConnectionsByUserId { user_id: user_id.to_owned() })
}

/// The user slot to read after reading the slot of the user a key belongs
/// to: that of the user id stored there, when the stored value holds one.
pub fn owner_user_slot(stored: Option<Vec<u8>>) -> (slot: Option<Vec<u8>>)
    ensures
        match stored {
            None => slot is None,
            Some(bytes) => match item_text(bytes@) {
                None => slot is None,
                Some(user_id) => slot matches Some(s) && s@ == key_bytes(
                    KeyView::User { user_id },
                ),
            },
        },
{
    match decode_string_value(stored) {
        Some(user_id) => Some(user_slot(user_id.as_str())),
        None => None,
    }
}

/// The writes that assign `key` to `user_id`, in order: the key, as a CBOR
/// text string, under the user's key slot; the user id under the key's slot.
pub open spec fn key_link_writes(user_id: Seq<char>, key: Seq<char>) -> Seq<OperationView> {
    seq![
        OperationView::Insert(key_bytes(KeyView::UserIdToKey { user_id }), text_item(key)),
        OperationView::Insert(key_bytes(KeyView::KeyToUserId { key }), text_item(user_id)),
    ]
}

/// The writes that take `key` away from `user_id`: the removal of the
/// user's key slot and of the key's slot.
pub open spec fn key_unlink_writes(user_id: Seq<char>, key: Seq<char>) -> Seq<OperationView> {
    seq![
        OperationView::Remove(key_bytes(KeyView::UserIdToKey { user_id })),
        OperationView::Remove(key_bytes(KeyView::KeyToUserId { key })),
    ]
}

/// What the writes of assigning a key leave, whatever was written before
/// them: the user's key slot holds an item that decodes to the key, the
/// key's slot an item from which [`owner_user_slot`] reads the user's slot,
/// and every other slot is as it was. Taking the key away afterwards, with
/// the key read back from the user's key slot, leaves both slots removed.
pub proof fn lemma_key_link_read_back(
    user_id: Seq<char>,
    key: Seq<char>,
    w: Map<Seq<u8>, Option<Seq<u8>>>,
    other: Seq<u8>,
)
    requires
        text_fits(user_id),
        text_fits(key),
    ensures
        ({
            let linked = apply_writes(w, key_link_writes(user_id, key));
            &&& linked[key_bytes(KeyView::UserIdToKey { user_id })] matches Some(v)
                && item_text(v) == Some(key)
            &&& linked[key_bytes(KeyView::KeyToUserId { key })] matches Some(v)
                && item_text(v) == Some(user_id)
            &&& other != key_bytes(KeyView::UserIdToKey { user_id }) && other != key_bytes(
                KeyView::KeyToUserId { key },
            ) ==> linked.dom().contains(other) == w.dom().contains(other) && linked[other]
                == w[other]
            &&& apply_writes(linked, key_unlink_writes(user_id, key))[key_bytes(
                KeyView::UserIdToKey { user_id },
            )] == None::<Seq<u8>>
            &&& apply_writes(linked, key_unlink_writes(user_id, key))[key_bytes(
                KeyView::KeyToUserId { key },
            )] == None::<Seq<u8>>
        }),
{
    let a = key_bytes(KeyView::UserIdToKey { user_id });
    let b = key_bytes(KeyView::KeyToUserId { key });
    lemma_item_text(key);
    lemma_item_text(user_id);
    if a == b {
        lemma_known_key_bytes_distinct(
            KeyView::UserIdToKey { user_id },
            KeyView::KeyToUserId { key },
        );
    }
    let links = key_link_writes(user_id, key);
    assert(links.drop_last() =~= seq![links[0]]);
    assert(seq![links[0]].drop_last() =~= Seq::<OperationView>::empty());
    let unlinks = key_unlink_writes(user_id, key);
    assert(unlinks.drop_last() =~= seq![unlinks[0]]);
    assert(seq![unlinks[0]].drop_last() =~= Seq::<OperationView>::empty());
    let linked = apply_writes(w, links);
    let one = seq![links[0]];
    assert(one.last() == links[0]);
    assert(apply_writes(w, one.drop_last()) == w);
    assert(apply_writes(w, one) == write_of(w, links[0]));
    assert(linked == write_of(write_of(w, links[0]), links[1]));
    let first = seq![unlinks[0]];
    assert(first.last() == unlinks[0]);
    assert(apply_writes(linked, first.drop_last()) == linked);
    assert(apply_writes(linked, first) == write_of(linked, unlinks[0]));
    assert(apply_writes(linked, unlinks) == write_of(write_of(linked, unlinks[0]), unlinks[1]));
}

/// The writes that assign `key` to `user_id`: the key under the user's slot,
/// and the user id under the key's slot, each as a CBOR text string.
pub fn key_link_ops(user_id: &str, key: &str) -> (ops: Vec<Operation>)
    ensures
        ops_view(ops@) == key_link_writes(user_id@, key@),
{
    let mut ops: Vec<Operation> = Vec::new();
    ops.push(Operation::Insert(user_key_slot(user_id), encode_text(key)));
    ops.push(Operation::Insert(key_owner_slot(key), encode_text(user_id)));
    proof {
        assert(ops_view(ops@) =~= key_link_writes(user_id@, key@));
    }
    ops
}

/// The writes that take the key of `user_id` away, given what the user's
/// key slot holds: none when it holds nothing or no string; otherwise the
/// removal of the user's key slot and of the slot of the key it holds.
pub fn key_unlink_ops(user_id: &str, stored: Option<Vec<u8>>) -> (ops: Vec<Operation>)
    ensures
        match stored {
            None => ops@.len() == 0,
            Some(bytes) => match item_text(bytes@) {
                None => ops@.len() == 0,
                Some(key) => ops_view(ops@) == key_unlink_writes(user_id@, key),
            },
        },
{
    let mut ops: Vec<Operation> = Vec::new();
    match decode_string_value(stored) {
        Some(key) => {
            ops.push(Operation::Remove(user_key_slot(user_id)));
            ops.push(Operation::Remove(key_owner_slot(key.as_str())));
            proof {
                assert(ops_view(ops@) =~= key_unlink_writes(user_id@, key@));
            }
        },
        None => {},
    }
    ops
}

/// `Clone` of `sled::Tree`: a second handle on the same tree. Nothing is
/// stated of it, since the tree's contents are not modelled.
pub assume_specification[<sled::Tree as std::clone::Clone>::clone](tree: &sled::Tree) -> sled::Tree;

/// Some entries, in the order a scan from the start of the requester keys
/// gives them, make a scan over requesters end with `found`.
pub open spec fn requesters_scanned(found: Seq<(Seq<char>, Seq<u8>)>) -> bool {
    exists|seen: Seq<(Seq<u8>, Seq<u8>)>|
        scan_order(key_bytes(KeyView::Requesters).drop_last(), seen) && (#[trigger] requester_scan(
            seen,
        ) == ScanState::Running(found) || requester_scan(seen) == ScanState::Stopped(found))
}

/// Some entries, in scan order from the start of the requester keys, make a
/// scan over requesters meet the key error `k`.
pub open spec fn requesters_scan_failed(k: KeyError) -> bool {
    exists|seen: Seq<(Seq<u8>, Seq<u8>)>|
        scan_order(key_bytes(KeyView::Requesters).drop_last(), seen) && #[trigger] requester_scan(
            seen,
        ) == ScanState::<(Seq<char>, Seq<u8>)>::Failed(k)
}

/// Some entries, in the order a scan from the start of `needle`'s connection
/// keys gives them, make a scan over `needle`'s connections end with `found`.
pub open spec fn connections_scanned(needle: Seq<char>, found: Seq<Seq<u8>>) -> bool {
    exists|seen: Seq<(Seq<u8>, Seq<u8>)>|
        scan_order(key_bytes(KeyView::ConnectionsByUserId { user_id: needle }).drop_last(), seen)
            && (#[trigger] connection_scan(needle, seen) == ScanState::Running(found)
            || connection_scan(needle, seen) == ScanState::Stopped(found))
}

/// Some entries, in scan order from the start of `needle`'s connection keys,
/// make a scan over `needle`'s connections meet the key error `k`.
pub open spec fn connections_scan_failed(needle: Seq<char>, k: KeyError) -> bool {
    exists|seen: Seq<(Seq<u8>, Seq<u8>)>|
        scan_order(key_bytes(KeyView::ConnectionsByUserId { user_id: needle }).drop_last(), seen)
            && #[trigger] connection_scan(needle, seen) == ScanState::<Seq<u8>>::Failed(k)
}

/// A handle on the tree that holds the records. Clones share the tree.
#[derive(Clone)]
pub struct Database {
    tree: sled::Tree,
}

impl Database {
    /// The tree this handle works on.
    pub closed spec fn tree(&self) -> sled::Tree {
        self.tree
    }

    /// Open a new database instance.
    pub fn load(tree: sled::Tree) -> (r: Result<Database, DbError>)
        ensures
            r is Ok,
            r matches Ok(db) ==> db.tree() == tree,
    {
        Ok(Database { tree })
    }

    /// Run the given set of operations in a transaction: one on this
    /// database's tree, with no writes yet.
    fn transaction(&self) -> (tx: Transaction<'_>)
        ensures
            tx.pending() == Seq::<OperationView>::empty(),
            tx.tree() == self.tree(),
    {
        let tx = Transaction { tree: &self.tree, ops: Vec::new() };
        proof {
            assert(ops_view(tx.ops@) =~= Seq::<OperationView>::empty());
        }
        tx
    }

    /// Store `value` in the slot `slot`.
    fn insert(&self, slot: Vec<u8>, value: Vec<u8>) -> (r: Result<(), DbError>)
        ensures
            r matches Err(e) ==> e is Storage,
    {
        match tree_insert(&self.tree, slot, value) {
            Ok(()) => Ok(()),
            Err(e) => Err(DbError::Storage(e)),
        }
    }

    /// Empty the slot `slot`.
    fn remove(&self, slot: Vec<u8>) -> (r: Result<(), DbError>)
        ensures
            r matches Err(e) ==> e is Storage,
    {
        match tree_remove(&self.tree, slot) {
            Ok(()) => Ok(()),
            Err(e) => Err(DbError::Storage(e)),
        }
    }

    /// Get the value in the slot `slot`.
    fn get(&self, slot: &[u8]) -> (r: Result<Option<Vec<u8>>, DbError>)
        ensures
            r matches Err(e) ==> e is Storage,
    {
        match tree_get(&self.tree, slot) {
            Ok(value) => Ok(value),
            Err(e) => Err(DbError::Storage(e)),
        }
    }

    /// Get the value in the slot `slot`, when there is a slot to read: with
    /// none, the answer is that there is no value.
    fn get_if(&self, slot: Option<Vec<u8>>) -> (r: Result<Option<Vec<u8>>, DbError>)
        ensures
            slot is None ==> r matches Ok(None),
            r matches Err(e) ==> e is Storage,
    {
        match slot {
            Some(slot) => self.get(slot.as_slice()),
            None => Ok(None),
        }
    }

    /// Commit the writes of `ops` together; with none, nothing is written
    /// and the call succeeds.
    fn commit_ops(&self, ops: Vec<Operation>) -> (r: Result<(), DbError>)
        ensures
            ops@.len() == 0 ==> r is Ok,
            r matches Err(e) ==> e is Commit,
    {
        if ops.len() == 0 {
            return Ok(());
        }
        let mut tx = self.transaction();
        tx.push_ops(ops);
        match tx.commit() {
            Ok(()) => Ok(()),
            Err(_) => Err(DbError::Commit),
        }
    }

    /// Get information on the given user: the requesters that
    /// [`collect_requesters`] collects from a scan of the tree from
    /// [`requesters_scan_start`], with the bytes stored for each.
    pub fn list_Requesters(&self) -> (r: Result<Vec<StoredRequester>, DbError>)
        ensures
            r matches Ok(found) ==> requesters_scanned(requester_views(found@)),
            r matches Err(e) ==> e is Storage || (e matches DbError::Key(k)
                && requesters_scan_failed(k)),
    {
        let mut tree_scan = scan_tree(&self.tree, requesters_scan_start());
        let r = collect_requesters(&mut tree_scan);
        proof {
            let seen = tree_scan.read();
            assert(r matches Ok(found) ==> (requester_scan(seen) == ScanState::Running(
                requester_views(found@),
            ) || requester_scan(seen) == ScanState::Stopped(requester_views(found@))));
            assert(r matches Err(DbError::Key(k)) ==> requester_scan(seen) == ScanState::<
                (Seq<char>, Seq<u8>),
            >::Failed(k));
        }
        r
    }

    /// Get data for a single Requester.
    pub fn get_Requester(&self, user_login: &str) -> (r: Result<Option<Vec<u8>>, DbError>)
        ensures
            r matches Err(e) ==> e is Storage,
    {
        self.get(requester_slot(user_login).as_slice())
    }

    /// Store the data of a single Requester.
    pub fn insert_Requester(&self, user_login: &str, requester: Vec<u8>) -> (r: Result<(), DbError>)
        ensures
            r matches Err(e) ==> e is Storage,
    {
        self.insert(requester_slot(user_login), requester)
    }

    /// Store information on the given user.
    pub fn insert_user(&self, user_id: &str, user: Vec<u8>) -> (r: Result<(), DbError>)
        ensures
            r matches Err(e) ==> e is Storage,
    {
        self.insert(user_slot(user_id), user)
    }

    /// Get information on the given user.
    pub fn get_user(&self, user_id: &str) -> (r: Result<Option<Vec<u8>>, DbError>)
        ensures
            r matches Err(e) ==> e is Storage,
    {
        self.get(user_slot(user_id).as_slice())
    }

    /// Get the current key by the specified user.
    pub fn get_key(&self, user_id: &str) -> (r: Result<Option<String>, DbError>)
        ensures
            r matches Err(e) ==> e is Storage,
            r matches Ok(Some(k)) ==> exists|b: Seq<u8>| #[trigger] item_text(b) == Some(k@),
    {
        let value = self.get(user_key_slot(user_id).as_slice())?;
        let ghost stored = value;
        let decoded = decode_string_value(value);
        proof {
            if decoded is Some {
                let bytes = stored.unwrap();
                assert(item_text(bytes@) == Some(decoded.unwrap()@));
            }
        }
        Ok(decoded)
    }

    /// Get the user that corresponds to the given key: read the key's slot,
    /// then the user slot that [`owner_user_slot`] gives for what it holds.
    pub fn get_user_by_key(&self, key: &str) -> (r: Result<Option<Vec<u8>>, DbError>)
        ensures
            r matches Err(e) ==> e is Storage,
    {
        let value = self.get(key_owner_slot(key).as_slice())?;
        self.get_if(owner_user_slot(value))
    }

    /// Store the given key: commit the writes of [`key_link_ops`] together.
    pub fn insert_key(&self, user_id: &str, key: &str) -> (r: Result<(), DbError>)
        ensures
            r matches Err(e) ==> e is Commit,
    {
        self.commit_ops(key_link_ops(user_id, key))
    }

    /// Delete the key associated with the specified user: read the user's
    /// key slot, then commit the writes of [`key_unlink_ops`] for what it
    /// holds; when there are none, nothing is written and the call succeeds.
    pub fn delete_key(&self, user_id: &str) -> (r: Result<(), DbError>)
        ensures
            r matches Err(e) ==> e is Storage || e is Commit,
    {
        let value = self.get(user_key_slot(user_id).as_slice())?;
        self.commit_ops(key_unlink_ops(user_id, value))
    }

    /// Get the connection with the specified ID.
    pub fn get_connection(&self, user_id: &str, id: &str) -> (r: Result<Option<Vec<u8>>, DbError>)
        ensures
            r matches Err(e) ==> e is Storage,
    {
        self.get(connection_slot(user_id, id).as_slice())
    }

    /// Add the specified connection, stored under its id.
    pub fn add_connection(&self, user_id: &str, connection_id: &str, connection: Vec<u8>) -> (r:
        Result<(), DbError>)
        ensures
            r matches Err(e) ==> e is Storage,
    {
        self.insert(connection_slot(user_id, connection_id), connection)
    }

    /// Delete the specified connection.
    pub fn delete_connection(&self, user_id: &str, id: &str) -> (r: Result<(), DbError>)
        ensures
            r matches Err(e) ==> e is Storage,
    {
        self.remove(connection_slot(user_id, id))
    }

    /// Get all connections for the specified user: the bytes stored for each
    /// connection that [`collect_connections`] collects from a scan of the
    /// tree from [`connections_scan_start`].
    pub fn connections_by_user(&self, needle_user_id: &str) -> (r: Result<Vec<Vec<u8>>, DbError>)
        ensures
            r matches Ok(found) ==> connections_scanned(needle_user_id@, views(found@)),
            r matches Err(e) ==> e is Storage || (e matches DbError::Key(k)
                && connections_scan_failed(needle_user_id@, k)),
    {
        let mut tree_scan = scan_tree(&self.tree, connections_scan_start(needle_user_id));
        let r = collect_connections(&mut tree_scan, needle_user_id);
        proof {
            let seen = tree_scan.read();
            assert(r matches Ok(found) ==> (connection_scan(needle_user_id@, seen)
                == ScanState::Running(views(found@)) || connection_scan(needle_user_id@, seen)
                == ScanState::Stopped(views(found@))));
            assert(r matches Err(DbError::Key(k)) ==> connection_scan(needle_user_id@, seen)
                == ScanState::<Seq<u8>>::Failed(k));
        }
        r
    }

    /// Get all requester releases associated with the specified repository.
    pub fn get_requester_releases(&self, user: &str, repo: &str) -> (r: Result<
        Option<Vec<u8>>,
        DbError,
    >)
        ensures
            r matches Err(e) ==> e is Storage,
    {
        self.get(releases_slot(user, repo).as_slice())
    }

    /// Write the current requester releases.
    pub fn write_requester_releases(&self, user: &str, repo: &str, releases: Vec<u8>) -> (r:
        Result<(), DbError>)
        ensures
            r matches Err(e) ==> e is Storage,
    {
        self.insert(releases_slot(user, repo), releases)
    }
}

} // verus!
