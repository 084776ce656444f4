//! Reading the hashed state in key order.

use crate::primitives::{Account, B256, U256};
use vstd::prelude::*;

verus! {

/// A failure to read the hashed state or to access the trie tables.
#[derive(Debug, PartialEq, Eq)]
pub enum DatabaseError {
    /// Any failure, in words.
    Other(String),
}

/// Whether the rows are in strictly ascending order of their keys.
pub open spec fn ascending<V>(rows: Seq<(B256, V)>) -> bool {
    forall|i: int, j: int|
        0 <= i < j < rows.len() ==> (#[trigger] rows[i]).0.before((#[trigger] rows[j]).0)
}

/// The row at `at`, if there is one.
pub open spec fn row_at<V>(rows: Seq<(B256, V)>, at: int) -> Option<(B256, V)> {
    if 0 <= at < rows.len() {
        Some(rows[at])
    } else {
        None
    }
}

/// The hashed state: accounts by hashed address, and per account the slots by hashed slot.
pub struct StateView {
    /// The accounts in key order.
    pub accounts: Seq<(B256, Account)>,
    /// The slots of the accounts that have any, in key order.
    pub storages: Map<B256, Seq<(B256, U256)>>,
}

impl StateView {
    /// The slots of an account.
    pub open spec fn slots(self, hashed_address: B256) -> Seq<(B256, U256)> {
        if self.storages.contains_key(hashed_address) {
            self.storages[hashed_address]
        } else {
            Seq::empty()
        }
    }
}

/// A cursor over rows in key order.
///
/// Of the rows, the position and the failures of a cursor nothing is known but what its type says
/// of them: a verified cursor defines `rows` and `position`, and `fails_with` where it does not fail
/// in every way.
pub trait HashedCursor: Sized {
    /// The value of a row.
    type Value;

    /// The rows.
    open spec fn rows(&self) -> Seq<(B256, Self::Value)> {
        arbitrary()
    }

    /// The index of the row under the cursor.
    open spec fn position(&self) -> int {
        arbitrary()
    }

    /// Whether reading can fail in this way.
    open spec fn fails_with(&self, e: DatabaseError) -> bool {
        true
    }

    /// Moves to the first row whose key is not before `key`, and returns it.
    fn seek(&mut self, key: B256) -> (r: Result<Option<(B256, Self::Value)>, DatabaseError>)
        ensures
            final(self).rows() == old(self).rows(),
            forall|e: DatabaseError| #[trigger]
                final(self).fails_with(e) ==> old(self).fails_with(e),
            r matches Err(e) ==> old(self).fails_with(e),
            r matches Ok(entry) ==> {
                &&& entry == row_at(final(self).rows(), final(self).position())
                &&& 0 <= final(self).position() <= final(self).rows().len()
                &&& forall|i: int|
                    0 <= i < final(self).position() ==> (#[trigger] final(self).rows()[i]).0.before(
                        key,
                    )
                &&& forall|i: int|
                    final(self).position() <= i < final(self).rows().len() ==> !(
                    #[trigger] final(self).rows()[i]).0.before(key)
            },
    ;

    /// Moves to the next row and returns it.
    fn next(&mut self) -> (r: Result<Option<(B256, Self::Value)>, DatabaseError>)
        requires
            0 <= old(self).position() < old(self).rows().len(),
        ensures
            final(self).rows() == old(self).rows(),
            forall|e: DatabaseError| #[trigger]
                final(self).fails_with(e) ==> old(self).fails_with(e),
            r matches Err(e) ==> old(self).fails_with(e),
            r matches Ok(entry) ==> {
                &&& entry == row_at(final(self).rows(), final(self).position())
                &&& final(self).position() == old(self).position() + 1
            },
    ;
}

/// Opens cursors over a hashed state.
///
/// Of the state and the failures of a factory nothing is known but what its type says of them: a
/// verified factory defines `state`, and `fails_with` where it does not fail in every way.
pub trait HashedCursorFactory: Sized {
    /// A cursor over the accounts.
    type AccountCursor: HashedCursor<Value = Account>;

    /// A cursor over the slots of an account.
    type StorageCursor: HashedCursor<Value = U256>;

    /// The state.
    open spec fn state(&self) -> StateView {
        arbitrary()
    }

    /// Whether reading can fail in this way.
    open spec fn fails_with(&self, e: DatabaseError) -> bool {
        true
    }

    /// A cursor over the accounts.
    fn hashed_account_cursor(&self) -> (r: Result<Self::AccountCursor, DatabaseError>)
        ensures
            r matches Err(e) ==> self.fails_with(e),
            r matches Ok(cursor) ==> {
                &&& cursor.rows() == self.state().accounts
                &&& ascending(cursor.rows())
                &&& cursor.rows().len() <= u64::MAX
                &&& forall|e: DatabaseError| #[trigger] cursor.fails_with(e) ==> self.fails_with(e)
            },
    ;

    /// A cursor over the slots of an account.
    fn hashed_storage_cursor(&self, hashed_address: B256) -> (r: Result<
        Self::StorageCursor,
        DatabaseError,
    >)
        ensures
            r matches Err(e) ==> self.fails_with(e),
            r matches Ok(cursor) ==> {
                &&& cursor.rows() == self.state().slots(hashed_address)
                &&& ascending(cursor.rows())
                &&& forall|e: DatabaseError| #[trigger] cursor.fails_with(e) ==> self.fails_with(e)
            },
    ;
}

} // verus!
