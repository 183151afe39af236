//! A unit of work on the persistent store, with its state checked at run time.
//!
//! Every mutation of the caches happens inside one transaction; a transaction
//! ends exactly once, by a commit or a rollback.
use vstd::prelude::*;

verus! {

/// Where a transaction stands.
#[derive(Clone, Copy, Debug, PartialEq, Eq, Structural)]
pub enum TransactionState {
    Open,
    Committed,
    RolledBack,
}

/// A transaction can end only while it is open.
#[derive(Clone, Copy, Debug, PartialEq, Eq, Structural)]
pub enum TransactionError {
    NotOpen,
}

/// The handle of one transaction.
pub struct Transaction {
    state: TransactionState,
}

impl Transaction {
    pub closed spec fn state_spec(&self) -> TransactionState {
        self.state
    }

    /// Begins a transaction.
    pub fn begin() -> (r: Transaction)
        ensures
            r.state_spec() == TransactionState::Open,
    {
        Transaction { state: TransactionState::Open }
    }

    pub fn state(&self) -> (r: TransactionState)
        ensures
            r == self.state_spec(),
    {
        self.state
    }

    pub fn is_open(&self) -> (r: bool)
        ensures
            r == (self.state_spec() == TransactionState::Open),
    {
        self.state == TransactionState::Open
    }

    /// Commits an open transaction; one that has ended stays as it is.
    pub fn commit(&mut self) -> (r: Result<(), TransactionError>)
        ensures
            old(self).state_spec() == TransactionState::Open ==> r is Ok && final(self).state_spec()
                == TransactionState::Committed,
            old(self).state_spec() != TransactionState::Open ==> r == Err::<(), TransactionError>(
                TransactionError::NotOpen,
            ) && final(self).state_spec() == old(self).state_spec(),
    {
        if self.state == TransactionState::Open {
            self.state = TransactionState::Committed;
            Ok(())
        } else {
            Err(TransactionError::NotOpen)
        }
    }

    /// Rolls back an open transaction; one that has ended stays as it is.
    pub fn rollback(&mut self) -> (r: Result<(), TransactionError>)
        ensures
            old(self).state_spec() == TransactionState::Open ==> r is Ok && final(self).state_spec()
                == TransactionState::RolledBack,
            old(self).state_spec() != TransactionState::Open ==> r == Err::<(), TransactionError>(
                TransactionError::NotOpen,
            ) && final(self).state_spec() == old(self).state_spec(),
    {
        if self.state == TransactionState::Open {
            self.state = TransactionState::RolledBack;
            Ok(())
        } else {
            Err(TransactionError::NotOpen)
        }
    }

    /// Ends the transaction on every exit path: commits it if the work
    /// succeeded, rolls it back if not; returns whether it was still open.
    pub fn finish(&mut self, succeeded: bool) -> (r: Result<(), TransactionError>)
        ensures
            old(self).state_spec() == TransactionState::Open ==> r is Ok && final(self).state_spec()
                == if succeeded {
                TransactionState::Committed
            } else {
                TransactionState::RolledBack
            },
            old(self).state_spec() != TransactionState::Open ==> r == Err::<(), TransactionError>(
                TransactionError::NotOpen,
            ) && final(self).state_spec() == old(self).state_spec(),
    {
        if succeeded {
            self.commit()
        } else {
            self.rollback()
        }
    }
}

} // verus!
