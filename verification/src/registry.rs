//! The registration tables behind the bridge's dynamic setup API.
//!
//! An open-ended set of row and result types each need a queue of their
//! own, without the host's configuration naming every type up front. The
//! host assigns each type a stable numeric identifier; `ChannelRegistry`
//! maps identifiers to queue handles, creating a handle on first request
//! and returning the same handle ever after. Distinct identifiers always
//! get distinct handles, so recovering a queue by handle cannot confuse
//! two types.
//!
//! `ReconcilerRegistry` guards the per-cycle view reconciliation: at most
//! one reconciliation process may be installed per row-type/key-type pair,
//! and a second attempt is reported as a fatal configuration error rather
//! than silently coexisting, since two reconcilers would double-consume
//! the buffered stream.

use vstd::prelude::*;

use crate::key_map::KeyMap;

verus! {

/// A fatal configuration error raised during registration.
#[derive(Debug, Clone, Copy, PartialEq, Eq, Structural)]
pub enum RegistryError {
    /// A reconciliation process is already installed for this
    /// row-type/key-type pair.
    DuplicateReconciler,
}

/// Maps a per-type identifier to the handle of that type's queue.
///
/// Handles are issued densely from zero, so the host can keep the actual
/// queue endpoints in a vector indexed by handle.
pub struct ChannelRegistry {
    channels: KeyMap<usize>,
}

impl View for ChannelRegistry {
    type V = Map<u64, usize>;

    closed spec fn view(&self) -> Map<u64, usize> {
        self.channels@
    }
}

impl ChannelRegistry {
    #[verifier::type_invariant]
    spec fn wf(self) -> bool {
        &&& self.channels@.dom().finite()
        &&& forall|k: u64| #[trigger]
            self.channels@.dom().contains(k) ==> self.channels@[k] < self.channels@.dom().len()
        &&& forall|k1: u64, k2: u64|
            self.channels@.dom().contains(k1) && self.channels@.dom().contains(k2) && k1 != k2
                ==> self.channels@[k1] != self.channels@[k2]
    }

    /// An empty registry.
    pub fn new() -> (r: Self)
        ensures
            r@ == Map::<u64, usize>::empty(),
    {
        let channels = KeyMap::<usize>::new();
        proof {
            broadcast use vstd::set::group_set_axioms;

            assert(channels@.dom() =~= Set::<u64>::empty());
        }
        ChannelRegistry { channels }
    }

    /// The handle for `type_key`, creating a fresh one on first request.
    ///
    /// Returns the handle and whether it was created by this call. A
    /// created handle equals the number of handles issued before it, and
    /// differs from every handle issued earlier.
    pub fn channel_for(&mut self, type_key: u64) -> (r: (usize, bool))
        ensures
            old(self)@.dom().contains(type_key) ==> !r.1 && r.0 == old(self)@[type_key]
                && final(self)@ == old(self)@,
            !old(self)@.dom().contains(type_key) ==> r.1 && final(self)@ == old(self)@.insert(
                type_key,
                r.0,
            ) && (forall|k: u64| #[trigger]
                old(self)@.dom().contains(k) ==> old(self)@[k] != r.0),
    {
        proof {
            use_type_invariant(&*self);
        }
        let mut channels = KeyMap::<usize>::new();
        proof {
            assert(channels@.dom() =~= Set::<u64>::empty());
        }
        core::mem::swap(&mut channels, &mut self.channels);
        let existing = match channels.get(type_key) {
            Some(h) => Some(*h),
            None => None,
        };
        match existing {
            Some(h) => {
                self.channels = channels;
                (h, false)
            },
            None => {
                let h = channels.len();
                proof {
                    broadcast use vstd::set::group_set_axioms;

                    let inserted = channels@.insert(type_key, h);
                    assert(inserted.dom() =~= channels@.dom().insert(type_key));
                    assert(inserted.dom().len() == channels@.dom().len() + 1);
                    assert forall|k: u64| #[trigger]
                        inserted.dom().contains(k) implies inserted[k] < inserted.dom().len() by {
                        if k != type_key {
                            assert(channels@.dom().contains(k));
                        }
                    }
                    assert forall|k1: u64, k2: u64|
                        inserted.dom().contains(k1) && inserted.dom().contains(k2) && k1
                            != k2 implies inserted[k1] != inserted[k2] by {
                        if k1 != type_key && k2 != type_key {
                            assert(channels@.dom().contains(k1));
                            assert(channels@.dom().contains(k2));
                        } else if k1 == type_key {
                            assert(channels@.dom().contains(k2));
                        } else {
                            assert(channels@.dom().contains(k1));
                        }
                    }
                }
                channels.insert(type_key, h);
                self.channels = channels;
                (h, true)
            },
        }
    }

    /// The handle for `type_key`, if one was issued. A found handle
    /// belongs to no other type identifier, so recovering a queue through
    /// it cannot confuse two types.
    pub fn lookup(&self, type_key: u64) -> (r: Option<usize>)
        ensures
            (match r {
                Some(h) => self@.dom().contains(type_key) && h == self@[type_key] && (forall|
                    k2: u64,
                |
                    #[trigger] self@.dom().contains(k2) && k2 != type_key ==> self@[k2] != h),
                None => !self@.dom().contains(type_key),
            }),
    {
        proof {
            use_type_invariant(self);
        }
        match self.channels.get(type_key) {
            Some(h) => Some(*h),
            None => None,
        }
    }

    /// The number of handles issued so far.
    pub fn len(&self) -> (n: usize)
        ensures
            n == self@.dom().len(),
    {
        self.channels.len()
    }

}

/// Records which row-type/key-type pairs already carry a reconciliation
/// process. Its view is the set of registered pair identifiers.
pub struct ReconcilerRegistry {
    installed: KeyMap<()>,
}

impl View for ReconcilerRegistry {
    type V = Set<u64>;

    closed spec fn view(&self) -> Set<u64> {
        self.installed@.dom()
    }
}

impl ReconcilerRegistry {
    /// An empty registry.
    pub fn new() -> (r: Self)
        ensures
            r@ == Set::<u64>::empty(),
    {
        let installed = KeyMap::<()>::new();
        proof {
            assert(installed@.dom() =~= Set::<u64>::empty());
        }
        ReconcilerRegistry { installed }
    }

    /// Whether a reconciliation process is installed for `pair_key`.
    pub fn is_registered(&self, pair_key: u64) -> (r: bool)
        ensures
            r == self@.contains(pair_key),
    {
        self.installed.contains_key(pair_key)
    }

    /// Claims `pair_key` for a new reconciliation process.
    ///
    /// Succeeds exactly when the pair is not yet registered; a duplicate
    /// registration is a fatal configuration error and leaves the
    /// registry unchanged.
    pub fn register_pair(&mut self, pair_key: u64) -> (r: Result<(), RegistryError>)
        ensures
            r is Ok <==> !old(self)@.contains(pair_key),
            r is Ok ==> final(self)@ == old(self)@.insert(pair_key),
            r is Err ==> final(self)@ == old(self)@ && r == Err::<(), RegistryError>(
                RegistryError::DuplicateReconciler,
            ),
    {
        if self.installed.contains_key(pair_key) {
            Err(RegistryError::DuplicateReconciler)
        } else {
            self.installed.insert(pair_key, ());
            proof {
                assert(self.installed@.dom() =~= old(self)@.insert(pair_key));
            }
            Ok(())
        }
    }
}

} // verus!
