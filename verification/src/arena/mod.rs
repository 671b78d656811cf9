//! The node arena: storage keyed by identity, plus identity issuance.
//!
//! The arena knows nothing about the shape of the structures built on it. It
//! keeps every node under the identity the node reports for itself, and it
//! issues identities from a counter that only ever grows.

use std::collections::HashMap;
use vstd::prelude::*;

verus! {

broadcast use vstd::std_specs::hash::group_hash_axioms;

/// The identity of a node: issued once, never reused.
pub type Id = usize;

/// Why an arena operation was refused.
#[derive(Clone, Copy, Debug, PartialEq, Eq, Structural)]
pub enum ArenaError {
    /// A node is already stored under the identity of the node to add.
    DuplicateIdentity,
    /// No node is stored under the given identity.
    NotFound,
}

/// A value that carries the identity it is stored under.
pub trait HasId: Sync + Send {
    /// The identity of this value.
    spec fn ident(&self) -> Id;

    /// Returns the identity of this value.
    fn get_id(&self) -> (id: Id)
        ensures
            id == self.ident(),
    ;
}

impl HasId for usize {
    open spec fn ident(&self) -> Id {
        *self
    }

    fn get_id(&self) -> (id: Id) {
        *self
    }
}

/// Storage of nodes by identity, together with the issuing of identities.
pub trait IsMemoryArena {
    /// The type of the stored nodes.
    type Node: HasId;

    /// The stored nodes, by identity.
    spec fn nodes(&self) -> Map<Id, Self::Node>;

    /// How many identities have been issued so far. The identities issued are
    /// exactly the numbers below this count.
    spec fn issued(&self) -> nat;

    /// Every node is stored under the identity it reports.
    spec fn wf(&self) -> bool;

    /// The count of issued identities is itself an identity.
    proof fn lemma_issued_in_range(&self)
        ensures
            self.issued() <= usize::MAX,
    ;

    /// Looks a node up by identity.
    fn get_node(&self, id: &Id) -> (node: Option<&Self::Node>)
        requires
            self.wf(),
        ensures
            match node {
                Some(n) => self.nodes().contains_key(*id) && *n == self.nodes()[*id],
                None => !self.nodes().contains_key(*id),
            },
    ;

    /// Stores `node` under its own identity, unless that identity is taken.
    fn add_node(&mut self, node: Self::Node) -> (res: Result<(), ArenaError>)
        requires
            old(self).wf(),
        ensures
            final(self).wf(),
            final(self).issued() == old(self).issued(),
            match res {
                Ok(_) => {
                    &&& !old(self).nodes().contains_key(node.ident())
                    &&& final(self).nodes() == old(self).nodes().insert(node.ident(), node)
                },
                Err(e) => {
                    &&& e == ArenaError::DuplicateIdentity
                    &&& old(self).nodes().contains_key(node.ident())
                    &&& final(self).nodes() == old(self).nodes()
                },
            },
    ;

    /// Removes the node stored under `id` and hands it back.
    fn take_node(&mut self, id: &Id) -> (node: Option<Self::Node>)
        requires
            old(self).wf(),
        ensures
            final(self).wf(),
            final(self).issued() == old(self).issued(),
            final(self).nodes() == old(self).nodes().remove(*id),
            match node {
                Some(n) => old(self).nodes().contains_key(*id) && n == old(self).nodes()[*id],
                None => !old(self).nodes().contains_key(*id),
            },
    ;

    /// Removes the node stored under `id`.
    fn delete_node(&mut self, id: &Id) -> (res: Result<(), ArenaError>)
        requires
            old(self).wf(),
        ensures
            final(self).wf(),
            final(self).issued() == old(self).issued(),
            final(self).nodes() == old(self).nodes().remove(*id),
            match res {
                Ok(_) => old(self).nodes().contains_key(*id),
                Err(e) => e == ArenaError::NotFound && !old(self).nodes().contains_key(*id),
            },
    ;

    /// Issues a fresh identity: the least number not issued before.
    fn get_new_id(&mut self) -> (id: Id)
        requires
            old(self).wf(),
            old(self).issued() < usize::MAX,
        ensures
            final(self).wf(),
            id == old(self).issued(),
            final(self).issued() == old(self).issued() + 1,
            final(self).nodes() == old(self).nodes(),
    ;
}

/// An arena that keeps its nodes in a hash map keyed by identity.
pub struct Arena<T> {
    storage: HashMap<Id, T>,
    id_counter: usize,
}

impl<T: HasId> Arena<T> {
    /// Creates an empty arena that has issued no identity yet.
    pub fn new() -> (arena: Self)
        ensures
            arena.wf(),
            arena.nodes() == Map::<Id, T>::empty(),
            arena.issued() == 0,
    {
        Self { storage: HashMap::new(), id_counter: 0 }
    }

    /// How many identities can still be issued.
    pub fn remaining_ids(&self) -> (n: usize)
        ensures
            n == usize::MAX - self.issued(),
    {
        usize::MAX - self.id_counter
    }
}

impl<T: HasId> IsMemoryArena for Arena<T> {
    type Node = T;

    closed spec fn nodes(&self) -> Map<Id, T> {
        self.storage@
    }

    closed spec fn issued(&self) -> nat {
        self.id_counter as nat
    }

    closed spec fn wf(&self) -> bool {
        forall|id: Id| #[trigger] self.storage@.contains_key(id) ==> self.storage@[id].ident() == id
    }

    proof fn lemma_issued_in_range(&self) {
    }

    fn get_node(&self, id: &Id) -> (node: Option<&T>) {
        self.storage.get(id)
    }

    fn add_node(&mut self, node: T) -> (res: Result<(), ArenaError>) {
        let id = node.get_id();
        if self.storage.contains_key(&id) {
            return Err(ArenaError::DuplicateIdentity);
        }
        self.storage.insert(id, node);
        Ok(())
    }

    fn take_node(&mut self, id: &Id) -> (node: Option<T>) {
        self.storage.remove(id)
    }

    fn delete_node(&mut self, id: &Id) -> (res: Result<(), ArenaError>) {
        if !self.storage.contains_key(id) {
            return Err(ArenaError::NotFound);
        }
        self.storage.remove(id);
        Ok(())
    }

    fn get_new_id(&mut self) -> (id: Id) {
        let id = self.id_counter;
        self.id_counter = self.id_counter + 1;
        id
    }
}

} // verus!
