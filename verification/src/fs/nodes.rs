//! The entries of the directory cache by number.
use vstd::prelude::*;
use std::collections::BTreeMap;
use crate::fs::dentry::{Dentry, DentryModel};

verus! {

/// Entries by number.
#[verifier::reject_recursive_types(I)]
pub struct Nodes<I> {
    map: BTreeMap<usize, Dentry<I>>,
}

impl<I> View for Nodes<I> {
    type V = Map<usize, DentryModel<I>>;

    closed spec fn view(&self) -> Map<usize, DentryModel<I>> {
        self.map@.map_values(|d: Dentry<I>| d@)
    }
}

impl<I> Nodes<I> {
    /// Every entry is in order.
    pub closed spec fn wf(self) -> bool {
        forall|id: usize| #[trigger] self.map@.contains_key(id) ==> self.map@[id].wf()
    }

    pub fn new() -> (r: Self)
        ensures
            r.wf(),
            r@ == Map::<usize, DentryModel<I>>::empty(),
    {
        let r = Nodes { map: BTreeMap::new() };
        assert(r@ =~= Map::<usize, DentryModel<I>>::empty());
        r
    }

    pub fn get(&self, id: usize) -> (r: Option<&Dentry<I>>)
        requires
            self.wf(),
        ensures
            match r {
                Some(d) => self@.contains_key(id) && self@[id] == d@ && d.wf(),
                None => !self@.contains_key(id),
            },
    {
        broadcast use vstd::std_specs::btree::group_btree_axioms;
        broadcast use vstd::laws_cmp::group_laws_cmp;

        self.map.get(&id)
    }

    pub fn has(&self, id: usize) -> (r: bool)
        requires
            self.wf(),
        ensures
            r == self@.contains_key(id),
    {
        self.get(id).is_some()
    }

    pub fn insert(&mut self, id: usize, d: Dentry<I>)
        requires
            old(self).wf(),
            d.wf(),
        ensures
            final(self).wf(),
            final(self)@ == old(self)@.insert(id, d@),
    {
        broadcast use vstd::std_specs::btree::group_btree_axioms;
        broadcast use vstd::laws_cmp::group_laws_cmp;

        let ghost m = d@;
        self.map.insert(id, d);
        assert(self@ =~= old(self)@.insert(id, m));
    }

    pub fn remove(&mut self, id: usize) -> (r: Option<Dentry<I>>)
        requires
            old(self).wf(),
        ensures
            final(self).wf(),
            final(self)@ == old(self)@.remove(id),
            match r {
                Some(d) => old(self)@.contains_key(id) && old(self)@[id] == d@ && d.wf(),
                None => !old(self)@.contains_key(id),
            },
    {
        broadcast use vstd::std_specs::btree::group_btree_axioms;
        broadcast use vstd::laws_cmp::group_laws_cmp;

        let r = self.map.remove(&id);
        assert(self@ =~= old(self)@.remove(id));
        r
    }
}

} // verus!
