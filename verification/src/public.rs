//! Which variables are known to hold cleartext values.

use std::collections::BTreeSet;

use vstd::prelude::*;

use crate::ir::IRVarId;

verus! {

/// The variables that carry cleartext (public) values.
#[derive(Clone, Debug)]
pub struct PublicSet(BTreeSet<u32>);

impl View for PublicSet {
    type V = Set<u32>;

    closed spec fn view(&self) -> Set<u32> {
        self.0@
    }
}

impl PublicSet {
    /// No variable is public.
    pub fn new() -> (r: Self)
        ensures
            r@ == Set::<u32>::empty(),
    {
        PublicSet(BTreeSet::new())
    }

    /// Mark `v` as public.
    pub fn mark_public(&mut self, v: IRVarId)
        ensures
            final(self)@ == old(self)@.insert(v.0),
    {
        self.0.insert(v.0);
    }

    /// Whether `v` is public.
    pub fn is_public(&self, v: IRVarId) -> (r: bool)
        ensures
            r == self@.contains(v.0),
    {
        self.0.contains(&v.0)
    }

    /// If every source is public, mark `dst` as public too. The result says
    /// whether that was so.
    pub fn propagate_if_all_public(&mut self, srcs: &[IRVarId], dst: IRVarId) -> (r: bool)
        ensures
            r == (forall|i: int| 0 <= i < srcs@.len() ==> old(self)@.contains((#[trigger] srcs@[i]).0)),
            final(self)@ == (if r {
                old(self)@.insert(dst.0)
            } else {
                old(self)@
            }),
    {
        let mut i: usize = 0;
        while i < srcs.len()
            invariant
                i <= srcs.len(),
                self@ == old(self)@,
                forall|j: int| 0 <= j < i ==> old(self)@.contains((#[trigger] srcs@[j]).0),
            decreases srcs.len() - i,
        {
            if !self.is_public(srcs[i]) {
                assert(!old(self)@.contains(srcs@[i as int].0));
                return false;
            }
            i += 1;
        }
        self.mark_public(dst);
        true
    }
}

impl Default for PublicSet {
    fn default() -> (r: Self)
        ensures
            r@ == Set::<u32>::empty(),
    {
        PublicSet::new()
    }
}

/// Marking never takes publicness away.
pub proof fn law_marking_is_monotone(s: Set<u32>, v: u32, q: u32)
    requires
        s.contains(q),
    ensures
        s.insert(v).contains(q),
{
}

} // verus!
