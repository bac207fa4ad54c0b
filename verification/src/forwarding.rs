//! The forwarding map: for each peer that can be reached, the neighbors
//! through which a shortest path to it starts.

use crate::types::PeerId;
use vstd::prelude::*;

verus! {

/// A copy of a list of peers.
pub fn copy_peers(peers: &Vec<PeerId>) -> (copy: Vec<PeerId>)
    ensures
        copy@ == peers@,
{
    let mut copy: Vec<PeerId> = Vec::new();
    let mut i: usize = 0;
    while i < peers.len()
        invariant
            i <= peers.len(),
            copy@ == peers@.subrange(0, i as int),
        decreases peers.len() - i,
    {
        copy.push(peers[i]);
        assert(peers@.subrange(0, i + 1) =~= peers@.subrange(0, i as int).push(peers@[i as int]));
        i += 1;
    }
    assert(peers@.subrange(0, peers.len() as int) =~= peers@);
    copy
}

/// A map from target peers to sets of first hops.
#[derive(Debug)]
pub struct ForwardingMap {
    /// The targets, each once.
    targets: Vec<PeerId>,
    /// For each target, at the same position, its first hops, each once.
    hops: Vec<Vec<PeerId>>,
}

impl ForwardingMap {
    /// The representation holds together: each target has its list of hops
    /// and nothing occurs twice.
    pub closed spec fn wf(&self) -> bool {
        &&& self.targets.len() == self.hops.len()
        &&& self.targets@.no_duplicates()
        &&& forall|i: int| 0 <= i < self.hops.len() ==> (#[trigger] self.hops[i])@.no_duplicates()
    }

    /// The position of a target.
    spec fn place(&self, target: PeerId) -> int {
        choose|i: int| 0 <= i < self.targets.len() && self.targets[i] == target
    }

    /// The map as a mathematical map from targets to sets of hops.
    pub closed spec fn view(&self) -> Map<PeerId, Set<PeerId>> {
        Map::new(
            |target: PeerId| self.targets@.contains(target),
            |target: PeerId| self.hops[self.place(target)]@.to_set(),
        )
    }

    proof fn lemma_place(&self, i: int)
        requires
            self.wf(),
            0 <= i < self.targets.len(),
        ensures
            self.place(self.targets[i]) == i,
            self@.dom().contains(self.targets[i]),
            self@[self.targets[i]] == self.hops[i]@.to_set(),
    {
        assert(self.targets@[i] == self.targets[i]);
    }

    /// The targets of a well-formed map are finitely many: as many as
    /// `len` counts.
    pub proof fn lemma_finite(&self)
        requires
            self.wf(),
        ensures
            self@.dom().finite(),
            self@.dom().len() == self.spec_len(),
    {
        assert(self@.dom() =~= self.targets@.to_set());
        self.targets@.unique_seq_to_set();
    }

    /// The first hops towards a target are finitely many.
    pub proof fn lemma_hops_finite(&self, target: PeerId)
        requires
            self.wf(),
            self@.dom().contains(target),
        ensures
            self@[target].finite(),
    {
        vstd::seq_lib::seq_to_set_is_finite(self.hops[self.place(target)]@);
    }

    /// The map without targets.
    pub fn new() -> (map: ForwardingMap)
        ensures
            map.wf(),
            map@ == Map::<PeerId, Set<PeerId>>::empty(),
    {
        let map = ForwardingMap { targets: Vec::new(), hops: Vec::new() };
        assert(map@ =~= Map::<PeerId, Set<PeerId>>::empty());
        map
    }

    /// The number of targets.
    pub closed spec fn spec_len(&self) -> usize {
        self.targets.len()
    }

    /// The number of targets.
    #[verifier::when_used_as_spec(spec_len)]
    pub fn len(&self) -> (len: usize)
        ensures
            len == self.spec_len(),
    {
        self.targets.len()
    }

    /// The position of `target` among the targets.
    fn position(&self, target: &PeerId) -> (found: Option<usize>)
        requires
            self.wf(),
        ensures
            match found {
                Some(i) => i < self.targets.len() && self.targets[i as int] == *target,
                None => !self@.dom().contains(*target),
            },
    {
        let mut i: usize = 0;
        while i < self.targets.len()
            invariant
                i <= self.targets.len(),
                forall|k: int| 0 <= k < i ==> self.targets[k] != *target,
            decreases self.targets.len() - i,
        {
            if self.targets[i] == *target {
                return Some(i);
            }
            i += 1;
        }
        None
    }

    /// Whether `target` is a target of the map.
    pub fn contains_key(&self, target: &PeerId) -> (found: bool)
        requires
            self.wf(),
        ensures
            found == self@.dom().contains(*target),
    {
        match self.position(target) {
            Some(i) => {
                proof {
                    self.lemma_place(i as int);
                }
                true
            },
            None => false,
        }
    }

    /// The first hops towards `target`, each once, if it is a target.
    pub fn get(&self, target: &PeerId) -> (found: Option<&Vec<PeerId>>)
        requires
            self.wf(),
        ensures
            match found {
                Some(hops) => self@.dom().contains(*target) && hops@.to_set() == self@[*target]
                    && hops@.no_duplicates(),
                None => !self@.dom().contains(*target),
            },
    {
        match self.position(target) {
            Some(i) => {
                proof {
                    self.lemma_place(i as int);
                }
                Some(&self.hops[i])
            },
            None => None,
        }
    }

    /// Enters a new target with its first hops.
    pub fn insert(&mut self, target: PeerId, hops: Vec<PeerId>)
        requires
            old(self).wf(),
            !old(self)@.dom().contains(target),
            hops@.no_duplicates(),
        ensures
            final(self).wf(),
            final(self)@ == old(self)@.insert(target, hops@.to_set()),
            final(self).spec_len() == old(self).spec_len() + 1,
    {
        let ghost hop_set = hops@.to_set();
        self.targets.push(target);
        self.hops.push(hops);
        proof {
            let last = old(self).targets.len() as int;
            assert(self.targets@[last] == target);
            assert forall|i: int| 0 <= i < old(self).targets.len() implies old(self).targets[i]
                != target by {
                assert(old(self).targets@[i] == old(self).targets[i]);
            }
            assert(self.wf());
            assert forall|p: PeerId|
                self@.dom().contains(p) == old(self)@.insert(target, hop_set).dom().contains(
                    p,
                ) by {
                if old(self).targets@.contains(p) {
                    let i = choose|i: int|
                        0 <= i < old(self).targets@.len() && old(self).targets@[i] == p;
                    assert(self.targets@[i] == p);
                }
                if self.targets@.contains(p) && p != target {
                    let i = choose|i: int| 0 <= i < self.targets@.len() && self.targets@[i] == p;
                    assert(old(self).targets@[i] == p);
                }
            }
            assert forall|p: PeerId| self@.dom().contains(p) implies self@[p] == old(self)@.insert(
                target,
                hop_set,
            )[p] by {
                let i = choose|i: int| 0 <= i < self.targets@.len() && self.targets@[i] == p;
                self.lemma_place(i);
                if i < last {
                    old(self).lemma_place(i);
                }
            }
            assert(self@ =~= old(self)@.insert(target, hop_set));
        }
    }

    /// The targets, each once.
    pub fn targets(&self) -> (targets: Vec<PeerId>)
        requires
            self.wf(),
        ensures
            targets@.no_duplicates(),
            targets@.to_set() == self@.dom(),
    {
        let targets = copy_peers(&self.targets);
        assert(self@.dom() =~= self.targets@.to_set());
        targets
    }

    /// A copy of the map.
    pub fn duplicate(&self) -> (copy: ForwardingMap)
        requires
            self.wf(),
        ensures
            copy.wf(),
            copy@ == self@,
    {
        let mut copy = ForwardingMap { targets: Vec::new(), hops: Vec::new() };
        assert(copy.targets@ =~= self.targets@.subrange(0, 0));
        let mut i: usize = 0;
        while i < self.targets.len()
            invariant
                self.wf(),
                copy.wf(),
                i <= self.targets.len(),
                copy.targets@ == self.targets@.subrange(0, i as int),
                forall|k: int| 0 <= k < i ==> (#[trigger] copy.hops[k])@ == self.hops[k]@,
            decreases self.targets.len() - i,
        {
            let hops = copy_peers(&self.hops[i]);
            let target = self.targets[i];
            let ghost before = copy;
            assert(!copy@.dom().contains(target)) by {
                if copy.targets@.contains(target) {
                    let k = choose|k: int| 0 <= k < copy.targets@.len() && copy.targets@[k] == target;
                    assert(self.targets@[k] == self.targets@[i as int]);
                }
            }
            copy.targets.push(target);
            copy.hops.push(hops);
            proof {
                assert(copy.targets@ =~= self.targets@.subrange(0, i + 1));
                assert forall|k: int| 0 <= k < i + 1 implies (#[trigger] copy.hops[k])@
                    == self.hops[k]@ by {
                    if k < i {
                        assert(copy.hops[k] == before.hops[k]);
                    }
                }
                assert forall|k: int| 0 <= k < copy.hops.len() implies (
                #[trigger] copy.hops[k])@.no_duplicates() by {
                    assert(copy.hops[k]@ == self.hops[k]@);
                }
            }
            i += 1;
        }
        proof {
            assert(copy.targets@ =~= self.targets@);
            assert forall|p: PeerId| copy@.dom().contains(p) implies copy@[p] == self@[p] by {
                let k = choose|k: int| 0 <= k < copy.targets@.len() && copy.targets@[k] == p;
                copy.lemma_place(k);
                self.lemma_place(k);
            }
            assert(copy@ =~= self@);
        }
        copy
    }
}

} // verus!
