//! A set of keys, kept as bytes.
use vstd::prelude::*;
use crate::text;

verus! {

const SLOTS: usize = 4096;

/// Where a key is looked for.
spec fn slot(key: Seq<u8>) -> nat
    decreases key.len(),
{
    if key.len() == 0 {
        0
    } else {
        (slot(key.drop_last()) * 31 + key.last() as nat) % (SLOTS as nat)
    }
}

fn slot_of(key: &[u8]) -> (at: usize)
    ensures
        at == slot(key@),
        at < SLOTS,
{
    let mut at: usize = 0;
    let mut i: usize = 0;
    assert(key@.take(0) =~= Seq::empty());
    while i < key.len()
        invariant
            i <= key.len(),
            at == slot(key@.take(i as int)),
            at < SLOTS,
        decreases key.len() - i,
    {
        assert(key@.take(i + 1).drop_last() =~= key@.take(i as int));
        at = (at * 31 + key[i] as usize) % SLOTS;
        i += 1;
    }
    assert(key@.take(i as int) =~= key@);
    at
}

#[derive(Debug)]
pub struct KeySet {
    slots: Vec<Vec<Vec<u8>>>,
}

impl KeySet {
    pub closed spec fn wf(self) -> bool {
        self.slots@.len() == SLOTS
    }

    spec fn at(self, i: int) -> Seq<Vec<u8>> {
        self.slots@[i]@
    }

    pub closed spec fn has(self, key: Seq<u8>) -> bool {
        exists|j: int|
            0 <= j < self.at(slot(key) as int).len() && (#[trigger] self.at(slot(key) as int)[j])@ == key
    }

    pub fn new() -> (s: KeySet)
        ensures
            s.wf(),
            forall|key: Seq<u8>| !#[trigger] s.has(key),
    {
        let mut slots: Vec<Vec<Vec<u8>>> = Vec::new();
        let mut i: usize = 0;
        while i < SLOTS
            invariant
                i <= SLOTS,
                slots@.len() == i,
                forall|k: int| 0 <= k < i ==> (#[trigger] slots@[k])@.len() == 0,
            decreases SLOTS - i,
        {
            slots.push(Vec::new());
            i += 1;
        }
        let s = KeySet { slots };
        proof {
            assert forall|key: Seq<u8>| !#[trigger] s.has(key) by {
                lemma_slot(key);
                assert(s.at(slot(key) as int).len() == 0);
            }
        }
        s
    }

    /// Put a key in, and say whether it is new.
    pub fn insert(&mut self, key: &[u8]) -> (new: bool)
        requires
            old(self).wf(),
        ensures
            final(self).wf(),
            new == !old(self).has(key@),
            forall|k: Seq<u8>| #[trigger] final(self).has(k) == (old(self).has(k) || k == key@),
    {
        let at: usize = slot_of(key);
        let mut j: usize = 0;
        while j < self.slots[at].len()
            invariant
                *self == *old(self),
                self.wf(),
                at == slot(key@),
                at < SLOTS,
                j <= self.at(at as int).len(),
                forall|k: int| 0 <= k < j ==> (#[trigger] self.at(at as int)[k])@ != key@,
            decreases self.at(at as int).len() - j,
        {
            if text::same_bytes(self.slots[at][j].as_slice(), key) {
                assert(self.at(at as int)[j as int]@ == key@);
                return false;
            }
            j += 1;
        }
        let ghost was = *self;
        let mut copy: Vec<u8> = Vec::new();
        copy.extend_from_slice(key);
        assert(copy@ =~= key@);
        self.slots[at].push(copy);
        proof {
            assert(!was.has(key@));
            assert forall|k: Seq<u8>| #[trigger] self.has(k) == (was.has(k) || k == key@) by {
                lemma_slot(k);
                let s = slot(k) as int;
                if s == at {
                    assert(self.at(s) =~= was.at(s).push(copy));
                    if was.has(k) {
                        let n = choose|n: int|
                            0 <= n < was.at(s).len() && (#[trigger] was.at(s)[n])@ == k;
                        assert(self.at(s)[n]@ == k);
                    }
                    if k == key@ {
                        assert(self.at(s)[was.at(s).len() as int]@ == k);
                    }
                    if self.has(k) && k != key@ {
                        let n = choose|n: int|
                            0 <= n < self.at(s).len() && (#[trigger] self.at(s)[n])@ == k;
                        assert(was.at(s)[n]@ == k);
                    }
                } else {
                    assert(self.at(s) == was.at(s));
                }
            }
        }
        true
    }
}

proof fn lemma_slot(key: Seq<u8>)
    ensures
        0 <= slot(key) < SLOTS,
{
}

} // verus!
