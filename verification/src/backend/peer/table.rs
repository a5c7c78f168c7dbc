//! A table of what is known of each peer.

use crate::backend::peer::discovery::PeerAddr;
use vstd::prelude::*;

verus! {

/// A value for each of some peers.
#[derive(Debug)]
pub struct PeerTable<T> {
    addrs: Vec<PeerAddr>,
    values: Vec<T>,
}

impl<T> View for PeerTable<T> {
    type V = Map<PeerAddr, T>;

    closed spec fn view(&self) -> Map<PeerAddr, T> {
        Map::new(
            |a: PeerAddr| self.addrs@.contains(a),
            |a: PeerAddr| self.values@[self.addrs@.index_of(a)],
        )
    }
}

impl<T> PeerTable<T> {
    /// Every peer has one row.
    pub closed spec fn wf(self) -> bool {
        &&& self.addrs@.len() == self.values@.len()
        &&& self.addrs@.no_duplicates()
    }

    /// The peers, in the order in which they were entered.
    pub closed spec fn rows(self) -> Seq<PeerAddr> {
        self.addrs@
    }

    /// The rows are those of the table, each once.
    pub proof fn lemma_rows(self)
        requires
            self.wf(),
        ensures
            self.rows().no_duplicates(),
            forall|a: PeerAddr| #[trigger] self@.contains_key(a) <==> self.rows().contains(a),
    {
    }

    proof fn lemma_row(self, i: int)
        requires
            self.wf(),
            0 <= i < self.addrs@.len(),
        ensures
            self.addrs@.index_of(self.addrs@[i]) == i,
            self@.contains_key(self.addrs@[i]),
            self@[self.addrs@[i]] == self.values@[i],
    {
        assert(self.addrs@.contains(self.addrs@[i]));
    }

    /// A table without rows.
    pub fn new() -> (r: PeerTable<T>)
        ensures
            r.wf(),
            r@ == Map::<PeerAddr, T>::empty(),
            r.rows() == Seq::<PeerAddr>::empty(),
    {
        let r: PeerTable<T> = PeerTable { addrs: Vec::new(), values: Vec::new() };
        assert(r@ =~= Map::<PeerAddr, T>::empty());
        r
    }

    /// How many rows the table has.
    pub fn len(&self) -> (r: usize)
        requires
            self.wf(),
        ensures
            r == self.rows().len(),
    {
        self.addrs.len()
    }

    /// The row at a place.
    pub fn row(&self, i: usize) -> (r: (PeerAddr, &T))
        requires
            self.wf(),
            i < self.rows().len(),
        ensures
            r.0 == self.rows()[i as int],
            self@.contains_key(r.0),
            *r.1 == self@[r.0],
    {
        proof {
            self.lemma_row(i as int);
        }
        (self.addrs[i], &self.values[i])
    }

    fn find(&self, addr: PeerAddr) -> (r: Option<usize>)
        requires
            self.wf(),
        ensures
            match r {
                Some(i) => i < self.addrs@.len() && self.addrs@[i as int] == addr,
                None => !self.addrs@.contains(addr),
            },
    {
        let mut i: usize = 0;
        while i < self.addrs.len()
            invariant
                i <= self.addrs@.len(),
                forall|j: int| 0 <= j < i ==> self.addrs@[j] != addr,
            decreases self.addrs@.len() - i,
        {
            if self.addrs[i] == addr {
                return Some(i);
            }
            i = i + 1;
        }
        None
    }

    /// The value of a peer.
    pub fn get(&self, addr: PeerAddr) -> (r: Option<&T>)
        requires
            self.wf(),
        ensures
            match r {
                Some(v) => self@.contains_key(addr) && *v == self@[addr],
                None => !self@.contains_key(addr),
            },
    {
        match self.find(addr) {
            Some(i) => {
                proof {
                    self.lemma_row(i as int);
                }
                Some(&self.values[i])
            },
            None => None,
        }
    }

    /// Enters the value of a peer.
    pub fn put(&mut self, addr: PeerAddr, value: T)
        requires
            old(self).wf(),
        ensures
            final(self).wf(),
            final(self)@ == old(self)@.insert(addr, value),
            final(self).rows() == if old(self)@.contains_key(addr) {
                old(self).rows()
            } else {
                old(self).rows().push(addr)
            },
    {
        let ghost before = *self;
        match self.find(addr) {
            Some(i) => {
                proof {
                    before.lemma_row(i as int);
                }
                self.values.set(i, value);
                assert forall|a: PeerAddr| self@.contains_key(a) implies self@[a]
                    == before@.insert(addr, value)[a] by {
                    let k = choose|k: int| 0 <= k < self.addrs@.len() && self.addrs@[k] == a;
                    self.lemma_row(k);
                    before.lemma_row(k);
                }
                assert(self@ =~= before@.insert(addr, value));
            },
            None => {
                self.addrs.push(addr);
                self.values.push(value);
                let n: usize = self.addrs.len() - 1;
                assert(self.addrs@.no_duplicates());
                assert forall|a: PeerAddr| self@.contains_key(a) <==> before@.insert(
                    addr,
                    value,
                ).contains_key(a) by {
                    if before@.contains_key(a) {
                        let k = choose|k: int|
                            0 <= k < before.addrs@.len() && before.addrs@[k] == a;
                        assert(self.addrs@[k] == a);
                    }
                    assert(self.addrs@[n as int] == addr);
                    if self@.contains_key(a) && a != addr {
                        let k = choose|k: int| 0 <= k < self.addrs@.len() && self.addrs@[k] == a;
                        assert(before.addrs@[k] == a);
                    }
                }
                assert forall|a: PeerAddr| self@.contains_key(a) implies self@[a]
                    == before@.insert(addr, value)[a] by {
                    let k = choose|k: int| 0 <= k < self.addrs@.len() && self.addrs@[k] == a;
                    self.lemma_row(k);
                    if k < n {
                        before.lemma_row(k);
                        assert(before.addrs@[k] != addr);
                    }
                }
                assert(self@ =~= before@.insert(addr, value));
            },
        }
    }
}

/// What is put under an address is what is found under it, and what is found under any other one
/// stays. A row is added only for an address that has none.
pub proof fn law_table_gives_back_what_was_put<T>(
    t: &mut PeerTable<T>,
    addr: PeerAddr,
    value: T,
    later: &PeerTable<T>,
    asked: PeerAddr,
    found: Option<&T>,
)
    requires
        old(t).wf(),
        call_ensures(PeerTable::<T>::put, (t, addr, value), ()),
        *later == *final(t),
        call_ensures(PeerTable::<T>::get, (later, asked), found),
    ensures
        asked == addr ==> found is Some && *found->Some_0 == value,
        asked != addr ==> (found is Some <==> old(t)@.contains_key(asked)),
        asked != addr && found is Some ==> *found->Some_0 == old(t)@[asked],
        final(t).rows().len() == old(t).rows().len() + if old(t)@.contains_key(addr) {
            0int
        } else {
            1
        },
{
    assert(call_requires(PeerTable::<T>::get, (later, asked)));
}

} // verus!
