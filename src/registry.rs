use vstd::prelude::*;

use crate::addr::PeerAddr;

verus! {

/// The registry after every entry equal to `x` is taken out, the others kept in order.
pub open spec fn without(peers: Seq<PeerAddr>, x: PeerAddr) -> Seq<PeerAddr> {
    peers.filter(|p: PeerAddr| p != x)
}

/// The peers a node believes reachable, in order of arrival. Duplicates are kept.
pub struct PeerRegistry {
    peers: Vec<PeerAddr>,
}

impl View for PeerRegistry {
    type V = Seq<PeerAddr>;

    closed spec fn view(&self) -> Seq<PeerAddr> {
        self.peers@
    }
}

impl PeerRegistry {
    pub fn new() -> (r: PeerRegistry)
        ensures
            r@ == Seq::<PeerAddr>::empty(),
    {
        PeerRegistry { peers: Vec::new() }
    }

    /// Appends `addr`, whether or not it is already there.
    pub fn insert(&mut self, addr: PeerAddr)
        ensures
            final(self)@ == old(self)@.push(addr),
    {
        self.peers.push(addr);
    }

    /// A copy of the current entries, in order.
    pub fn snapshot(&self) -> (r: Vec<PeerAddr>)
        ensures
            r@ == self@,
    {
        self.peers.clone()
    }

    /// Takes out every entry equal to `addr`; the others keep their order.
    pub fn remove(&mut self, addr: PeerAddr)
        ensures
            final(self)@ == without(old(self)@, addr),
            !final(self)@.contains(addr),
    {
        let ghost before = self@;
        let mut kept: Vec<PeerAddr> = Vec::new();
        let mut i: usize = 0;
        while i < self.peers.len()
            invariant
                0 <= i <= before.len(),
                self@ == before,
                kept@ == without(before.subrange(0, i as int), addr),
            decreases before.len() - i,
        {
            let p = self.peers[i];
            proof {
                assert(before.subrange(0, i as int + 1).drop_last() =~= before.subrange(0, i as int));
                reveal(Seq::filter);
            }
            if p != addr {
                kept.push(p);
            }
            i = i + 1;
        }
        proof {
            assert(before.subrange(0, before.len() as int) =~= before);
        }
        self.peers = kept;
        proof {
            broadcast use vstd::seq_lib::group_filter_ensures;
        }
    }
}

} // verus!
