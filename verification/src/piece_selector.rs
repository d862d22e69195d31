//! Rarest-first selection of the pieces to request from a peer.
//!
//! The rarity of each piece (how many known peers have it) is the single source of truth.
//! Whenever a rarity changes, a new entry `(rarity, piece)` goes into a priority queue; old
//! entries stay. Selecting pops the smallest entries first and acts only on entries whose
//! rarity is still current: a piece the peer has, we lack and nobody requests yet is selected;
//! the current entry of a piece the peer lacks goes back for other peers; stale entries are
//! dropped. Every piece we lack that nobody requests keeps its current entry in the queue, so
//! the selected pieces are the rarest ones the peer can give, lower indices first.
use vstd::prelude::*;
use vstd::multiset::Multiset;

verus! {

broadcast use vstd::seq_lib::group_to_multiset_ensures;

/// The id a peer announces in its handshake.
pub type PeerId = [u8; 20];

/// Whether entry `a` comes out of the priority queue no later than `b`: by rarity, then by
/// piece index.
pub open spec fn entry_le(a: (u32, u32), b: (u32, u32)) -> bool {
    a.0 < b.0 || (a.0 == b.0 && a.1 <= b.1)
}

/// `bits` cut or extended with `false` to `n` entries.
pub open spec fn resized(bits: Seq<bool>, n: nat) -> Seq<bool> {
    Seq::new(n, |i: int| i < bits.len() && bits[i])
}

/// The bitfield of peer `id`, if it is known.
pub open spec fn peer_bits(peers: Seq<(PeerId, Seq<bool>)>, id: PeerId) -> Option<Seq<bool>> {
    if exists|i: int| 0 <= i < peers.len() && peers[i].0 == id {
        Some(peers[choose|i: int| 0 <= i < peers.len() && peers[i].0 == id].1)
    } else {
        None
    }
}

/// Whether piece `i` takes part in an update of the rarities with a peer's bitfield: the peer
/// has it and we do not.
pub open spec fn counts_for(rarity: Seq<u32>, bits: Seq<bool>, have: Seq<bool>, i: int) -> bool {
    have.len() > 0 && 0 <= i < rarity.len() && i < bits.len() && i < have.len() && bits[i]
        && !have[i]
}

/// The rarities after a peer with bitfield `bits` came (`increase`) or went; a decrease
/// stops at zero. Nothing changes while our own bitfield is empty.
pub open spec fn prio_rarity(rarity: Seq<u32>, bits: Seq<bool>, have: Seq<bool>, increase: bool) -> Seq<u32> {
    Seq::new(
        rarity.len(),
        |i: int|
            if counts_for(rarity, bits, have, i) {
                if increase {
                    (rarity[i] + 1) as u32
                } else if rarity[i] == 0 {
                    0u32
                } else {
                    (rarity[i] - 1) as u32
                }
            } else {
                rarity[i]
            },
    )
}

/// The queue entries pushed by such an update for the pieces below `k`, in piece order.
pub open spec fn prio_pushes(
    rarity: Seq<u32>,
    bits: Seq<bool>,
    have: Seq<bool>,
    increase: bool,
    k: int,
) -> Seq<(u32, u32)>
    decreases k,
{
    if k <= 0 {
        Seq::empty()
    } else {
        let before = prio_pushes(rarity, bits, have, increase, k - 1);
        if counts_for(rarity, bits, have, k - 1) {
            before.push((prio_rarity(rarity, bits, have, increase)[k - 1], (k - 1) as u32))
        } else {
            before
        }
    }
}

/// The number of peers whose bitfield has piece `i`.
pub open spec fn count_bit(peers: Seq<(PeerId, Seq<bool>)>, i: int) -> nat
    decreases peers.len(),
{
    if peers.len() == 0 {
        0
    } else {
        count_bit(peers.drop_last(), i) + if i < peers.last().1.len() && peers.last().1[i] {
            1nat
        } else {
            0nat
        }
    }
}

/// The queue entry that is current for piece `i`: its rarity and its index.
pub open spec fn entry_of(rarity: Seq<u32>, i: int) -> (u32, u32) {
    (rarity[i], i as u32)
}

/// Whether the popped entry `e` is current: its rarity is the piece's rarity.
pub open spec fn is_current(e: (u32, u32), rarity: Seq<u32>) -> bool {
    rarity[e.1 as int] == e.0
}

/// Whether piece `i` can be selected for a peer with bitfield `peer_has`: the peer has it,
/// we do not, and nobody requests it yet.
pub open spec fn eligible(rarity: Seq<u32>, have: Seq<bool>, in_flight: Seq<bool>, peer_has: Seq<bool>, i: int) -> bool {
    &&& 0 <= i < rarity.len()
    &&& i < have.len()
    &&& i < in_flight.len()
    &&& i < peer_has.len()
    &&& peer_has[i]
    &&& !have[i]
    &&& !in_flight[i]
}

/// One step of selecting: the popped entry `e` is taken when it is current and its piece is
/// eligible.
pub open spec fn select_ok(e: (u32, u32), rarity: Seq<u32>, peer_has: Seq<bool>, have: Seq<bool>, in_flight: Seq<bool>) -> bool {
    &&& is_current(e, rarity)
    &&& eligible(rarity, have, in_flight, peer_has, e.1 as int)
}

/// The pieces taken, the in-flight flags, and the entries kept for later (current entries of
/// pieces we lack and nobody requests, which the peer does not have), after going through the
/// popped entries in order. Other entries (stale ones, or of pieces we have or that are
/// requested) are dropped.
pub open spec fn select_run(
    popped: Seq<(u32, u32)>,
    rarity: Seq<u32>,
    peer_has: Seq<bool>,
    have: Seq<bool>,
    in_flight: Seq<bool>,
) -> (Seq<u32>, Seq<bool>, Seq<(u32, u32)>)
    decreases popped.len(),
{
    if popped.len() == 0 {
        (Seq::empty(), in_flight, Seq::empty())
    } else {
        let (sel, fl, kept) = select_run(popped.drop_last(), rarity, peer_has, have, in_flight);
        let e = popped.last();
        if select_ok(e, rarity, peer_has, have, fl) {
            (sel.push(e.1), fl.update(e.1 as int, true), kept)
        } else if is_current(e, rarity) && !have[e.1 as int] && !fl[e.1 as int] {
            (sel, fl, kept.push(e))
        } else {
            (sel, fl, kept)
        }
    }
}

/// Whether every piece we lack and nobody requests has its current entry in the queue.
pub open spec fn covered(rarity: Seq<u32>, have: Seq<bool>, in_flight: Seq<bool>, queue: Multiset<(u32, u32)>) -> bool {
    forall|i: int|
        #![trigger rarity[i]]
        0 <= i < rarity.len() && !have[i] && !in_flight[i] ==> queue.count(entry_of(rarity, i)) > 0
}

/// Whether piece `i` is among the selected pieces.
pub open spec fn taken(res: Option<Vec<u32>>, i: int) -> bool {
    res matches Some(v) && v@.contains(i as u32)
}

/// How many pieces were selected.
pub open spec fn n_taken(res: Option<Vec<u32>>) -> nat {
    match res {
        Some(v) => v@.len(),
        None => 0,
    }
}

/// Rarest first: what selecting up to `count` pieces for a peer with bitfield `peer_has`
/// gives, in the state before (`rarity`, `have`, `in_flight`). The pieces selected are
/// eligible, distinct, at most `count`, in order of rarity and then index; every eligible
/// piece left out comes after all of them and was left out only because `count` were
/// selected; and exactly the selected pieces become requested.
pub open spec fn selected_rarest(
    rarity: Seq<u32>,
    have: Seq<bool>,
    in_flight: Seq<bool>,
    in_flight_after: Seq<bool>,
    peer_has: Seq<bool>,
    count: usize,
    res: Option<Vec<u32>>,
) -> bool {
    &&& res matches Some(v) ==> {
        &&& 1 <= v@.len() <= count
        &&& forall|j: int| 0 <= j < v@.len() ==> eligible(rarity, have, in_flight, peer_has, #[trigger] v@[j] as int)
        &&& forall|a: int, b: int| 0 <= a < b < v@.len() ==> v@[a] != v@[b]
        &&& forall|a: int, b: int|
            0 <= a < b < v@.len() ==> entry_le(entry_of(rarity, v@[a] as int), entry_of(rarity, v@[b] as int))
    }
    &&& forall|i: int|
        eligible(rarity, have, in_flight, peer_has, i) && !taken(res, i) ==> {
            &&& n_taken(res) == count
            &&& res matches Some(v) ==> forall|j: int|
                0 <= j < v@.len() ==> entry_le(entry_of(rarity, #[trigger] v@[j] as int), entry_of(rarity, i))
        }
    &&& in_flight_after.len() == in_flight.len()
    &&& forall|i: int| 0 <= i < in_flight.len() ==> in_flight_after[i] == (in_flight[i] || taken(res, i))
}

/// `n` unset flags.
pub open spec fn falses(n: nat) -> Seq<bool> {
    Seq::new(n, |i: int| false)
}

/// The peers, with every empty bitfield replaced by `n` unset flags.
pub open spec fn resize_empties(peers: Seq<(PeerId, Seq<bool>)>, n: nat) -> Seq<(PeerId, Seq<bool>)> {
    Seq::new(
        peers.len(),
        |i: int|
            if peers[i].1.len() == 0 {
                (peers[i].0, falses(n))
            } else {
                peers[i]
            },
    )
}

/// The peers, with the bitfield of peer `id` replaced by `bits`.
pub open spec fn set_peer_bits(peers: Seq<(PeerId, Seq<bool>)>, id: PeerId, bits: Seq<bool>) -> Seq<(PeerId, Seq<bool>)> {
    Seq::new(peers.len(), |i: int| if peers[i].0 == id { (id, bits) } else { peers[i] })
}

/// The peers, with every bitfield cut or extended to `n` flags.
pub open spec fn resize_all(peers: Seq<(PeerId, Seq<bool>)>, n: nat) -> Seq<(PeerId, Seq<bool>)> {
    Seq::new(peers.len(), |i: int| (peers[i].0, resized(peers[i].1, n)))
}

/// The position of peer `id`.
pub open spec fn peer_index(peers: Seq<(PeerId, Seq<bool>)>, id: PeerId) -> int {
    choose|i: int| 0 <= i < peers.len() && peers[i].0 == id
}

/// The number of flags a new peer's bitfield gets: as many as our own bitfield has, else
/// as many as the first peer's, else none.
pub open spec fn new_peer_len(own: Seq<bool>, peers: Seq<(PeerId, Seq<bool>)>) -> nat {
    if own.len() > 0 {
        own.len()
    } else if peers.len() > 0 {
        peers[0].1.len()
    } else {
        0
    }
}

/// The rarity of each of the `n` pieces counted anew from the peers' bitfields.
pub open spec fn recount(peers: Seq<(PeerId, Seq<bool>)>, n: nat) -> Seq<u32> {
    Seq::new(n, |i: int| count_bit(peers, i) as u32)
}

/// Whether the entries come out of the queue in order.
pub open spec fn entries_sorted(popped: Seq<(u32, u32)>) -> bool {
    forall|a: int, b: int| 0 <= a < b < popped.len() ==> entry_le(popped[a], popped[b])
}

/// Whether a have message of peer `id` for piece `i` changes anything: the peer is known and
/// `i` is within its bitfield and within the pieces.
pub open spec fn have_applies(peers: Seq<(PeerId, Seq<bool>)>, rarity: Seq<u32>, id: PeerId, i: u32) -> bool {
    &&& peer_bits(peers, id) is Some
    &&& (i as int) < peer_bits(peers, id)->Some_0.len()
    &&& (i as int) < rarity.len()
}

/// Responsible for selecting the next pieces: rarest first, by index among equally rare ones.
#[derive(Debug)]
pub struct PieceSelector {
    /// The number of peers that have each piece.
    piece_rarity: Vec<u32>,
    /// Entries `(rarity, piece)`, taken out smallest first; some may be stale.
    priority_queue: Vec<(u32, u32)>,
    /// Our own bitfield.
    have: Vec<bool>,
    /// The bitfield of each peer, one entry per peer id.
    peer_bitfields: Vec<(PeerId, Vec<bool>)>,
    /// The pieces that are being downloaded already.
    pieces_in_flight: Vec<bool>,
}

impl PieceSelector {
    /// The number of peers that have each piece.
    pub closed spec fn rarity(&self) -> Seq<u32> {
        self.piece_rarity@
    }

    /// The entries of the priority queue.
    pub closed spec fn queue(&self) -> Multiset<(u32, u32)> {
        self.priority_queue@.to_multiset()
    }

    /// The peers and their bitfields.
    pub closed spec fn peers(&self) -> Seq<(PeerId, Seq<bool>)> {
        Seq::new(
            self.peer_bitfields@.len(),
            |i: int| (self.peer_bitfields@[i].0, self.peer_bitfields@[i].1@),
        )
    }

    /// Our own bitfield.
    pub closed spec fn own(&self) -> Seq<bool> {
        self.have@
    }

    /// The pieces that are being downloaded already.
    pub closed spec fn in_flight(&self) -> Seq<bool> {
        self.pieces_in_flight@
    }

    /// One flag per piece in rarities, in-flight flags and our bitfield, queue entries name
    /// known pieces, each peer appears once, and every piece we lack that nobody requests has
    /// its current entry in the queue.
    pub closed spec fn wf(&self) -> bool {
        &&& self.piece_rarity@.len() == self.pieces_in_flight@.len()
        &&& self.have@.len() == self.piece_rarity@.len()
        &&& covered(self.piece_rarity@, self.have@, self.pieces_in_flight@, self.priority_queue@.to_multiset())
        &&& self.piece_rarity@.len() <= u32::MAX
        &&& forall|j: int|
            0 <= j < self.priority_queue@.len() ==> (#[trigger] self.priority_queue@[j].1 as int)
                < self.piece_rarity@.len()
        &&& forall|i: int, j: int|
            0 <= i < j < self.peer_bitfields@.len() ==> self.peer_bitfields@[i].0
                != self.peer_bitfields@[j].0
    }

    /// The queue entries of a new selector: rarity zero for each piece we lack, in order.
    pub open spec fn initial_entries(have: Seq<bool>, k: int) -> Seq<(u32, u32)>
        decreases k,
    {
        if k <= 0 {
            Seq::empty()
        } else if !have[k - 1] {
            Self::initial_entries(have, k - 1).push((0u32, (k - 1) as u32))
        } else {
            Self::initial_entries(have, k - 1)
        }
    }

    /// A selector for our bitfield `have`, with no peers and nothing in flight; every piece
    /// we lack is in the queue at rarity zero.
    pub fn new(have: Vec<bool>) -> (res: Self)
        requires
            have@.len() <= u32::MAX,
        ensures
            res.wf(),
            res.own() == have@,
            res.rarity() == Seq::new(have@.len(), |i: int| 0u32),
            res.queue() == Self::initial_entries(have@, have@.len() as int).to_multiset(),
            res.peers() == Seq::<(PeerId, Seq<bool>)>::empty(),
            res.in_flight() == Seq::new(have@.len(), |i: int| false),
    {
        let n_pieces = have.len();
        let piece_rarity = vec![0u32; n_pieces];
        let pieces_in_flight = vec![false; n_pieces];
        let mut queue: Vec<(u32, u32)> = Vec::new();
        let mut i: usize = 0;
        while i < n_pieces
            invariant
                n_pieces == have@.len(),
                n_pieces <= u32::MAX,
                i <= n_pieces,
                queue@ == Self::initial_entries(have@, i as int),
                forall|j: int| 0 <= j < queue@.len() ==> (#[trigger] queue@[j].1 as int) < i,
                forall|k: int| 0 <= k < i && !have@[k] ==> #[trigger] queue@.to_multiset().count((0u32, k as u32)) > 0,
            decreases n_pieces - i,
        {
            if !have[i] {
                let ghost before = queue@;
                queue.push((0u32, i as u32));
                proof {
                    assert(queue@.to_multiset() =~= before.to_multiset().insert((0u32, i as u32)));
                }
            }
            i = i + 1;
        }
        let res = Self {
            piece_rarity,
            priority_queue: queue,
            have,
            peer_bitfields: Vec::new(),
            pieces_in_flight,
        };
        proof {
            assert(res.rarity() =~= Seq::new(have@.len(), |i: int| 0u32));
            assert(res.in_flight() =~= Seq::new(have@.len(), |i: int| false));
            assert(res.peers() =~= Seq::<(PeerId, Seq<bool>)>::empty());
            assert forall|k: int|
                #![trigger res.piece_rarity@[k]]
                0 <= k < res.piece_rarity@.len() && !res.have@[k] && !res.pieces_in_flight@[k] implies res.priority_queue@.to_multiset().count(
                entry_of(res.piece_rarity@, k),
            ) > 0 by {
                assert(entry_of(res.piece_rarity@, k) == (0u32, k as u32));
            }
        }
        res
    }

    /// A well-formed selector keeps one rarity and one in-flight flag per piece of our
    /// bitfield.
    pub proof fn lemma_lens(&self)
        requires
            self.wf(),
        ensures
            self.rarity().len() == self.own().len(),
            self.in_flight().len() == self.own().len(),
    {
    }

    /// Gives piece `i` up: it is no longer requested, and when we lack it, its current entry
    /// goes back into the queue so that it is selected again.
    pub fn release_piece(&mut self, i: usize)
        requires
            old(self).wf(),
            i < old(self).rarity().len(),
        ensures
            final(self).wf(),
            final(self).in_flight() == old(self).in_flight().update(i as int, false),
            final(self).own() == old(self).own(),
            final(self).peers() == old(self).peers(),
            final(self).rarity() == old(self).rarity(),
            final(self).queue() == if !old(self).own()[i as int] {
                old(self).queue().insert(entry_of(old(self).rarity(), i as int))
            } else {
                old(self).queue()
            },
    {
        self.pieces_in_flight.set(i, false);
        if !self.have[i] {
            let r = self.piece_rarity[i];
            self.priority_queue.push((r, i as u32));
            proof {
                assert(self.priority_queue@.to_multiset() =~= old(self).priority_queue@.to_multiset().insert(
                    entry_of(old(self).rarity(), i as int),
                ));
            }
        }
    }

    /// Our own bitfield.
    pub fn get_have(&self) -> (res: &Vec<bool>)
        ensures
            res@ == self.own(),
    {
        &self.have
    }

    /// Marks piece `i` as one we have.
    pub fn set_have(&mut self, i: usize)
        requires
            i < old(self).own().len(),
        ensures
            final(self).own() == old(self).own().update(i as int, true),
            final(self).rarity() == old(self).rarity(),
            final(self).queue() == old(self).queue(),
            final(self).peers() == old(self).peers(),
            final(self).in_flight() == old(self).in_flight(),
            old(self).wf() ==> final(self).wf(),
    {
        self.have.set(i, true);
    }

    /// Finds the position of peer `id` in the list of peers.
    fn find_peer(&self, id: &PeerId) -> (res: Option<usize>)
        requires
            self.wf(),
        ensures
            res is None <==> peer_bits(self.peers(), *id) is None,
            res matches Some(i) ==> i < self.peer_bitfields@.len() && self.peer_bitfields@[i as int].0
                == *id && peer_bits(self.peers(), *id) == Some(self.peer_bitfields@[i as int].1@),
    {
        let mut i: usize = 0;
        while i < self.peer_bitfields.len()
            invariant
                self.wf(),
                i <= self.peer_bitfields@.len(),
                forall|k: int| 0 <= k < i ==> self.peer_bitfields@[k].0 != *id,
            decreases self.peer_bitfields@.len() - i,
        {
            if crate::wire::bytes20_eq(&self.peer_bitfields[i].0, id) {
                proof {
                    let peers = self.peers();
                    assert(peers[i as int].0 == *id);
                    let c = choose|j: int| 0 <= j < peers.len() && peers[j].0 == *id;
                    assert(c == i) by {
                        if c != i {
                            if c < i {
                                assert(self.peer_bitfields@[c].0 != self.peer_bitfields@[i as int].0);
                            } else {
                                assert(self.peer_bitfields@[i as int].0 != self.peer_bitfields@[c].0);
                            }
                        }
                    }
                }
                return Some(i);
            }
            i = i + 1;
        }
        proof {
            let peers = self.peers();
            assert forall|k: int| 0 <= k < peers.len() implies peers[k].0 != *id by {
                assert(peers[k].0 == self.peer_bitfields@[k].0);
            }
        }
        None
    }

    /// The bitfield of peer `id`, if it is known.
    pub fn get_peer_has(&self, id: &PeerId) -> (res: Option<&Vec<bool>>)
        requires
            self.wf(),
        ensures
            res is None <==> peer_bits(self.peers(), *id) is None,
            res matches Some(b) ==> peer_bits(self.peers(), *id) == Some(b@),
    {
        match self.find_peer(id) {
            Some(i) => Some(&self.peer_bitfields[i].1),
            None => None,
        }
    }
}

impl PieceSelector {
    /// Updates the rarities with the bitfield of a peer that came (`increase`) or went,
    /// pushing a queue entry for every piece whose rarity changed.
    fn update_prio_queue(&mut self, bitfield: &Vec<bool>, increase: bool)
        requires
            old(self).wf(),
            increase ==> forall|i: int|
                counts_for(old(self).rarity(), bitfield@, old(self).own(), i) ==> old(self).rarity()[i] < u32::MAX,
        ensures
            final(self).wf(),
            final(self).rarity() == prio_rarity(old(self).rarity(), bitfield@, old(self).own(), increase),
            final(self).queue() == old(self).queue().add(
                prio_pushes(
                    old(self).rarity(),
                    bitfield@,
                    old(self).own(),
                    increase,
                    old(self).rarity().len() as int,
                ).to_multiset(),
            ),
            final(self).own() == old(self).own(),
            final(self).peers() == old(self).peers(),
            final(self).in_flight() == old(self).in_flight(),
    {
        let ghost r0 = self.piece_rarity@;
        let ghost q0 = self.priority_queue@;
        let ghost have = self.have@;
        let ghost bits = bitfield@;
        let ghost new_r = prio_rarity(r0, bits, have, increase);
        if self.have.len() == 0 {
            proof {
                assert(self.piece_rarity@ =~= new_r);
                lemma_pushes_empty(r0, bits, have, increase, r0.len() as int);
                assert(q0.to_multiset().add(Seq::<(u32, u32)>::empty().to_multiset()) =~= q0.to_multiset());
            }
            return;
        }
        let n = self.piece_rarity.len();
        proof {
            if increase {
                assert forall|k: int| counts_for(r0, bits, have, k) implies r0[k] < u32::MAX by {
                    assert(counts_for(old(self).rarity(), bitfield@, old(self).own(), k));
                }
            }
        }
        let mut i: usize = 0;
        while i < n
            invariant
                n == r0.len(),
                n <= u32::MAX,
                have.len() > 0,
                i <= n,
                have == self.have@,
                bits == bitfield@,
                new_r == prio_rarity(r0, bits, have, increase),
                increase ==> forall|k: int| counts_for(r0, bits, have, k) ==> r0[k] < u32::MAX,
                self.piece_rarity@.len() == n,
                forall|k: int| 0 <= k < i ==> self.piece_rarity@[k] == new_r[k],
                forall|k: int| i <= k < n ==> self.piece_rarity@[k] == r0[k],
                self.priority_queue@ == q0 + prio_pushes(r0, bits, have, increase, i as int),
                self.pieces_in_flight@.len() == n,
                forall|j: int| 0 <= j < q0.len() ==> (q0[j].1 as int) < n,
                forall|a: int, b: int|
                    0 <= a < b < self.peer_bitfields@.len() ==> self.peer_bitfields@[a].0
                        != self.peer_bitfields@[b].0,
                self.peer_bitfields@ == old(self).peer_bitfields@,
                self.pieces_in_flight@ == old(self).pieces_in_flight@,
            decreases n - i,
        {
            if i < bitfield.len() && i < self.have.len() && bitfield[i] && !self.have[i] {
                let count = self.piece_rarity[i];
                proof {
                    assert(counts_for(r0, bits, have, i as int));
                }
                let new_count = if increase {
                    count + 1
                } else if count == 0 {
                    0
                } else {
                    count - 1
                };
                self.piece_rarity.set(i, new_count);
                self.priority_queue.push((new_count, i as u32));
            }
            i = i + 1;
            proof {
                assert(self.priority_queue@ =~= q0 + prio_pushes(r0, bits, have, increase, i as int));
            }
        }
        proof {
            assert(self.piece_rarity@ =~= new_r);
            let p = prio_pushes(r0, bits, have, increase, n as int);
            vstd::seq_lib::lemma_multiset_commutative(q0, p);
            let qa = self.priority_queue@.to_multiset();
            assert(qa == q0.to_multiset().add(p.to_multiset()));
            assert forall|k: int|
                #![trigger self.piece_rarity@[k]]
                0 <= k < self.piece_rarity@.len() && !self.have@[k] && !self.pieces_in_flight@[k] implies qa.count(
                entry_of(self.piece_rarity@, k),
            ) > 0 by {
                if counts_for(r0, bits, have, k) {
                    lemma_pushes_contain(r0, bits, have, increase, n as int, k);
                    assert(p.to_multiset().count((new_r[k], k as u32)) > 0);
                } else {
                    assert(new_r[k] == r0[k]);
                    assert(r0 == old(self).piece_rarity@);
                    assert(old(self).priority_queue@.to_multiset().count(entry_of(r0, k)) > 0);
                }
            }
            lemma_pushes_bounded(r0, bits, have, increase, n as int);
            assert forall|j: int| 0 <= j < self.priority_queue@.len() implies (
            #[trigger] self.priority_queue@[j].1 as int) < self.piece_rarity@.len() by {
                if j >= q0.len() {
                    assert(self.priority_queue@[j] == p[j - q0.len()]);
                }
            }
        }
    }
}

/// No entry is pushed for pieces that do not count.
proof fn lemma_pushes_empty(r: Seq<u32>, bits: Seq<bool>, have: Seq<bool>, inc: bool, k: int)
    requires
        have.len() == 0,
    ensures
        prio_pushes(r, bits, have, inc, k) == Seq::<(u32, u32)>::empty(),
    decreases k,
{
    if k > 0 {
        lemma_pushes_empty(r, bits, have, inc, k - 1);
    }
}

/// The entries pushed for the pieces below `k` hold the new entry of each piece that counts.
proof fn lemma_pushes_contain(r: Seq<u32>, bits: Seq<bool>, have: Seq<bool>, inc: bool, k: int, i: int)
    requires
        0 <= i < k,
        counts_for(r, bits, have, i),
    ensures
        prio_pushes(r, bits, have, inc, k).contains((prio_rarity(r, bits, have, inc)[i], i as u32)),
    decreases k,
{
    let p = prio_pushes(r, bits, have, inc, k);
    if i == k - 1 {
        assert(p[p.len() - 1] == (prio_rarity(r, bits, have, inc)[i], i as u32));
    } else {
        lemma_pushes_contain(r, bits, have, inc, k - 1, i);
        let before = prio_pushes(r, bits, have, inc, k - 1);
        let j = choose|j: int| 0 <= j < before.len() && before[j] == (prio_rarity(r, bits, have, inc)[i], i as u32);
        assert(p[j] == before[j]);
    }
}

/// The entries pushed for the pieces below `k` name pieces below `k`.
proof fn lemma_pushes_bounded(r: Seq<u32>, bits: Seq<bool>, have: Seq<bool>, inc: bool, k: int)
    requires
        k <= u32::MAX + 1,
    ensures
        forall|j: int|
            0 <= j < prio_pushes(r, bits, have, inc, k).len() ==> (#[trigger] prio_pushes(
                r,
                bits,
                have,
                inc,
                k,
            )[j].1 as int) < k,
    decreases k,
{
    if k > 0 {
        lemma_pushes_bounded(r, bits, have, inc, k - 1);
        let before = prio_pushes(r, bits, have, inc, k - 1);
        let now = prio_pushes(r, bits, have, inc, k);
        assert forall|j: int| 0 <= j < now.len() implies (#[trigger] now[j].1 as int) < k by {
            if j < before.len() {
                assert(now[j] == before[j]);
            }
        }
    }
}

/// `n` unset flags.
fn false_vec(n: usize) -> (res: Vec<bool>)
    ensures
        res@ == falses(n as nat),
{
    let mut v: Vec<bool> = Vec::new();
    while v.len() < n
        invariant
            v@.len() <= n,
            forall|i: int| 0 <= i < v@.len() ==> !v@[i],
        decreases n - v@.len(),
    {
        v.push(false);
    }
    proof {
        assert(v@ =~= falses(n as nat));
    }
    v
}

/// Takes the smallest entry out of a non-empty queue.
fn pop_min(q: &mut Vec<(u32, u32)>) -> (res: (u32, u32))
    requires
        old(q)@.len() > 0,
    ensures
        exists|idx: int|
            0 <= idx < old(q)@.len() && old(q)@[idx] == res && final(q)@ == old(q)@.remove(idx),
        forall|j: int| 0 <= j < old(q)@.len() ==> entry_le(res, #[trigger] old(q)@[j]),
{
    let mut best: usize = 0;
    let mut j: usize = 1;
    while j < q.len()
        invariant
            q@ == old(q)@,
            q@.len() > 0,
            best < q@.len(),
            1 <= j <= q@.len(),
            forall|k: int| 0 <= k < j ==> entry_le(q@[best as int], #[trigger] q@[k]),
        decreases q@.len() - j,
    {
        let cand = q[j];
        let cur = q[best];
        if cand.0 < cur.0 || (cand.0 == cur.0 && cand.1 < cur.1) {
            best = j;
        }
        j = j + 1;
    }
    q.remove(best)
}

impl PieceSelector {
    /// Adds peer `id` with an unset bitfield (as long as our own bitfield, or else as the first
    /// peer's). A peer that is known already keeps its bitfield.
    pub fn add_peer(&mut self, id: PeerId)
        requires
            old(self).wf(),
        ensures
            final(self).wf(),
            peer_bits(old(self).peers(), id) is Some ==> final(self).peers() == old(self).peers(),
            peer_bits(old(self).peers(), id) is None ==> final(self).peers() == old(self).peers().push(
                (id, falses(new_peer_len(old(self).own(), old(self).peers()))),
            ),
            final(self).rarity() == old(self).rarity(),
            final(self).queue() == old(self).queue(),
            final(self).own() == old(self).own(),
            final(self).in_flight() == old(self).in_flight(),
    {
        let n_pieces = if !self.have.is_empty() {
            self.have.len()
        } else if self.peer_bitfields.len() > 0 {
            self.peer_bitfields[0].1.len()
        } else {
            0
        };
        if self.find_peer(&id).is_some() {
            return;
        }
        let ghost old_entries = self.peer_bitfields@;
        proof {
            assert(n_pieces == new_peer_len(old(self).own(), old(self).peers()));
        }
        self.peer_bitfields.push((id, false_vec(n_pieces)));
        proof {
            assert forall|a: int, b: int|
                0 <= a < b < self.peer_bitfields@.len() implies self.peer_bitfields@[a].0
                != self.peer_bitfields@[b].0 by {
                if b == old_entries.len() {
                    assert(old(self).peers()[a].0 == old_entries[a].0);
                }
            }
            assert(self.peers() =~= old(self).peers().push(
                (id, falses(new_peer_len(old(self).own(), old(self).peers()))),
            ));
        }
    }

    /// Whether a peer's bitfield can be counted: no piece it would count is at the highest
    /// rarity a `u32` holds.
    pub fn can_add_bitfield(&self, bitfield: &Vec<bool>) -> (res: bool)
        requires
            self.wf(),
        ensures
            res == forall|i: int|
                counts_for(self.rarity(), bitfield@, self.own(), i) ==> self.rarity()[i] < u32::MAX,
    {
        if self.have.len() == 0 {
            return true;
        }
        let mut i: usize = 0;
        while i < self.piece_rarity.len()
            invariant
                self.wf(),
                self.have@.len() > 0,
                i <= self.piece_rarity@.len(),
                forall|k: int|
                    0 <= k < i ==> (counts_for(self.rarity(), bitfield@, self.own(), k) ==> self.rarity()[k]
                        < u32::MAX),
            decreases self.piece_rarity@.len() - i,
        {
            if i < bitfield.len() && i < self.have.len() && bitfield[i] && !self.have[i]
                && self.piece_rarity[i] == u32::MAX {
                proof {
                    assert(counts_for(self.rarity(), bitfield@, self.own(), i as int));
                    assert(self.rarity()[i as int] == u32::MAX);
                }
                return false;
            }
            i = i + 1;
        }
        true
    }

    /// Whether a have message of peer `id` for piece `have_index` can be counted: when it
    /// applies, the piece is not at the highest rarity a `u32` holds.
    pub fn can_count_have(&self, id: &PeerId, have_index: u32) -> (res: bool)
        requires
            self.wf(),
        ensures
            res == (have_applies(self.peers(), self.rarity(), *id, have_index) ==> self.rarity()[have_index as int]
                < u32::MAX),
    {
        let i = have_index as usize;
        match self.find_peer(id) {
            None => true,
            Some(p) => {
                if i < self.peer_bitfields[p].1.len() && i < self.piece_rarity.len() {
                    self.piece_rarity[i] < u32::MAX
                } else {
                    true
                }
            },
        }
    }

    /// The number of pieces the rarities are kept for.
    pub fn n_pieces(&self) -> (res: usize)
        ensures
            res == self.rarity().len(),
    {
        self.piece_rarity.len()
    }

    /// The number of known peers.
    pub fn n_peers(&self) -> (res: usize)
        ensures
            res == self.peers().len(),
    {
        self.peer_bitfields.len()
    }

    /// Removes peer `id`, lowering the rarity of the pieces it had.
    pub fn remove_peer(&mut self, id: &PeerId)
        requires
            old(self).wf(),
        ensures
            final(self).wf(),
            peer_bits(old(self).peers(), *id) is None ==> final(self).peers() == old(self).peers()
                && final(self).rarity() == old(self).rarity() && final(self).queue() == old(self).queue(),
            peer_bits(old(self).peers(), *id) matches Some(bits) ==> {
                &&& final(self).peers() == old(self).peers().remove(
                    peer_index(old(self).peers(), *id),
                )
                &&& final(self).rarity() == prio_rarity(old(self).rarity(), bits, old(self).own(), false)
                &&& final(self).queue() == old(self).queue().add(
                    prio_pushes(
                        old(self).rarity(),
                        bits,
                        old(self).own(),
                        false,
                        old(self).rarity().len() as int,
                    ).to_multiset(),
                )
            },
            final(self).own() == old(self).own(),
            final(self).in_flight() == old(self).in_flight(),
            forall|i: int|
                0 <= i < old(self).rarity().len() && !old(self).own()[i] && old(self).rarity()[i]
                    == count_bit(old(self).peers(), i) ==> #[trigger] final(self).rarity()[i]
                    == count_bit(final(self).peers(), i),
    {
        match self.find_peer(id) {
            None => {},
            Some(idx) => {
                let ghost peers0 = old(self).peers();
                let entry = self.peer_bitfields.remove(idx);
                proof {
                    let p = old(self).peers();
                    assert(p[idx as int].0 == *id);
                    let c = peer_index(p, *id);
                    assert(c == idx) by {
                        if c != idx {
                            if c < idx {
                                assert(old(self).peer_bitfields@[c].0 != old(self).peer_bitfields@[idx as int].0);
                            } else {
                                assert(old(self).peer_bitfields@[idx as int].0 != old(self).peer_bitfields@[c].0);
                            }
                        }
                    }
                    assert(self.peers() =~= p.remove(idx as int));
                    assert forall|a: int, b: int|
                        0 <= a < b < self.peer_bitfields@.len() implies self.peer_bitfields@[a].0
                        != self.peer_bitfields@[b].0 by {
                        let a0 = if a < idx { a } else { a + 1 };
                        let b0 = if b < idx { b } else { b + 1 };
                        assert(old(self).peer_bitfields@[a0].0 != old(self).peer_bitfields@[b0].0);
                    }
                }
                self.update_prio_queue(&entry.1, false);
                proof {
                    assert forall|i: int|
                        0 <= i < old(self).rarity().len() && !old(self).own()[i] && old(self).rarity()[i]
                            == count_bit(peers0, i) implies #[trigger] self.rarity()[i]
                            == count_bit(self.peers(), i) by {
                        assert(entry.1@ == peers0[idx as int].1);
                        law_remove_peer_recounts(old(self).rarity(), peers0, old(self).own(), idx as int, i);
                    }
                }
            },
        }
    }

    /// Records the bitfield a peer sent. Empty bitfields of other peers are first extended to
    /// its length; nothing happens for an empty bitfield or an unknown peer.
    pub fn add_peer_bitfield(&mut self, id: &PeerId, bitfield: Vec<bool>)
        requires
            old(self).wf(),
            bitfield@.len() > 0 && peer_bits(resize_empties(old(self).peers(), bitfield@.len()), *id)
                is Some ==> forall|i: int|
                counts_for(old(self).rarity(), bitfield@, old(self).own(), i) ==> old(self).rarity()[i] < u32::MAX,
        ensures
            final(self).wf(),
            bitfield@.len() == 0 ==> final(self).peers() == old(self).peers() && final(self).rarity() == old(self).rarity() && final(self).queue() == old(self).queue(),
            bitfield@.len() > 0 && peer_bits(resize_empties(old(self).peers(), bitfield@.len()), *id)
                is None ==> final(self).peers() == resize_empties(old(self).peers(), bitfield@.len())
                && final(self).rarity() == old(self).rarity() && final(self).queue() == old(self).queue(),
            bitfield@.len() > 0 && peer_bits(resize_empties(old(self).peers(), bitfield@.len()), *id)
                is Some ==> {
                &&& final(self).peers() == set_peer_bits(
                    resize_empties(old(self).peers(), bitfield@.len()),
                    *id,
                    bitfield@,
                )
                &&& final(self).rarity() == prio_rarity(
                    old(self).rarity(),
                    bitfield@,
                    old(self).own(),
                    true,
                )
                &&& final(self).queue() == old(self).queue().add(
                    prio_pushes(
                        old(self).rarity(),
                        bitfield@,
                        old(self).own(),
                        true,
                        old(self).rarity().len() as int,
                    ).to_multiset(),
                )
            },
            final(self).own() == old(self).own(),
            final(self).in_flight() == old(self).in_flight(),
    {
        if bitfield.len() == 0 {
            return;
        }
        let n = bitfield.len();
        let mut k: usize = 0;
        while k < self.peer_bitfields.len()
            invariant
                self.wf(),
                n == bitfield@.len(),
                k <= self.peer_bitfields@.len(),
                self.peer_bitfields@.len() == old(self).peer_bitfields@.len(),
                forall|j: int|
                    0 <= j < k ==> self.peers()[j] == resize_empties(old(self).peers(), n as nat)[j],
                forall|j: int| k <= j < self.peer_bitfields@.len() ==> self.peer_bitfields@[j]
                    == old(self).peer_bitfields@[j],
                self.piece_rarity@ == old(self).piece_rarity@,
                self.priority_queue@ == old(self).priority_queue@,
                self.have@ == old(self).have@,
                self.pieces_in_flight@ == old(self).pieces_in_flight@,
            decreases self.peer_bitfields@.len() - k,
        {
            let ghost pre = self.peers();
            let ghost pre_v = self.peer_bitfields@;
            if self.peer_bitfields[k].1.len() == 0 {
                let pid = self.peer_bitfields[k].0;
                self.peer_bitfields.set(k, (pid, false_vec(n)));
                proof {
                    assert(self.peers()[k as int].1 =~= falses(n as nat));
                }
            }
            proof {
                assert(self.peers()[k as int] == resize_empties(old(self).peers(), n as nat)[k as int]);
                assert forall|j: int| 0 <= j < k + 1 implies self.peers()[j] == resize_empties(
                    old(self).peers(),
                    n as nat,
                )[j] by {
                    if j < k {
                        assert(self.peer_bitfields@[j] == pre_v[j]);
                        assert(pre[j] == resize_empties(old(self).peers(), n as nat)[j]);
                    }
                }
            }
            k = k + 1;
        }
        proof {
            assert(self.peers() =~= resize_empties(old(self).peers(), n as nat));
        }
        match self.find_peer(id) {
            None => {},
            Some(idx) => {
                let ghost before = self.peers();
                self.peer_bitfields.set(idx, (*id, bitfield.clone()));
                proof {
                    assert forall|j: int| 0 <= j < before.len() && j != idx implies before[j].0 != *id by {
                        if j < idx {
                            assert(self.peer_bitfields@[j].0 != self.peer_bitfields@[idx as int].0);
                        } else {
                            assert(self.peer_bitfields@[idx as int].0 != self.peer_bitfields@[j].0);
                        }
                    }
                    assert(self.peers() =~= set_peer_bits(before, *id, bitfield@));
                    assert(peer_bits(resize_empties(old(self).peers(), bitfield@.len()), *id) is Some);
                    assert forall|i: int|
                        counts_for(self.rarity(), bitfield@, self.own(), i) implies self.rarity()[i]
                        < u32::MAX by {
                        assert(counts_for(old(self).rarity(), bitfield@, old(self).own(), i));
                    }
                }
                self.update_prio_queue(&bitfield, true);
            },
        }
    }
}

impl PieceSelector {
    /// Records that peer `id` now has piece `have_index`. When the peer did not have it yet,
    /// its flag is set, the piece's rarity (the number of peers that have it) goes up by one,
    /// and a queue entry is pushed when we do not have the piece. Nothing happens when the peer
    /// had announced the piece already, for an unknown peer, or for an index beyond its
    /// bitfield or the pieces.
    pub fn update_from_peer_have(&mut self, id: &PeerId, have_index: u32)
        requires
            old(self).wf(),
            have_applies(old(self).peers(), old(self).rarity(), *id, have_index) ==> old(
                self).rarity()[have_index as int] < u32::MAX,
        ensures
            final(self).wf(),
            final(self).own() == old(self).own(),
            final(self).in_flight() == old(self).in_flight(),
            have_applies(old(self).peers(), old(self).rarity(), *id, have_index)
                && !peer_bits(old(self).peers(), *id)->Some_0[have_index as int] ==> {
                let i = have_index as int;
                let r = (old(self).rarity()[i] + 1) as u32;
                let b = peer_bits(old(self).peers(), *id)->Some_0;
                &&& final(self).peers() == set_peer_bits(old(self).peers(), *id, b.update(i, true))
                &&& final(self).rarity() == old(self).rarity().update(i, r)
                &&& final(self).queue() == if i < old(self).own().len() && !old(self).own()[i] {
                    old(self).queue().insert((r, have_index))
                } else {
                    old(self).queue()
                }
            },
            !(have_applies(old(self).peers(), old(self).rarity(), *id, have_index)
                && !peer_bits(old(self).peers(), *id)->Some_0[have_index as int]) ==> final(
                self).peers() == old(self).peers() && final(self).rarity() == old(self).rarity()
                && final(self).queue() == old(self).queue(),
    {
        let i = have_index as usize;
        let idx = match self.find_peer(id) {
            Some(idx) => idx,
            None => return,
        };
        if i >= self.peer_bitfields[idx].1.len() || i >= self.piece_rarity.len() || self.peer_bitfields[idx].1[i] {
            return;
        }
        let ghost before = self.peers();
        let ghost old_bits = self.peer_bitfields@[idx as int].1@;
        let (pid, mut bits) = self.peer_bitfields.remove(idx);
        bits.set(i, true);
        self.peer_bitfields.insert(idx, (pid, bits));
        proof {
            assert forall|j: int| 0 <= j < before.len() && j != idx implies before[j].0 != *id by {
                if j < idx {
                    assert(old(self).peer_bitfields@[j].0 != old(self).peer_bitfields@[idx as int].0);
                } else {
                    assert(old(self).peer_bitfields@[idx as int].0 != old(self).peer_bitfields@[j].0);
                }
            }
            assert(self.peer_bitfields@ =~= old(self).peer_bitfields@.update(
                idx as int,
                (pid, bits),
            ));
            assert(self.peers() =~= set_peer_bits(before, *id, old_bits.update(i as int, true)));
        }
        let rarity = self.piece_rarity[i] + 1;
        self.piece_rarity.set(i, rarity);
        if i < self.have.len() && !self.have[i] {
            self.priority_queue.push((rarity, have_index));
        }
    }

    /// Selects up to `count` pieces to request from peer `id`, rarest first and by index
    /// among equally rare ones: takes the smallest entries out of the queue and selects the
    /// pieces whose entry is current and which the peer has, we lack and nobody requests yet
    /// (those become requested). Current entries of pieces the peer lacks go back into the
    /// queue; stale entries are dropped. `None` for an unknown peer or when nothing was
    /// selected.
    pub fn select_pieces_for_peer(&mut self, id: &PeerId, count: usize) -> (res: Option<Vec<u32>>)
        requires
            old(self).wf(),
        ensures
            final(self).wf(),
            final(self).own() == old(self).own(),
            final(self).peers() == old(self).peers(),
            final(self).rarity() == old(self).rarity(),
            peer_bits(old(self).peers(), *id) is None ==> res is None && final(self).queue()
                == old(self).queue() && final(self).in_flight() == old(self).in_flight(),
            peer_bits(old(self).peers(), *id) matches Some(peer_has) ==> selected_rarest(
                old(self).rarity(),
                old(self).own(),
                old(self).in_flight(),
                final(self).in_flight(),
                peer_has,
                count,
                res,
            ),
            res is Some ==> final(self).queue().len() < old(self).queue().len(),
            final(self).queue().len() <= old(self).queue().len(),
    {
        let idx = match self.find_peer(id) {
            Some(idx) => idx,
            None => return None,
        };
        let ghost peer_has = self.peer_bitfields@[idx as int].1@;
        let ghost q0 = self.priority_queue@;
        let ghost fl0 = self.pieces_in_flight@;
        let ghost rarity = self.piece_rarity@;
        let ghost have = self.have@;
        let ghost mut popped: Seq<(u32, u32)> = Seq::empty();
        let mut queue: Vec<u32> = Vec::new();
        let mut kept: Vec<(u32, u32)> = Vec::new();
        while queue.len() < count && self.priority_queue.len() > 0
            invariant
                old(self).wf(),
                idx < self.peer_bitfields@.len(),
                peer_has == self.peer_bitfields@[idx as int].1@,
                self.peer_bitfields@ == old(self).peer_bitfields@,
                self.piece_rarity@ == rarity,
                rarity == old(self).piece_rarity@,
                self.have@ == have,
                have == old(self).have@,
                fl0 == old(self).pieces_in_flight@,
                q0 == old(self).priority_queue@,
                rarity.len() == fl0.len(),
                rarity.len() == have.len(),
                rarity.len() <= u32::MAX,
                self.pieces_in_flight@.len() == rarity.len(),
                forall|j: int| 0 <= j < q0.len() ==> (#[trigger] q0[j].1 as int) < rarity.len(),
                forall|j: int| 0 <= j < self.priority_queue@.len() ==> (#[trigger] self.priority_queue@[j].1 as int) < rarity.len(),
                forall|j: int| 0 <= j < popped.len() ==> (#[trigger] popped[j].1 as int) < rarity.len(),
                q0.to_multiset() == popped.to_multiset().add(self.priority_queue@.to_multiset()),
                entries_sorted(popped),
                forall|a: int, j: int|
                    0 <= a < popped.len() && 0 <= j < self.priority_queue@.len() ==> entry_le(
                        popped[a],
                        self.priority_queue@[j],
                    ),
                select_run(popped, rarity, peer_has, have, fl0) == (queue@, self.pieces_in_flight@, kept@),
                popped.len() > 0 ==> select_run(popped.drop_last(), rarity, peer_has, have, fl0).0.len() < count,
                queue@.len() <= count,
            decreases self.priority_queue@.len(),
        {
            let ghost q_before = self.priority_queue@;
            let e = pop_min(&mut self.priority_queue);
            let ghost popped_before = popped;
            proof {
                popped = popped.push(e);
                let k = choose|k: int|
                    0 <= k < q_before.len() && q_before[k] == e && self.priority_queue@
                        == q_before.remove(k);
                assert(q_before.to_multiset() =~= self.priority_queue@.to_multiset().insert(e));
                assert(q0.to_multiset() =~= popped.to_multiset().add(self.priority_queue@.to_multiset()));
                assert forall|a: int, b: int| 0 <= a < b < popped.len() implies entry_le(
                    popped[a],
                    popped[b],
                ) by {
                    if b == popped.len() - 1 {
                        assert(entry_le(popped_before[a], q_before[k]));
                    }
                }
                assert forall|a: int, j: int|
                    0 <= a < popped.len() && 0 <= j < self.priority_queue@.len() implies entry_le(
                    popped[a],
                    self.priority_queue@[j],
                ) by {
                    let j0 = if j < k { j } else { j + 1 };
                    assert(self.priority_queue@[j] == q_before[j0]);
                    if a < popped.len() - 1 {
                        assert(entry_le(popped_before[a], q_before[j0]));
                    } else {
                        assert(entry_le(e, q_before[j0]));
                    }
                }
                assert(popped.drop_last() =~= popped_before);
                assert((e.1 as int) < rarity.len()) by {
                    assert(q_before[k] == e);
                }
                assert forall|j: int| 0 <= j < self.priority_queue@.len() implies (
                #[trigger] self.priority_queue@[j].1 as int) < rarity.len() by {
                    let j0 = if j < k { j } else { j + 1 };
                    assert(self.priority_queue@[j] == q_before[j0]);
                }
                assert forall|j: int| 0 <= j < popped.len() implies (#[trigger] popped[j].1 as int) < rarity.len() by {
                    if j < popped.len() - 1 {
                        assert(popped[j] == popped_before[j]);
                    }
                }
            }
            let i = e.1 as usize;
            let current = self.piece_rarity[i] == e.0;
            let bits = &self.peer_bitfields[idx].1;
            if current && i < bits.len() && bits[i] && !self.have[i] && !self.pieces_in_flight[i] {
                queue.push(e.1);
                self.pieces_in_flight.set(i, true);
            } else if current && !self.have[i] && !self.pieces_in_flight[i] {
                kept.push(e);
            }
            proof {
                assert(select_run(popped, rarity, peer_has, have, fl0) == (queue@, self.pieces_in_flight@, kept@));
            }
        }
        let ghost remaining = self.priority_queue@;
        let ghost kept_all = kept@;
        assert(forall|j: int| 0 <= j < remaining.len() ==> (#[trigger] remaining[j].1 as int) < rarity.len());
        let ghost fl_end = self.pieces_in_flight@;
        let ghost sel_end = queue@;
        let mut j: usize = 0;
        while j < kept.len()
            invariant
                j <= kept_all.len(),
                kept@ == kept_all,
                self.piece_rarity@ == rarity,
                self.have@ == have,
                self.pieces_in_flight@ == fl_end,
                self.peer_bitfields@ == old(self).peer_bitfields@,
                queue@ == sel_end,
                self.priority_queue@ == remaining + kept_all.subrange(0, j as int),
            decreases kept_all.len() - j,
        {
            self.priority_queue.push(kept[j]);
            proof {
                assert(self.priority_queue@ =~= remaining + kept_all.subrange(0, j + 1));
            }
            j = j + 1;
        }
        proof {
            assert(self.priority_queue@ =~= remaining + kept_all);
            vstd::seq_lib::lemma_multiset_commutative(remaining, kept_all);
            lemma_select_run(popped, rarity, peer_has, have, fl0);
        }
        let res = if queue.len() == 0 {
            None
        } else {
            Some(queue)
        };
        proof {
            let (sel, fl, kp) = select_run(popped, rarity, peer_has, have, fl0);
            let qa = self.priority_queue@.to_multiset();
            let rem = remaining.to_multiset();
            assert(qa == rem.add(kept_all.to_multiset()));
            assert(peer_bits(old(self).peers(), *id) == Some(peer_has));
            // the kept entries name known pieces
            assert forall|x: (u32, u32)| kept_all.contains(x) implies (x.1 as int) < rarity.len() && is_current(x, rarity) by {
                lemma_kept_current(popped, rarity, peer_has, have, fl0, x);
            }
            assert forall|jj: int| 0 <= jj < self.priority_queue@.len() implies (
            #[trigger] self.priority_queue@[jj].1 as int) < self.piece_rarity@.len() by {
                if jj >= remaining.len() {
                    assert(self.priority_queue@[jj] == kept_all[jj - remaining.len()]);
                    assert(kept_all.contains(kept_all[jj - remaining.len()]));
                } else {
                    assert(self.priority_queue@[jj] == remaining[jj]);
                }
            }
            // eligible pieces not taken still have their entry in what remains
            assert forall|i: int|
                eligible(rarity, have, fl0, peer_has, i) && !sel.contains(i as u32) implies rem.count(
                entry_of(rarity, i),
            ) > 0 by {
                let x = entry_of(rarity, i);
                assert(q0.to_multiset().count(x) > 0);
                if popped.to_multiset().count(x) > 0 {
                    assert(popped.contains(x));
                    let jp = choose|jp: int| 0 <= jp < popped.len() && popped[jp] == x;
                    assert(is_current(popped[jp], rarity));
                }
            }
            // the whole outcome
            assert forall|i: int|
                eligible(rarity, have, fl0, peer_has, i) && !taken(res, i) implies {
                &&& n_taken(res) == count
                &&& res matches Some(v) ==> forall|jv: int|
                    0 <= jv < v@.len() ==> entry_le(entry_of(rarity, #[trigger] v@[jv] as int), entry_of(rarity, i))
            } by {
                assert(!sel.contains(i as u32));
                let x = entry_of(rarity, i);
                assert(rem.count(x) > 0);
                assert(remaining.contains(x));
                assert(remaining.len() > 0);
                if popped.len() > 0 {
                    let (sp, fp, kpp) = select_run(popped.drop_last(), rarity, peer_has, have, fl0);
                    assert(sel.len() <= sp.len() + 1);
                }
                assert(sel.len() == count);
                let jr = choose|jr: int| 0 <= jr < remaining.len() && remaining[jr] == x;
                if res is Some {
                    assert forall|jv: int| 0 <= jv < sel.len() implies entry_le(entry_of(rarity, #[trigger] sel[jv] as int), x) by {
                        assert(popped.contains(entry_of(rarity, sel[jv] as int)));
                        let a = choose|a: int| 0 <= a < popped.len() && popped[a] == entry_of(rarity, sel[jv] as int);
                        assert(entry_le(popped[a], remaining[jr]));
                    }
                }
            }
            if popped.len() > 0 {
                let (sp, fp, kpp) = select_run(popped.drop_last(), rarity, peer_has, have, fl0);
                assert(sel.len() <= sp.len() + 1);
            }
            assert forall|i: int| 0 <= i < fl0.len() implies fl[i] == (fl0[i] || taken(res, i)) by {
                if res is None {
                    assert(!sel.contains(i as u32));
                }
            }
            // coverage afterwards
            assert forall|i: int|
                #![trigger rarity[i]]
                0 <= i < rarity.len() && !have[i] && !fl[i] implies qa.count(entry_of(rarity, i)) > 0 by {
                let x = entry_of(rarity, i);
                assert(!fl0[i]);
                assert(old(self).priority_queue@.to_multiset().count(x) > 0);
                if popped.to_multiset().count(x) > 0 {
                    assert(popped.contains(x));
                    let jp = choose|jp: int| 0 <= jp < popped.len() && popped[jp] == x;
                    assert(is_current(popped[jp], rarity));
                    assert(kp.contains(x));
                    assert(kept_all.to_multiset().count(x) > 0);
                } else {
                    assert(rem.count(x) > 0);
                }
            }
            // the queue shrinks when something was taken
            assert(q0.len() == popped.len() + remaining.len()) by {
                assert(q0.to_multiset().len() == popped.to_multiset().len() + rem.len());
            }
        }
        res
    }
}

/// An entry kept while selecting is a current entry of a known piece.
proof fn lemma_kept_current(
    popped: Seq<(u32, u32)>,
    rarity: Seq<u32>,
    peer_has: Seq<bool>,
    have: Seq<bool>,
    in_flight: Seq<bool>,
    x: (u32, u32),
)
    requires
        forall|j: int| 0 <= j < popped.len() ==> (#[trigger] popped[j].1 as int) < rarity.len(),
        select_run(popped, rarity, peer_has, have, in_flight).2.contains(x),
    ensures
        (x.1 as int) < rarity.len(),
        is_current(x, rarity),
    decreases popped.len(),
{
    if popped.len() > 0 {
        let pre = popped.drop_last();
        assert forall|j: int| 0 <= j < pre.len() implies (#[trigger] pre[j].1 as int) < rarity.len() by {
            assert(pre[j] == popped[j]);
        }
        let (sel0, fl0, kept0) = select_run(pre, rarity, peer_has, have, in_flight);
        let e = popped.last();
        let kept = select_run(popped, rarity, peer_has, have, in_flight).2;
        if kept0.contains(x) {
            lemma_kept_current(pre, rarity, peer_has, have, in_flight, x);
        } else {
            let j = choose|j: int| 0 <= j < kept.len() && kept[j] == x;
            if kept == kept0.push(e) {
                if j < kept0.len() {
                    assert(kept0[j] == x);
                }
                assert(popped[popped.len() - 1] == e);
            } else {
                assert(kept0[j] == x);
            }
        }
    }
}

/// `v` cut or extended with `false` to `n` flags.
fn resize_bits(v: &Vec<bool>, n: usize) -> (res: Vec<bool>)
    ensures
        res@ == resized(v@, n as nat),
{
    let mut out: Vec<bool> = Vec::new();
    while out.len() < n
        invariant
            out@.len() <= n,
            forall|i: int| 0 <= i < out@.len() ==> out@[i] == (i < v@.len() && v@[i]),
        decreases n - out@.len(),
    {
        let i = out.len();
        out.push(i < v.len() && v[i]);
    }
    proof {
        assert(out@ =~= resized(v@, n as nat));
    }
    out
}

/// At most every peer has a piece.
proof fn lemma_count_bit_bound(peers: Seq<(PeerId, Seq<bool>)>, i: int)
    ensures
        count_bit(peers, i) <= peers.len(),
    decreases peers.len(),
{
    if peers.len() > 0 {
        lemma_count_bit_bound(peers.drop_last(), i);
    }
}

impl PieceSelector {
    /// Takes our own bitfield, now that its length is known: every peer's bitfield is cut or
    /// extended to it, each piece's rarity becomes the number of peers that have it, and a
    /// queue entry is pushed for each piece we lack; the in-flight flags are cut or extended
    /// too.
    pub fn update_from_self_have(&mut self, bitfield: Vec<bool>)
        requires
            old(self).wf(),
            bitfield@.len() <= u32::MAX,
            bitfield@.len() >= old(self).rarity().len(),
            old(self).peers().len() <= u32::MAX,
        ensures
            final(self).wf(),
            final(self).own() == bitfield@,
            final(self).peers() == resize_all(old(self).peers(), bitfield@.len()),
            final(self).rarity() == recount(final(self).peers(), bitfield@.len()),
            final(self).queue() == old(self).queue().add(
                lacking_entries(final(self).rarity(), bitfield@, bitfield@.len() as int).to_multiset(),
            ),
            final(self).in_flight() == resized(old(self).in_flight(), bitfield@.len()),
    {
        let n = bitfield.len();
        self.have = bitfield;
        let ghost peers0 = old(self).peers();
        let ghost p1 = resize_all(peers0, n as nat);
        let mut k: usize = 0;
        while k < self.peer_bitfields.len()
            invariant
                n == self.have@.len(),
                self.have@ == bitfield@,
                peers0 == old(self).peers(),
                p1 == resize_all(peers0, n as nat),
                k <= self.peer_bitfields@.len(),
                self.peer_bitfields@.len() == peers0.len(),
                forall|j: int| 0 <= j < self.peer_bitfields@.len() ==> self.peer_bitfields@[j].0
                    == peers0[j].0,
                forall|j: int| 0 <= j < k ==> self.peer_bitfields@[j].1@ == p1[j].1,
                forall|j: int| k <= j < self.peer_bitfields@.len() ==> self.peer_bitfields@[j].1@
                    == peers0[j].1,
                self.piece_rarity@ == old(self).piece_rarity@,
                self.priority_queue@ == old(self).priority_queue@,
                self.pieces_in_flight@ == old(self).pieces_in_flight@,
            decreases self.peer_bitfields@.len() - k,
        {
            let pid = self.peer_bitfields[k].0;
            let bits = resize_bits(&self.peer_bitfields[k].1, n);
            self.peer_bitfields.set(k, (pid, bits));
            k = k + 1;
        }
        proof {
            assert(self.peers() =~= p1);
            assert forall|a: int, b: int|
                0 <= a < b < self.peer_bitfields@.len() implies self.peer_bitfields@[a].0
                != self.peer_bitfields@[b].0 by {
                assert(peers0[a].0 == old(self).peer_bitfields@[a].0);
                assert(peers0[b].0 == old(self).peer_bitfields@[b].0);
                assert(old(self).peer_bitfields@[a].0 != old(self).peer_bitfields@[b].0);
            }
        }
        let n_peers = self.peer_bitfields.len();
        let mut rarity: Vec<u32> = vec![0u32; n];
        proof {
            assert forall|i: int| 0 <= i < n implies rarity@[i] == count_bit(p1.take(0), i) by {
                assert(p1.take(0).len() == 0);
            }
        }
        let mut k: usize = 0;
        while k < n_peers
            invariant
                n_peers == p1.len(),
                n_peers <= u32::MAX,
                p1 == self.peers(),
                p1 == resize_all(peers0, n as nat),
                k <= n_peers,
                rarity@.len() == n,
                forall|i: int| 0 <= i < n ==> rarity@[i] == count_bit(p1.take(k as int), i),
            decreases n_peers - k,
        {
            let mut i: usize = 0;
            let ghost before = rarity@;
            proof {
                assert(p1.take(k + 1).drop_last() =~= p1.take(k as int));
            }
            while i < n
                invariant
                    n_peers == p1.len(),
                    n_peers <= u32::MAX,
                    p1 == self.peers(),
                    p1 == resize_all(peers0, n as nat),
                    k < n_peers,
                    i <= n,
                    rarity@.len() == n,
                    before.len() == n,
                    forall|j: int| 0 <= j < n ==> before[j] == count_bit(p1.take(k as int), j),
                    forall|j: int| 0 <= j < i ==> rarity@[j] == count_bit(p1.take(k + 1), j),
                    forall|j: int| i <= j < n ==> rarity@[j] == before[j],
                    p1.take(k + 1).drop_last() == p1.take(k as int),
                decreases n - i,
            {
                proof {
                    lemma_count_bit_bound(p1.take(k as int), i as int);
                    assert(p1.take(k as int).len() == k);
                    assert(self.peers()[k as int].1 == p1[k as int].1);
                    assert(self.peers()[k as int].1 == self.peer_bitfields@[k as int].1@);
                    assert(p1.take(k + 1).last() == p1[k as int]);
                    assert(count_bit(p1.take(k + 1), i as int) == count_bit(p1.take(k as int), i as int)
                        + if (i as int) < p1[k as int].1.len() && p1[k as int].1[i as int] {
                        1nat
                    } else {
                        0nat
                    });
                }
                let ghost cur = rarity@;
                let has = i < self.peer_bitfields[k].1.len() && self.peer_bitfields[k].1[i];
                proof {
                    assert(has == ((i as int) < p1[k as int].1.len() && p1[k as int].1[i as int]));
                    assert(before[i as int] == count_bit(p1.take(k as int), i as int));
                    assert(cur[i as int] == before[i as int]);
                }
                if has {
                    let c = rarity[i];
                    proof {
                        assert(c == before[i as int]);
                        assert(c <= k);
                    }
                    rarity.set(i, c + 1);
                }
                proof {
                    assert(rarity@[i as int] == count_bit(p1.take(k + 1), i as int));
                    assert forall|j: int| 0 <= j < i implies rarity@[j] == count_bit(p1.take(k + 1), j) by {
                        assert(rarity@[j] == cur[j]);
                    }
                }
                i = i + 1;
            }
            k = k + 1;
        }
        proof {
            assert(p1.take(n_peers as int) =~= p1);
            assert(rarity@ =~= recount(p1, n as nat));
        }
        self.piece_rarity = rarity;
        let ghost q0 = self.priority_queue@;
        let ghost r0 = recount(p1, n as nat);
        self.pieces_in_flight = resize_bits(&self.pieces_in_flight, n);
        let mut i: usize = 0;
        while i < n
            invariant
                n == self.have@.len(),
                n <= u32::MAX,
                self.have@ == bitfield@,
                self.piece_rarity@ == r0,
                r0.len() == n,
                self.peers() == p1,
                p1 == resize_all(peers0, n as nat),
                peers0 == old(self).peers(),
                self.pieces_in_flight@ == resized(old(self).pieces_in_flight@, n as nat),
                forall|a: int, b: int|
                    0 <= a < b < self.peer_bitfields@.len() ==> self.peer_bitfields@[a].0
                        != self.peer_bitfields@[b].0,
                i <= n,
                self.priority_queue@ == q0 + lacking_entries(r0, bitfield@, i as int),
                forall|j: int| 0 <= j < q0.len() ==> (#[trigger] q0[j].1 as int) < old(self).piece_rarity@.len(),
                old(self).piece_rarity@.len() <= n,
                forall|j: int|
                    0 <= j < lacking_entries(r0, bitfield@, i as int).len() ==> (
                    #[trigger] lacking_entries(r0, bitfield@, i as int)[j].1 as int) < i,
                forall|k: int|
                    0 <= k < i && !bitfield@[k] ==> #[trigger] lacking_entries(r0, bitfield@, i as int).contains(entry_of(r0, k)),
            decreases n - i,
        {
            let ghost before = lacking_entries(r0, bitfield@, i as int);
            if !self.have[i] {
                let r = self.piece_rarity[i];
                self.priority_queue.push((r, i as u32));
            }
            proof {
                let after = lacking_entries(r0, bitfield@, i + 1);
                assert(after == if !bitfield@[i as int] {
                    before.push(entry_of(r0, i as int))
                } else {
                    before
                });
                assert(self.priority_queue@ =~= q0 + after);
                assert forall|j: int| 0 <= j < after.len() implies (#[trigger] after[j].1 as int) < i + 1 by {
                    if j < before.len() {
                        assert(after[j] == before[j]);
                    }
                }
                assert forall|k: int| 0 <= k < i + 1 && !bitfield@[k] implies #[trigger] after.contains(entry_of(r0, k)) by {
                    if k < i {
                        assert(before.contains(entry_of(r0, k)));
                        let j = choose|j: int| 0 <= j < before.len() && before[j] == entry_of(r0, k);
                        assert(after[j] == before[j]);
                    } else {
                        assert(after[after.len() - 1] == entry_of(r0, k));
                    }
                }
            }
            i = i + 1;
        }
        proof {
            let l = lacking_entries(r0, bitfield@, n as int);
            vstd::seq_lib::lemma_multiset_commutative(q0, l);
            assert(self.piece_rarity@ =~= recount(self.peers(), n as nat));
            assert forall|j: int| 0 <= j < self.priority_queue@.len() implies (
            #[trigger] self.priority_queue@[j].1 as int) < self.piece_rarity@.len() by {
                if j < q0.len() {
                    assert(self.priority_queue@[j] == q0[j]);
                } else {
                    assert(self.priority_queue@[j] == l[j - q0.len()]);
                }
            }
            assert forall|k: int|
                #![trigger self.piece_rarity@[k]]
                0 <= k < self.piece_rarity@.len() && !self.have@[k] && !self.pieces_in_flight@[k] implies self.priority_queue@.to_multiset().count(
                entry_of(self.piece_rarity@, k),
            ) > 0 by {
                assert(l.contains(entry_of(r0, k)));
                assert(l.to_multiset().count(entry_of(r0, k)) > 0);
            }
        }
    }
}

/// The current entries of the pieces below `k` that we lack, in piece order.
pub open spec fn lacking_entries(rarity: Seq<u32>, have: Seq<bool>, k: int) -> Seq<(u32, u32)>
    decreases k,
{
    if k <= 0 {
        Seq::empty()
    } else if !have[k - 1] {
        lacking_entries(rarity, have, k - 1).push(entry_of(rarity, k - 1))
    } else {
        lacking_entries(rarity, have, k - 1)
    }
}

/// What going through popped entries does: exactly the pieces taken become requested; each
/// piece taken was eligible, has its current entry among the popped ones, and is taken once;
/// every popped current entry of an eligible piece got its piece taken; every popped current
/// entry of a piece we lack that stays unrequested is kept; no more entries are kept or taken
/// than were popped; and popped entries in order give the pieces in order.
pub proof fn lemma_select_run(
    popped: Seq<(u32, u32)>,
    rarity: Seq<u32>,
    peer_has: Seq<bool>,
    have: Seq<bool>,
    in_flight: Seq<bool>,
)
    requires
        rarity.len() == in_flight.len(),
        rarity.len() == have.len(),
        in_flight.len() <= u32::MAX,
        forall|j: int| 0 <= j < popped.len() ==> (#[trigger] popped[j].1 as int) < rarity.len(),
    ensures
        ({
            let (sel, fl, kept) = select_run(popped, rarity, peer_has, have, in_flight);
            &&& fl.len() == in_flight.len()
            &&& forall|i: int|
                0 <= i < in_flight.len() ==> #[trigger] fl[i] == (in_flight[i] || sel.contains(i as u32))
            &&& forall|j: int|
                0 <= j < sel.len() ==> eligible(rarity, have, in_flight, peer_has, #[trigger] sel[j] as int)
                    && popped.contains(entry_of(rarity, sel[j] as int))
            &&& forall|a: int, b: int| 0 <= a < b < sel.len() ==> sel[a] != sel[b]
            &&& forall|j: int|
                0 <= j < popped.len() && is_current(#[trigger] popped[j], rarity) && eligible(
                    rarity,
                    have,
                    in_flight,
                    peer_has,
                    popped[j].1 as int,
                ) ==> sel.contains(popped[j].1)
            &&& forall|j: int|
                0 <= j < popped.len() && is_current(#[trigger] popped[j], rarity) && !have[popped[j].1 as int]
                    && !fl[popped[j].1 as int] ==> kept.contains(popped[j])
            &&& kept.len() + sel.len() <= popped.len()
            &&& entries_sorted(popped) ==> forall|a: int, b: int|
                0 <= a < b < sel.len() ==> entry_le(entry_of(rarity, sel[a] as int), entry_of(rarity, sel[b] as int))
        }),
    decreases popped.len(),
{
    if popped.len() > 0 {
        let pre = popped.drop_last();
        lemma_select_run(pre, rarity, peer_has, have, in_flight);
        let (sel0, fl0, kept0) = select_run(pre, rarity, peer_has, have, in_flight);
        let (sel, fl, kept) = select_run(popped, rarity, peer_has, have, in_flight);
        let e = popped.last();
        assert((e.1 as int) < rarity.len());
        assert forall|j: int| 0 <= j < pre.len() implies #[trigger] pre[j] == popped[j] by {}
        // flags only grow
        assert forall|i: int| 0 <= i < in_flight.len() && fl0[i] implies fl[i] by {}
        assert forall|x: u32| sel0.contains(x) implies sel.contains(x) by {
            let j = choose|j: int| 0 <= j < sel0.len() && sel0[j] == x;
            assert(sel[j] == x);
        }
        assert forall|x: (u32, u32)| kept0.contains(x) implies kept.contains(x) by {
            let j = choose|j: int| 0 <= j < kept0.len() && kept0[j] == x;
            assert(kept[j] == x);
        }
        assert forall|x: (u32, u32)| pre.contains(x) implies popped.contains(x) by {
            let j = choose|j: int| 0 <= j < pre.len() && pre[j] == x;
            assert(popped[j] == x);
        }
        if select_ok(e, rarity, peer_has, have, fl0) {
            assert(sel == sel0.push(e.1));
            assert(!sel0.contains(e.1)) by {
                if sel0.contains(e.1) {
                    let j = choose|j: int| 0 <= j < sel0.len() && sel0[j] == e.1;
                    assert(fl0[e.1 as int]);
                }
            }
            assert(sel[sel.len() - 1] == e.1);
            assert forall|i: int| 0 <= i < in_flight.len() implies #[trigger] fl[i] == (in_flight[i]
                || sel.contains(i as u32)) by {
                if i != e.1 as int {
                    if sel.contains(i as u32) {
                        let j = choose|j: int| 0 <= j < sel.len() && sel[j] == i as u32;
                        assert(j < sel0.len());
                        assert(sel0.contains(i as u32));
                    }
                }
            }
            assert forall|j: int| 0 <= j < sel.len() implies eligible(
                rarity,
                have,
                in_flight,
                peer_has,
                #[trigger] sel[j] as int,
            ) && popped.contains(entry_of(rarity, sel[j] as int)) by {
                if j < sel0.len() {
                    assert(sel[j] == sel0[j]);
                } else {
                    assert(!fl0[e.1 as int]);
                    assert(e == entry_of(rarity, e.1 as int));
                    assert(popped[popped.len() - 1] == e);
                }
            }
            assert forall|a: int, b: int| 0 <= a < b < sel.len() implies sel[a] != sel[b] by {
                if b == sel.len() - 1 {
                    assert(sel0[a] == sel[a]);
                    assert(sel0.contains(sel[a]));
                }
            }
            if entries_sorted(popped) {
                assert(entries_sorted(pre));
                assert forall|a: int, b: int| 0 <= a < b < sel.len() implies entry_le(
                    entry_of(rarity, sel[a] as int),
                    entry_of(rarity, sel[b] as int),
                ) by {
                    if b == sel.len() - 1 {
                        assert(sel[a] == sel0[a]);
                        assert(pre.contains(entry_of(rarity, sel0[a] as int)));
                        let k = choose|k: int| 0 <= k < pre.len() && pre[k] == entry_of(rarity, sel0[a] as int);
                        assert(entry_le(popped[k], popped[popped.len() - 1]));
                        assert(entry_of(rarity, sel[b] as int) == e);
                    } else {
                        assert(sel[a] == sel0[a]);
                        assert(sel[b] == sel0[b]);
                    }
                }
            }
        } else {
            assert(fl == fl0);
            assert(sel == sel0);
        }
        assert forall|j: int|
            0 <= j < popped.len() && is_current(#[trigger] popped[j], rarity) && eligible(
                rarity,
                have,
                in_flight,
                peer_has,
                popped[j].1 as int,
            ) implies sel.contains(popped[j].1) by {
            if j < pre.len() {
                assert(pre[j] == popped[j]);
                assert(sel0.contains(pre[j].1));
            } else {
                if !sel0.contains(e.1) {
                    assert(!fl0[e.1 as int]);
                    assert(select_ok(e, rarity, peer_has, have, fl0));
                    assert(sel[sel.len() - 1] == e.1);
                }
            }
        }
        assert forall|j: int|
            0 <= j < popped.len() && is_current(#[trigger] popped[j], rarity) && !have[popped[j].1 as int]
                && !fl[popped[j].1 as int] implies kept.contains(popped[j]) by {
            if j < pre.len() {
                assert(pre[j] == popped[j]);
                assert(!fl0[pre[j].1 as int]);
                assert(kept0.contains(pre[j]));
            } else {
                assert(!select_ok(e, rarity, peer_has, have, fl0));
                assert(kept == kept0.push(e));
                assert(kept[kept.len() - 1] == e);
            }
        }
    }
}

/// Without peer `idx`, a piece is had by one peer less exactly when that peer had it.
pub proof fn lemma_count_bit_remove(peers: Seq<(PeerId, Seq<bool>)>, idx: int, i: int)
    requires
        0 <= idx < peers.len(),
    ensures
        count_bit(peers, i) == count_bit(peers.remove(idx), i) + if i < peers[idx].1.len() && peers[idx].1[i] {
            1int
        } else {
            0int
        },
    decreases peers.len(),
{
    if idx == peers.len() - 1 {
        assert(peers.remove(idx) =~= peers.drop_last());
    } else {
        lemma_count_bit_remove(peers.drop_last(), idx, i);
        let r = peers.remove(idx);
        assert(r.drop_last() =~= peers.drop_last().remove(idx));
        assert(r.last() == peers.last());
        assert(peers.drop_last()[idx] == peers[idx]);
    }
}

/// When a peer leaves, each piece we lack whose rarity was the number of peers that have it
/// keeps that meaning: its rarity drops by one exactly when the leaving peer had it.
pub proof fn law_remove_peer_recounts(
    rarity: Seq<u32>,
    peers: Seq<(PeerId, Seq<bool>)>,
    have: Seq<bool>,
    idx: int,
    i: int,
)
    requires
        0 <= idx < peers.len(),
        0 <= i < rarity.len(),
        i < have.len(),
        !have[i],
        rarity[i] == count_bit(peers, i),
    ensures
        prio_rarity(rarity, peers[idx].1, have, false)[i] == count_bit(peers.remove(idx), i),
{
    lemma_count_bit_remove(peers, idx, i);
}

} // verus!
