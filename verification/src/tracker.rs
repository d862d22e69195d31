//! Talking to trackers: the announce query, the compact peer lists of the answer (BEP 23 and
//! BEP 7), and the bookkeeping over the tiers of trackers.
use vstd::prelude::*;

use crate::deps::{ascii_string, hex_encode};
use crate::hexdigits::{decimal, hex_lower, push_decimal};
use crate::torrent::InfoHash;
use crate::wire::push_all;

verus! {

/// An announce request to a tracker.
#[derive(Debug, Clone)]
pub struct TrackerRequest<'a> {
    /// The info hash of the torrent.
    pub info_hash: &'a InfoHash,
    /// Our peer id.
    pub peer_id: &'a [u8; 20],
    /// The port we listen on.
    pub port: u16,
    /// The bytes uploaded so far.
    pub uploaded: u32,
    /// The bytes downloaded so far.
    pub downloaded: u32,
    /// The bytes left to download.
    pub left: u32,
    /// Whether the peer list should be compact (1).
    pub compact: u8,
}

/// Whether a byte is an ASCII letter or digit.
pub open spec fn is_alnum(b: u8) -> bool {
    (48 <= b <= 57) || (65 <= b <= 90) || (97 <= b <= 122)
}

/// A byte in a URL query: itself when it is a letter or digit, else `%` and its two
/// lowercase hex digits.
pub open spec fn escape_byte(b: u8) -> Seq<u8> {
    if is_alnum(b) {
        seq![b]
    } else {
        seq![37u8] + hex_lower(seq![b])
    }
}

/// The bytes escaped for a URL query, one after the other.
pub open spec fn url_escaped(bytes: Seq<u8>) -> Seq<u8>
    decreases bytes.len(),
{
    if bytes.len() == 0 {
        Seq::empty()
    } else {
        url_escaped(bytes.drop_last()) + escape_byte(bytes.last())
    }
}

/// The ASCII bytes of a string literal.
pub open spec fn ascii(s: Seq<char>) -> Seq<u8> {
    Seq::new(s.len(), |i: int| s[i] as u8)
}

/// The query of an announce request: its fields as `key=value` pairs joined by `&`, the
/// hashes escaped and the numbers in decimal.
pub open spec fn announce_query(r: TrackerRequest) -> Seq<u8> {
    ascii(seq!['i', 'n', 'f', 'o', '_', 'h', 'a', 's', 'h', '=']) + url_escaped(r.info_hash.0@)
        + ascii(seq!['&', 'p', 'e', 'e', 'r', '_', 'i', 'd', '=']) + url_escaped(r.peer_id@)
        + ascii(seq!['&', 'p', 'o', 'r', 't', '=']) + decimal(r.port as nat)
        + ascii(seq!['&', 'u', 'p', 'l', 'o', 'a', 'd', 'e', 'd', '=']) + decimal(r.uploaded as nat)
        + ascii(seq!['&', 'd', 'o', 'w', 'n', 'l', 'o', 'a', 'd', 'e', 'd', '=']) + decimal(r.downloaded as nat)
        + ascii(seq!['&', 'l', 'e', 'f', 't', '=']) + decimal(r.left as nat)
        + ascii(seq!['&', 'c', 'o', 'm', 'p', 'a', 'c', 't', '=']) + decimal(r.compact as nat)
}

/// Appends the bytes escaped for a URL query.
pub fn push_escaped(out: &mut Vec<u8>, bytes: &[u8])
    ensures
        final(out)@ == old(out)@ + url_escaped(bytes@),
{
    let mut i: usize = 0;
    proof {
        assert(bytes@.subrange(0, 0) =~= Seq::<u8>::empty());
        assert(old(out)@ + url_escaped(Seq::<u8>::empty()) =~= old(out)@);
    }
    while i < bytes.len()
        invariant
            i <= bytes@.len(),
            out@ == old(out)@ + url_escaped(bytes@.subrange(0, i as int)),
        decreases bytes@.len() - i,
    {
        let b = bytes[i];
        let ghost before = out@;
        if (48 <= b && b <= 57) || (65 <= b && b <= 90) || (97 <= b && b <= 122) {
            out.push(b);
        } else {
            out.push(37);
            let one: [u8; 1] = [b];
            let digits = hex_encode(&one);
            proof {
                assert(one@ =~= seq![b]);
            }
            push_all(out, digits.as_slice());
        }
        proof {
            assert(bytes@.subrange(0, i + 1).drop_last() =~= bytes@.subrange(0, i as int));
            assert(bytes@.subrange(0, i + 1).last() == b);
            assert(out@ =~= before + escape_byte(b));
            assert(out@ =~= old(out)@ + url_escaped(bytes@.subrange(0, i + 1)));
        }
        i = i + 1;
    }
    proof {
        assert(bytes@.subrange(0, bytes@.len() as int) =~= bytes@);
    }
}

/// Appends the ASCII bytes of a literal key.
fn push_key(out: &mut Vec<u8>, key: &[u8])
    ensures
        final(out)@ == old(out)@ + key@,
{
    push_all(out, key);
}

/// Every byte of the escaped bytes is ASCII.
pub proof fn lemma_escaped_ascii(bytes: Seq<u8>)
    ensures
        forall|i: int| 0 <= i < url_escaped(bytes).len() ==> url_escaped(bytes)[i] < 128,
    decreases bytes.len(),
{
    if bytes.len() > 0 {
        lemma_escaped_ascii(bytes.drop_last());
        let b = bytes.last();
        assert(0 <= b / 16 < 16 && 0 <= b % 16 < 16);
        let e = escape_byte(b);
        assert forall|i: int| 0 <= i < e.len() implies e[i] < 128 by {
            if !is_alnum(b) && i >= 1 {
                assert(hex_lower(seq![b])[i - 1] < 128);
            }
        }
        let p = url_escaped(bytes.drop_last());
        assert(url_escaped(bytes) == p + e);
        assert forall|i: int| 0 <= i < url_escaped(bytes).len() implies url_escaped(bytes)[i] < 128 by {
            if i < p.len() {
                assert(url_escaped(bytes)[i] == p[i]);
            } else {
                assert(url_escaped(bytes)[i] == e[i - p.len()]);
            }
        }
    }
}

/// Every decimal digit is ASCII.
pub proof fn lemma_decimal_ascii(n: nat)
    ensures
        forall|i: int| 0 <= i < decimal(n).len() ==> decimal(n)[i] < 128,
    decreases n,
{
    if n >= 10 {
        lemma_decimal_ascii(n / 10);
        let p = decimal(n / 10);
        assert(decimal(n) == p.push((48 + n % 10) as u8));
        assert forall|i: int| 0 <= i < decimal(n).len() implies decimal(n)[i] < 128 by {
            if i < p.len() {
                assert(decimal(n)[i] == p[i]);
            }
        }
    }
}

impl<'a> TrackerRequest<'a> {
    /// A compact request for the torrent `info_hash` that reports nothing up- or downloaded
    /// and `left` bytes left.
    pub fn new(info_hash: &'a InfoHash, peer_id: &'a [u8; 20], port: u16, left: u32) -> (res: Self)
        ensures
            res.info_hash == info_hash,
            res.peer_id == peer_id,
            res.port == port,
            res.uploaded == 0,
            res.downloaded == 0,
            res.left == left,
            res.compact == 1,
    {
        Self { info_hash, peer_id, port, uploaded: 0, downloaded: 0, left, compact: 1 }
    }

    /// The query string of the request.
    #[verifier::rlimit(40)]
    pub fn to_url_encoded(&self) -> (res: String)
        ensures
            res@ == Seq::new(announce_query(*self).len(), |i: int| announce_query(*self)[i] as char),
    {
        let mut q: Vec<u8> = Vec::new();
        push_key(&mut q, &[105, 110, 102, 111, 95, 104, 97, 115, 104, 61]);
        push_escaped(&mut q, &self.info_hash.0);
        push_key(&mut q, &[38, 112, 101, 101, 114, 95, 105, 100, 61]);
        push_escaped(&mut q, self.peer_id);
        push_key(&mut q, &[38, 112, 111, 114, 116, 61]);
        push_decimal(&mut q, self.port as u32);
        push_key(&mut q, &[38, 117, 112, 108, 111, 97, 100, 101, 100, 61]);
        push_decimal(&mut q, self.uploaded);
        push_key(&mut q, &[38, 100, 111, 119, 110, 108, 111, 97, 100, 101, 100, 61]);
        push_decimal(&mut q, self.downloaded);
        push_key(&mut q, &[38, 108, 101, 102, 116, 61]);
        push_decimal(&mut q, self.left);
        push_key(&mut q, &[38, 99, 111, 109, 112, 97, 99, 116, 61]);
        push_decimal(&mut q, self.compact as u32);
        proof {
            assert(q@ =~= announce_query(*self));
            lemma_escaped_ascii(self.info_hash.0@);
            lemma_escaped_ascii(self.peer_id@);
            lemma_decimal_ascii(self.port as nat);
            lemma_decimal_ascii(self.uploaded as nat);
            lemma_decimal_ascii(self.downloaded as nat);
            lemma_decimal_ascii(self.left as nat);
            lemma_decimal_ascii(self.compact as nat);
            assert forall|i: int| 0 <= i < q@.len() implies q@[i] < 128 by {
                assert(q@[i] == announce_query(*self)[i]);
            }
        }
        ascii_string(q)
    }
}


/// The address of a peer: an IPv4 or IPv6 address and a port.
#[derive(Debug, Clone, Copy, PartialEq, Eq, Hash)]
pub enum PeerAddr {
    V4([u8; 4], u16),
    V6([u8; 16], u16),
}

/// Why a compact peer list could not be read.
#[derive(Debug, Clone, Copy, PartialEq, Eq)]
pub enum PeersError {
    /// The length (given) is not a multiple of the entry size (6 for IPv4, 18 for IPv6).
    NotMultiple(usize),
}

/// The port stored big-endian at `at`.
pub open spec fn port_at(v: Seq<u8>, at: int) -> u16 {
    (v[at] as int * 256 + v[at + 1] as int) as u16
}

/// The IPv4 peers of a compact list: each six bytes are an address and a big-endian port.
pub open spec fn compact_peers(v: Seq<u8>) -> Seq<PeerAddr> {
    Seq::new(
        v.len() / 6,
        |k: int| PeerAddr::V4(
            [v[6 * k], v[6 * k + 1], v[6 * k + 2], v[6 * k + 3]],
            port_at(v, 6 * k + 4),
        ),
    )
}

/// The address bytes of the IPv6 peer whose entry starts at `at`.
pub open spec fn v6_at(v: Seq<u8>, at: int) -> Seq<u8> {
    v.subrange(at, at + 16)
}

/// Whether `p` is the IPv6 peer whose eighteen bytes start at `at`.
pub open spec fn is_v6_entry(p: PeerAddr, v: Seq<u8>, at: int) -> bool {
    p matches PeerAddr::V6(a, port) && a@ == v6_at(v, at) && port == port_at(v, at + 16)
}

/// Reads a compact IPv4 peer list; fails when its length is not a multiple of six.
pub fn parse_compact_peers(v: &[u8]) -> (res: Result<Vec<PeerAddr>, PeersError>)
    ensures
        v@.len() % 6 != 0 ==> res == Err::<Vec<PeerAddr>, PeersError>(PeersError::NotMultiple(v@.len() as usize)),
        v@.len() % 6 == 0 ==> (res matches Ok(peers) && peers@ == compact_peers(v@)),
{
    if v.len() % 6 != 0 {
        return Err(PeersError::NotMultiple(v.len()));
    }
    let vlen = v.len();
    let n = vlen / 6;
    let mut peers: Vec<PeerAddr> = Vec::new();
    let mut k: usize = 0;
    while k < n
        invariant
            vlen == v@.len(),
            n == v@.len() / 6,
            v@.len() % 6 == 0,
            k <= n,
            peers@ == compact_peers(v@).subrange(0, k as int),
        decreases n - k,
    {
        proof {
            assert(6 * k + 6 <= vlen) by (nonlinear_arith)
                requires
                    k < n,
                    n == vlen / 6,
            ;
        }
        let at = 6 * k;
        let port = (v[at + 4] as u16) * 256 + v[at + 5] as u16;
        let p = PeerAddr::V4([v[at], v[at + 1], v[at + 2], v[at + 3]], port);
        peers.push(p);
        proof {
            assert(peers@ =~= compact_peers(v@).subrange(0, k + 1));
        }
        k = k + 1;
    }
    proof {
        assert(compact_peers(v@).subrange(0, n as int) =~= compact_peers(v@));
    }
    Ok(peers)
}

/// Reads a compact IPv6 peer list; fails when its length is not a multiple of eighteen.
pub fn parse_compact_peers6(v: &[u8]) -> (res: Result<Vec<PeerAddr>, PeersError>)
    ensures
        v@.len() % 18 != 0 ==> res == Err::<Vec<PeerAddr>, PeersError>(PeersError::NotMultiple(v@.len() as usize)),
        v@.len() % 18 == 0 ==> (res matches Ok(peers) && peers@.len() == v@.len() / 18 && forall|k: int|
            0 <= k < peers@.len() ==> is_v6_entry(#[trigger] peers@[k], v@, 18 * k)),
{
    if v.len() % 18 != 0 {
        return Err(PeersError::NotMultiple(v.len()));
    }
    let vlen = v.len();
    let n = vlen / 18;
    let mut peers: Vec<PeerAddr> = Vec::new();
    let mut k: usize = 0;
    while k < n
        invariant
            vlen == v@.len(),
            n == v@.len() / 18,
            v@.len() % 18 == 0,
            k <= n,
            peers@.len() == k,
            forall|j: int| 0 <= j < k ==> is_v6_entry(#[trigger] peers@[j], v@, 18 * j),
        decreases n - k,
    {
        proof {
            assert(18 * k + 18 <= vlen) by (nonlinear_arith)
                requires
                    k < n,
                    n == vlen / 18,
            ;
        }
        let at = 18 * k;
        let mut addr = [0u8; 16];
        let mut j: usize = 0;
        while j < 16
            invariant
                j <= 16,
                vlen == v@.len(),
                at + 18 <= vlen,
                forall|q: int| 0 <= q < j ==> addr@[q] == v@[at + q],
            decreases 16 - j,
        {
            addr[j] = v[at + j];
            j = j + 1;
        }
        let port = (v[at + 16] as u16) * 256 + v[at + 17] as u16;
        proof {
            assert(addr@ =~= v6_at(v@, at as int));
        }
        peers.push(PeerAddr::V6(addr, port));
        k = k + 1;
    }
    Ok(peers)
}

/// What a tracker answered, with the peer lists read.
#[derive(Debug, Clone)]
pub struct TrackerResponse {
    /// How often to ask the tracker again, in seconds.
    pub interval: usize,
    pub peers: Vec<PeerAddr>,
    pub peers6: Option<Vec<PeerAddr>>,
}

impl TrackerResponse {
    /// All the peers: the IPv4 ones, then the IPv6 ones.
    pub fn get_peers(&self) -> (res: Vec<PeerAddr>)
        ensures
            res@ == self.peers@ + match self.peers6 {
                Some(p) => p@,
                None => Seq::empty(),
            },
    {
        let mut all_peers: Vec<PeerAddr> = Vec::new();
        let mut i: usize = 0;
        while i < self.peers.len()
            invariant
                i <= self.peers@.len(),
                all_peers@ == self.peers@.subrange(0, i as int),
            decreases self.peers@.len() - i,
        {
            all_peers.push(self.peers[i]);
            proof {
                assert(all_peers@ =~= self.peers@.subrange(0, i + 1));
            }
            i = i + 1;
        }
        proof {
            assert(all_peers@ =~= self.peers@);
        }
        match &self.peers6 {
            Some(p6) => {
                let mut j: usize = 0;
                while j < p6.len()
                    invariant
                        j <= p6@.len(),
                        all_peers@ == self.peers@ + p6@.subrange(0, j as int),
                    decreases p6@.len() - j,
                {
                    all_peers.push(p6[j]);
                    proof {
                        assert(all_peers@ =~= self.peers@ + p6@.subrange(0, j + 1));
                    }
                    j = j + 1;
                }
                proof {
                    assert(p6@.subrange(0, p6@.len() as int) =~= p6@);
                }
            },
            None => {
                proof {
                    assert(all_peers@ =~= self.peers@ + Seq::<PeerAddr>::empty());
                }
            },
        }
        all_peers
    }
}

/// How many distinct peers are enough to stop asking further tiers of trackers.
pub const NUM_ENOUGH_PEERS_TO_START: usize = 20;

/// Moves the tracker at `index` of a tier to its front: the tracker that answered is asked
/// first next time (BEP 12).
pub fn promote_tracker<T>(tier: &mut Vec<T>, index: usize)
    requires
        index < old(tier)@.len(),
    ensures
        final(tier)@ == seq![old(tier)@[index as int]] + old(tier)@.remove(index as int),
{
    let url = tier.remove(index);
    tier.insert(0, url);
    proof {
        assert(final(tier)@ =~= seq![old(tier)@[index as int]] + old(tier)@.remove(index as int));
    }
}

/// Whether two peer addresses are the same.
pub fn same_peer(a: &PeerAddr, b: &PeerAddr) -> (res: bool)
    ensures
        res == (*a == *b),
{
    match (*a, *b) {
        (PeerAddr::V4(x, p), PeerAddr::V4(y, q)) => {
            let mut i: usize = 0;
            while i < 4
                invariant
                    *a == PeerAddr::V4(x, p),
                    *b == PeerAddr::V4(y, q),
                    i <= 4,
                    forall|k: int| 0 <= k < i ==> x@[k] == y@[k],
                decreases 4 - i,
            {
                if x[i] != y[i] {
                    proof {
                        assert(x@[i as int] != y@[i as int]);
                        assert(x != y);
                    }
                    return false;
                }
                i = i + 1;
            }
            proof {
                assert(x@ =~= y@);
                assert(x =~= y);
            }
            p == q
        },
        (PeerAddr::V6(x, p), PeerAddr::V6(y, q)) => {
            let mut i: usize = 0;
            while i < 16
                invariant
                    *a == PeerAddr::V6(x, p),
                    *b == PeerAddr::V6(y, q),
                    i <= 16,
                    forall|k: int| 0 <= k < i ==> x@[k] == y@[k],
                decreases 16 - i,
            {
                if x[i] != y[i] {
                    proof {
                        assert(x@[i as int] != y@[i as int]);
                        assert(x != y);
                    }
                    return false;
                }
                i = i + 1;
            }
            proof {
                assert(x@ =~= y@);
                assert(x =~= y);
            }
            p == q
        },
        _ => false,
    }
}

/// Whether `q` is in the list.
pub open spec fn listed(s: Seq<PeerAddr>, q: PeerAddr) -> bool {
    exists|k: int| 0 <= k < s.len() && s[k] == q
}

/// Adds the peers of one tracker answer to the set of peers found so far; returns whether
/// there are now enough peers to stop asking further tiers.
pub fn add_peers(found: &mut Vec<PeerAddr>, new_peers: &Vec<PeerAddr>) -> (enough: bool)
    requires
        forall|i: int, j: int| 0 <= i < j < old(found)@.len() ==> old(found)@[i] != old(found)@[j],
    ensures
        forall|i: int, j: int| 0 <= i < j < final(found)@.len() ==> final(found)@[i] != final(found)@[j],
        forall|p: PeerAddr| #[trigger] listed(final(found)@, p) <==> (listed(old(found)@, p) || listed(new_peers@, p)),
        enough == (final(found)@.len() >= NUM_ENOUGH_PEERS_TO_START),
{
    let mut i: usize = 0;
    while i < new_peers.len()
        invariant
            i <= new_peers@.len(),
            forall|a: int, b: int| 0 <= a < b < found@.len() ==> found@[a] != found@[b],
            forall|p: PeerAddr| #[trigger] listed(found@, p) <==> (listed(old(found)@, p) || listed(new_peers@.subrange(0, i as int), p)),
        decreases new_peers@.len() - i,
    {
        let p = new_peers[i];
        let mut known = false;
        let mut j: usize = 0;
        while j < found.len()
            invariant
                j <= found@.len(),
                i < new_peers@.len(),
                p == new_peers@[i as int],
                forall|a: int, b: int| 0 <= a < b < found@.len() ==> found@[a] != found@[b],
                forall|q: PeerAddr| #[trigger] listed(found@, q) <==> (listed(old(found)@, q) || listed(new_peers@.subrange(0, i as int), q)),
                known == exists|k: int| 0 <= k < j && found@[k] == p,
            decreases found@.len() - j,
        {
            if same_peer(&found[j], &p) {
                known = true;
            }
            j = j + 1;
        }
        let ghost before = found@;
        if !known {
            found.push(p);
        }
        proof {
            let s0 = new_peers@.subrange(0, i as int);
            let s1 = new_peers@.subrange(0, i + 1);
            assert(s1 =~= s0.push(p));
            assert(known == listed(before, p));
            assert forall|a: int, b: int| 0 <= a < b < found@.len() implies found@[a] != found@[b] by {
                if b == before.len() {
                    assert(found@[a] == before[a]);
                }
            }
            assert forall|q: PeerAddr| #[trigger] listed(found@, q) implies (listed(old(found)@, q) || listed(s1, q)) by {
                let k = choose|k: int| 0 <= k < found@.len() && #[trigger] found@[k] == q;
                if q == p {
                    assert(s1[i as int] == p);
                } else {
                    assert(k < before.len());
                    assert(before[k] == q);
                    assert(listed(before, q));
                    if listed(s0, q) {
                        let k2 = choose|k2: int| 0 <= k2 < s0.len() && #[trigger] s0[k2] == q;
                        assert(s1[k2] == q);
                    }
                }
            }
            assert forall|q: PeerAddr| (listed(old(found)@, q) || listed(s1, q)) implies #[trigger] listed(found@, q) by {
                if q == p {
                    if known {
                        let k = choose|k: int| 0 <= k < before.len() && #[trigger] before[k] == q;
                        assert(found@[k] == q);
                    } else {
                        assert(found@[found@.len() - 1] == p);
                    }
                } else {
                    if listed(s1, q) {
                        let k = choose|k: int| 0 <= k < s1.len() && #[trigger] s1[k] == q;
                        assert(k < i);
                        assert(s0[k] == q);
                        assert(listed(s0, q));
                    }
                    assert(listed(before, q));
                    let k = choose|k: int| 0 <= k < before.len() && #[trigger] before[k] == q;
                    assert(found@[k] == q);
                }
            }
        }
        i = i + 1;
    }
    proof {
        assert(new_peers@.subrange(0, new_peers@.len() as int) =~= new_peers@);
    }
    found.len() >= NUM_ENOUGH_PEERS_TO_START
}

} // verus!
