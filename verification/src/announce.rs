//! The trackers of a torrent, in tiers (BEP 12), and the rewriting of UDP trackers to HTTP.
use vstd::prelude::*;
use vstd::string::{StrSliceExecFns, StringExecFns};

use crate::deps::{shuffle_strings, url_parse, url_parsed_of, url_scheme, url_scheme_of, url_with_path, url_with_path_of};

verus! {

/// The characters `udp`.
pub open spec fn udp_chars() -> Seq<char> {
    seq!['u', 'd', 'p']
}

/// The characters `/announce`.
pub open spec fn announce_path() -> Seq<char> {
    seq!['/', 'a', 'n', 'n', 'o', 'u', 'n', 'c', 'e']
}

/// The characters `http`.
pub open spec fn http_chars() -> Seq<char> {
    seq!['h', 't', 't', 'p']
}

/// The URL that the rewriting of a UDP tracker `s` gives: at the same host and port with the
/// path `/announce`, the three letters of the scheme replaced by `http`, as the `url` crate
/// reads it (`None` where a step is refused).
pub open spec fn udp_rewrite(s: Seq<char>) -> Option<Seq<char>> {
    match url_with_path_of(s, announce_path()) {
        Some(t) => if t.len() >= 3 {
            url_parsed_of(http_chars() + t.subrange(3, t.len() as int))
        } else {
            None
        },
        None => None,
    }
}

/// Whether `s` is a UDP tracker URL.
pub open spec fn is_udp(s: Seq<char>) -> bool {
    url_scheme_of(s) == Some(udp_chars())
}

/// Whether the rewriting of `s` succeeds: it is no UDP tracker, or its rewriting gives a
/// valid URL.
pub open spec fn tracker_url_ok(s: Seq<char>) -> bool {
    is_udp(s) ==> udp_rewrite(s) is Some
}

/// A tracker URL as it is asked: a UDP tracker is asked over HTTP instead (see
/// [`udp_rewrite`]); any other URL stays as it is.
pub open spec fn tracker_url(s: Seq<char>) -> Seq<char> {
    if is_udp(s) {
        udp_rewrite(s)->Some_0
    } else {
        s
    }
}

/// Whether the rewriting of every URL of the tiers succeeds.
pub open spec fn tiers_ok(list: Seq<Vec<String>>) -> bool {
    forall|i: int, j: int|
        0 <= i < list.len() && 0 <= j < list[i]@.len() ==> tracker_url_ok(#[trigger] list[i]@[j]@)
}

/// The characters of a list of strings.
pub open spec fn chars_of(tier: Seq<String>) -> Seq<Seq<char>> {
    Seq::new(tier.len(), |i: int| tier[i]@)
}

/// Whether two strings are equal.
fn same_chars(a: &str, b: &str) -> (res: bool)
    ensures
        res == (a@ == b@),
{
    let n = a.unicode_len();
    if n != b.unicode_len() {
        return false;
    }
    let mut i: usize = 0;
    while i < n
        invariant
            n == a@.len(),
            n == b@.len(),
            i <= n,
            forall|k: int| 0 <= k < i ==> a@[k] == b@[k],
        decreases n - i,
    {
        if a.get_char(i) != b.get_char(i) {
            return false;
        }
        i = i + 1;
    }
    proof {
        assert(a@ =~= b@);
    }
    true
}

/// The URL a tracker is asked at, or `None` when `url` is a UDP tracker whose rewriting
/// to HTTP is refused.
fn rewritten(url: &String) -> (res: Option<String>)
    ensures
        res is None <==> !tracker_url_ok(url@),
        res matches Some(r) ==> r@ == tracker_url(url@),
{
    let udp = String::from_str("udp");
    let announce = String::from_str("/announce");
    proof {
        reveal_strlit("udp");
        reveal_strlit("/announce");
        assert(udp@ =~= udp_chars());
        assert(announce@ =~= announce_path());
    }
    match url_scheme(url.as_str()) {
        Some(scheme) => {
            if !same_chars(scheme.as_str(), udp.as_str()) {
                return Some(url.clone());
            }
        },
        None => return Some(url.clone()),
    }
    let with_path = match url_with_path(url.as_str(), announce.as_str()) {
        Some(t) => t,
        None => return None,
    };
    let n = with_path.as_str().unicode_len();
    if n < 3 {
        return None;
    }
    let rest = with_path.as_str().substring_char(3, n);
    let http = String::from_str("http");
    proof {
        reveal_strlit("http");
        assert(http@ =~= http_chars());
    }
    let candidate = http.concat(rest);
    url_parse(candidate.as_str())
}

/// The URL a tracker is asked at. The rewriting of a UDP tracker must succeed.
pub fn fix_tracker_url(url: String) -> (res: String)
    requires
        tracker_url_ok(url@),
    ensures
        res@ == tracker_url(url@),
{
    match rewritten(&url) {
        Some(r) => r,
        None => url,
    }
}

/// Whether the rewriting of every URL of a tier succeeds.
fn tier_rewritable(tier: &Vec<String>) -> (res: bool)
    ensures
        res == forall|j: int| 0 <= j < tier@.len() ==> tracker_url_ok(#[trigger] tier@[j]@),
{
    let mut j: usize = 0;
    while j < tier.len()
        invariant
            j <= tier@.len(),
            forall|l: int| 0 <= l < j ==> tracker_url_ok(#[trigger] tier@[l]@),
        decreases tier@.len() - j,
    {
        if rewritten(&tier[j]).is_none() {
            return false;
        }
        j = j + 1;
    }
    true
}

/// The trackers of a torrent: tiers of URLs, asked tier after tier.
#[derive(Debug, Clone)]
pub struct AnnounceList(pub Vec<Vec<String>>);

impl AnnounceList {
    /// The tiers as characters.
    pub open spec fn tiers(&self) -> Seq<Seq<Seq<char>>> {
        Seq::new(self.0@.len(), |i: int| chars_of(self.0@[i]@))
    }

    /// One tier with one tracker.
    pub fn from_single_announce(announce: String) -> (res: Self)
        requires
            tracker_url_ok(announce@),
        ensures
            res.0@.len() == 1,
            res.tiers()[0] == seq![tracker_url(announce@)],
    {
        let mut tier: Vec<String> = Vec::new();
        tier.push(announce);
        let mut list: Vec<Vec<String>> = Vec::new();
        list.push(tier);
        let res = Self::initiate(list);
        proof {
            let t = res.tiers()[0];
            let x = tracker_url(announce@);
            let e = Seq::new(1nat, |j: int| tracker_url(seq![announce][j]@));
            assert(e =~= seq![x]);
            vstd::seq_lib::to_multiset_len(t);
            vstd::seq_lib::to_multiset_len(e);
            assert(t.len() == 1);
            assert(t.contains(t[0]));
            vstd::seq_lib::to_multiset_contains(t, t[0]);
            vstd::seq_lib::to_multiset_contains(e, t[0]);
            assert(e.contains(t[0]));
            assert(t[0] == x);
            assert(t =~= seq![x]);
        }
        res
    }

    /// One tier with the given trackers.
    pub fn from_single_tier_list(announces: Vec<String>) -> (res: Self)
        requires
            forall|j: int| 0 <= j < announces@.len() ==> tracker_url_ok(#[trigger] announces@[j]@),
        ensures
            res.0@.len() == 1,
            res.tiers()[0].to_multiset() == Seq::new(
                announces@.len(),
                |j: int| tracker_url(announces@[j]@),
            ).to_multiset(),
    {
        let mut list: Vec<Vec<String>> = Vec::new();
        list.push(announces);
        Self::initiate(list)
    }

    /// [`AnnounceList::from_single_announce`] where the rewriting of `announce` succeeds;
    /// `None` where it is refused.
    pub fn from_single_announce_checked(announce: String) -> (res: Option<Self>)
        ensures
            res is None <==> !tracker_url_ok(announce@),
            res matches Some(l) ==> l.0@.len() == 1 && l.tiers()[0] == seq![tracker_url(announce@)],
    {
        if rewritten(&announce).is_none() {
            return None;
        }
        Some(Self::from_single_announce(announce))
    }

    /// [`AnnounceList::from_single_tier_list`] where the rewriting of every URL succeeds;
    /// `None` where one is refused.
    pub fn from_single_tier_list_checked(announces: Vec<String>) -> (res: Option<Self>)
        ensures
            res is None <==> exists|j: int| 0 <= j < announces@.len() && !tracker_url_ok(#[trigger] announces@[j]@),
            res matches Some(l) ==> l.0@.len() == 1 && l.tiers()[0].to_multiset() == Seq::new(
                announces@.len(),
                |j: int| tracker_url(announces@[j]@),
            ).to_multiset(),
    {
        if !tier_rewritable(&announces) {
            return None;
        }
        Some(Self::from_single_tier_list(announces))
    }

    /// The tiers with each URL as it is asked, the trackers of each tier in random order
    /// and the tiers in their order.
    pub fn initiate(list: Vec<Vec<String>>) -> (res: Self)
        requires
            tiers_ok(list@),
        ensures
            res.0@.len() == list@.len(),
            forall|i: int|
                0 <= i < list@.len() ==> (#[trigger] res.tiers()[i]).to_multiset() == Seq::new(
                    list@[i]@.len(),
                    |j: int| tracker_url(list@[i]@[j]@),
                ).to_multiset(),
    {
        let ghost old_list = list@;
        let mut rest = list;
        let mut tiers: Vec<Vec<String>> = Vec::new();
        let n = rest.len();
        let mut i: usize = 0;
        while i < n
            invariant
                n == old_list.len(),
                i <= n,
                tiers_ok(old_list),
                rest@ == old_list.subrange(i as int, n as int),
                tiers@.len() == i,
                forall|k: int|
                    0 <= k < i ==> chars_of(tiers@[k]@).to_multiset() == Seq::new(
                        old_list[k]@.len(),
                        |j: int| tracker_url(old_list[k]@[j]@),
                    ).to_multiset(),
            decreases n - i,
        {
            let tier = rest.remove(0);
            let ghost given = tier@;
            proof {
                assert(tier == old_list[i as int]);
                assert forall|q: int| 0 <= q < given.len() implies tracker_url_ok(#[trigger] given[q]@) by {
                    assert(tracker_url_ok(old_list[i as int]@[q]@));
                }
            }
            let mut fixed: Vec<String> = Vec::new();
            let mut t = tier;
            let m = t.len();
            let mut j: usize = 0;
            while j < m
                invariant
                    m == given.len(),
                    j <= m,
                    forall|q: int| 0 <= q < m ==> tracker_url_ok(#[trigger] given[q]@),
                    t@ == given.subrange(j as int, m as int),
                    chars_of(fixed@) == Seq::new(j as nat, |q: int| tracker_url(given[q]@)),
                decreases m - j,
            {
                let url = t.remove(0);
                assert(url == given[j as int]);
                let f = fix_tracker_url(url);
                let ghost before = fixed@;
                let ghost fc = f@;
                fixed.push(f);
                proof {
                    assert(fc == tracker_url(given[j as int]@));
                    assert(chars_of(fixed@) =~= chars_of(before).push(fc));
                    assert(t@ =~= given.subrange(j + 1, m as int));
                    assert(chars_of(fixed@) =~= Seq::new((j + 1) as nat, |q: int| tracker_url(given[q]@)));
                }
                j = j + 1;
            }
            let ghost before_shuffle = fixed@;
            shuffle_strings(&mut fixed);
            proof {
                assert(chars_of(before_shuffle) =~= Seq::new(before_shuffle.len(), |q: int| before_shuffle[q]@));
                assert(chars_of(fixed@) =~= Seq::new(fixed@.len(), |q: int| fixed@[q]@));
                assert(given == old_list[i as int]@);
            }
            tiers.push(fixed);
            proof {
                assert(rest@ =~= old_list.subrange(i + 1, n as int));
            }
            i = i + 1;
        }
        let res = AnnounceList(tiers);
        proof {
            assert forall|k: int| 0 <= k < old_list.len() implies (#[trigger] res.tiers()[k]).to_multiset()
                == Seq::new(old_list[k]@.len(), |j: int| tracker_url(old_list[k]@[j]@)).to_multiset() by {
                assert(res.tiers()[k] == chars_of(tiers@[k]@));
            }
        }
        res
    }
}

} // verus!
