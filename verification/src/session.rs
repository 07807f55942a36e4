//! Planning a download session: which trackers to contact, what kind each
//! one is, and how their answers are merged.

use crate::peer::PeerAddr;
use crate::text::{chars_eq, chars_of};
use crate::torrent::metainfo::strings_model;
use crate::tracker::AnnounceResponse;
use vstd::prelude::*;

verus! {

/// The items of `new` that are not yet in `all`, appended in order, each once.
pub open spec fn append_new<T>(all: Seq<T>, new: Seq<T>) -> Seq<T>
    decreases new.len(),
{
    if new.len() == 0 {
        all
    } else {
        let a = append_new(all, new.drop_last());
        if a.contains(new.last()) {
            a
        } else {
            a.push(new.last())
        }
    }
}

/// The URLs of all tiers in order.
pub open spec fn flatten_tiers(tiers: Seq<Seq<Seq<char>>>) -> Seq<Seq<char>>
    decreases tiers.len(),
{
    if tiers.len() == 0 {
        Seq::empty()
    } else {
        flatten_tiers(tiers.drop_last()) + tiers.last()
    }
}

/// The trackers to contact: the URLs of all tiers, then the primary
/// announce URL, each once, in order of first appearance.
pub open spec fn spec_announce_urls(announce: Seq<char>, tiers: Seq<Seq<Seq<char>>>) -> Seq<
    Seq<char>,
> {
    append_new(Seq::empty(), flatten_tiers(tiers).push(announce))
}

fn string_eq(a: &String, b: &String) -> (r: bool)
    ensures
        r == (a@ == b@),
{
    let x = chars_of(a.as_str());
    let y = chars_of(b.as_str());
    chars_eq(x.as_slice(), y.as_slice())
}

/// Whether a list of texts holds `s`.
fn contains_string(v: &Vec<String>, s: &String) -> (r: bool)
    ensures
        r == strings_model(v@).contains(s@),
{
    let mut i: usize = 0;
    while i < v.len()
        invariant
            i <= v@.len(),
            forall|k: int| 0 <= k < i ==> v@[k]@ != s@,
        decreases v@.len() - i,
    {
        if string_eq(&v[i], s) {
            assert(strings_model(v@)[i as int] == s@);
            return true;
        }
        i += 1;
    }
    assert forall|k: int| 0 <= k < strings_model(v@).len() implies strings_model(v@)[k] != s@ by {
        assert(strings_model(v@)[k] == v@[k]@);
    }
    false
}

/// Append a URL unless it is already there.
fn push_new_url(v: &mut Vec<String>, s: &String)
    ensures
        strings_model(final(v)@) == if strings_model(old(v)@).contains(s@) {
            strings_model(old(v)@)
        } else {
            strings_model(old(v)@).push(s@)
        },
{
    if !contains_string(v, s) {
        let ghost before = strings_model(v@);
        v.push(s.clone());
        assert(strings_model(v@) =~= before.push(s@));
    }
}

/// The trackers to contact for a torrent: every URL of every tier, then the
/// primary announce URL, each once, in order of first appearance.
pub fn announce_urls(announce: &String, announce_list: &Vec<Vec<String>>) -> (r: Vec<String>)
    ensures
        strings_model(r@) == spec_announce_urls(
            announce@,
            announce_list@.map_values(|t: Vec<String>| strings_model(t@)),
        ),
{
    let ghost tiers = announce_list@.map_values(|t: Vec<String>| strings_model(t@));
    let mut urls: Vec<String> = Vec::new();
    let mut i: usize = 0;
    assert(strings_model(urls@) =~= Seq::<Seq<char>>::empty());
    assert(tiers.take(0) =~= Seq::<Seq<Seq<char>>>::empty());
    while i < announce_list.len()
        invariant
            i <= announce_list@.len(),
            tiers == announce_list@.map_values(|t: Vec<String>| strings_model(t@)),
            strings_model(urls@) == append_new(Seq::empty(), flatten_tiers(tiers.take(i as int))),
        decreases announce_list@.len() - i,
    {
        let tier = &announce_list[i];
        let ghost t = strings_model(tier@);
        assert(tiers[i as int] == t);
        assert(tiers.take(i + 1).drop_last() =~= tiers.take(i as int));
        let ghost base = flatten_tiers(tiers.take(i as int));
        let mut j: usize = 0;
        while j < tier.len()
            invariant
                j <= tier@.len(),
                t == strings_model(tier@),
                strings_model(urls@) == append_new(Seq::empty(), base + t.take(j as int)),
            decreases tier@.len() - j,
        {
            assert((base + t.take(j + 1)).drop_last() =~= base + t.take(j as int));
            assert(t[j as int] == tier@[j as int]@);
            push_new_url(&mut urls, &tier[j]);
            j += 1;
        }
        assert(t.take(j as int) =~= t);
        i += 1;
    }
    assert(tiers.take(i as int) =~= tiers);
    assert(flatten_tiers(tiers).push(announce@).drop_last() =~= flatten_tiers(tiers));
    push_new_url(&mut urls, announce);
    urls
}

/// The two kinds of tracker, by URL scheme.
#[derive(Debug, Clone, Copy, PartialEq, Eq, Structural)]
pub enum TrackerKind {
    Udp,
    Http,
}

pub open spec fn starts_with(s: Seq<char>, p: Seq<char>) -> bool {
    s.len() >= p.len() && s.subrange(0, p.len() as int) == p
}

/// `udp://` URLs are UDP trackers, `http://` and `https://` ones HTTP
/// trackers; others are not contacted.
pub open spec fn spec_tracker_kind(url: Seq<char>) -> Option<TrackerKind> {
    if starts_with(url, seq!['u', 'd', 'p', ':', '/', '/']) {
        Some(TrackerKind::Udp)
    } else if starts_with(url, seq!['h', 't', 't', 'p', ':', '/', '/']) || starts_with(
        url,
        seq!['h', 't', 't', 'p', 's', ':', '/', '/'],
    ) {
        Some(TrackerKind::Http)
    } else {
        None
    }
}

fn has_prefix(s: &[char], p: &[char]) -> (r: bool)
    ensures
        r == starts_with(s@, p@),
{
    s.len() >= p.len() && chars_eq(&s[0..p.len()], p)
}

/// How to contact a tracker, by its URL.
pub fn tracker_kind(url: &str) -> (r: Option<TrackerKind>)
    ensures
        r == spec_tracker_kind(url@),
{
    let c = chars_of(url);
    let udp: [char; 6] = ['u', 'd', 'p', ':', '/', '/'];
    let http: [char; 7] = ['h', 't', 't', 'p', ':', '/', '/'];
    let https: [char; 8] = ['h', 't', 't', 'p', 's', ':', '/', '/'];
    assert(udp@ =~= seq!['u', 'd', 'p', ':', '/', '/']);
    assert(http@ =~= seq!['h', 't', 't', 'p', ':', '/', '/']);
    assert(https@ =~= seq!['h', 't', 't', 'p', 's', ':', '/', '/']);
    if has_prefix(c.as_slice(), udp.as_slice()) {
        Some(TrackerKind::Udp)
    } else if has_prefix(c.as_slice(), http.as_slice()) || has_prefix(c.as_slice(), https.as_slice()) {
        Some(TrackerKind::Http)
    } else {
        None
    }
}

fn same_peer(a: &PeerAddr, b: &PeerAddr) -> (r: bool)
    ensures
        r == (*a == *b),
{
    if a.port != b.port {
        return false;
    }
    let mut i: usize = 0;
    while i < 4
        invariant
            i <= 4,
            forall|k: int| 0 <= k < i ==> a.ip@[k] == b.ip@[k],
        decreases 4 - i,
    {
        if a.ip[i] != b.ip[i] {
            return false;
        }
        i += 1;
    }
    assert(a.ip@ =~= b.ip@);
    assert(a.ip == b.ip);
    true
}

/// Fold a tracker's answer into what is known: the shortest interval wins,
/// and its peers not yet known are appended in order.
pub fn merge_announce(peers: &mut Vec<PeerAddr>, interval: &mut u64, resp: &AnnounceResponse)
    ensures
        *final(interval) == if resp.interval < *old(interval) {
            resp.interval
        } else {
            *old(interval)
        },
        final(peers)@ == append_new(old(peers)@, resp.peers@),
{
    if resp.interval < *interval {
        *interval = resp.interval;
    }
    let mut i: usize = 0;
    while i < resp.peers.len()
        invariant
            i <= resp.peers@.len(),
            peers@ == append_new(old(peers)@, resp.peers@.take(i as int)),
        decreases resp.peers@.len() - i,
    {
        assert(resp.peers@.take(i + 1).drop_last() =~= resp.peers@.take(i as int));
        let p = &resp.peers[i];
        let mut found = false;
        let mut k: usize = 0;
        while k < peers.len()
            invariant
                k <= peers@.len(),
                !found ==> forall|j: int| 0 <= j < k ==> peers@[j] != *p,
                found ==> peers@.contains(*p),
            decreases peers@.len() - k,
        {
            if same_peer(&peers[k], p) {
                found = true;
                assert(peers@[k as int] == *p);
            }
            k += 1;
        }
        if !found {
            peers.push(*p);
        }
        i += 1;
    }
    assert(resp.peers@.take(i as int) =~= resp.peers@);
}

/// A download can go on only when the trackers gave at least one peer.
pub fn check_peers_found(peers: &Vec<PeerAddr>) -> (r: Result<(), String>)
    ensures
        r is Ok <==> peers@.len() > 0,
        r matches Err(m) ==> m@ == "No peers found from any tracker"@,
{
    if peers.len() == 0 {
        Err("No peers found from any tracker".to_owned())
    } else {
        Ok(())
    }
}

/// Merging keeps what was there, in place, adds exactly the new items, and
/// lists nothing twice.
pub proof fn law_append_new<T>(all: Seq<T>, new: Seq<T>)
    requires
        all.no_duplicates(),
    ensures
        append_new(all, new).no_duplicates(),
        forall|x: T| #[trigger] append_new(all, new).contains(x) <==> (all.contains(x) || new.contains(x)),
        append_new(all, new).len() >= all.len(),
        append_new(all, new).subrange(0, all.len() as int) == all,
    decreases new.len(),
{
    if new.len() > 0 {
        let a = append_new(all, new.drop_last());
        law_append_new(all, new.drop_last());
        assert forall|x: T| #[trigger] append_new(all, new).contains(x) <==> (all.contains(x)
            || new.contains(x)) by {
            if new.drop_last().contains(x) {
                let k = choose|k: int| 0 <= k < new.drop_last().len() && new.drop_last()[k] == x;
                assert(new[k] == x);
            }
            if new.contains(x) && x != new.last() {
                let k = choose|k: int| 0 <= k < new.len() && new[k] == x;
                assert(new.drop_last()[k] == x);
            }
            if !a.contains(new.last()) {
                if append_new(all, new).contains(x) && x != new.last() {
                    let k = choose|k: int| 0 <= k < a.len() + 1 && a.push(new.last())[k] == x;
                    assert(a[k] == x);
                }
                if x == new.last() {
                    assert(a.push(new.last())[a.len() as int] == x);
                }
                if a.contains(x) {
                    let k = choose|k: int| 0 <= k < a.len() && a[k] == x;
                    assert(a.push(new.last())[k] == x);
                }
            }
        }
        if !a.contains(new.last()) {
            assert(a.push(new.last()).subrange(0, all.len() as int) =~= a.subrange(0, all.len() as int));
        }
    } else {
        assert(all.subrange(0, all.len() as int) =~= all);
    }
}

/// The trackers to contact hold every URL of every tier and the primary
/// announce URL, and none twice.
pub proof fn law_announce_urls(announce: Seq<char>, tiers: Seq<Seq<Seq<char>>>)
    ensures
        spec_announce_urls(announce, tiers).no_duplicates(),
        spec_announce_urls(announce, tiers).contains(announce),
        forall|u: Seq<char>| #[trigger] flatten_tiers(tiers).contains(u) ==> spec_announce_urls(
            announce,
            tiers,
        ).contains(u),
{
    let f = flatten_tiers(tiers).push(announce);
    law_append_new(Seq::<Seq<char>>::empty(), f);
    assert(f[f.len() - 1] == announce);
    assert forall|u: Seq<char>| #[trigger] flatten_tiers(tiers).contains(u) implies spec_announce_urls(
        announce,
        tiers,
    ).contains(u) by {
        let k = choose|k: int| 0 <= k < flatten_tiers(tiers).len() && flatten_tiers(tiers)[k] == u;
        assert(f[k] == u);
    }
}

} // verus!
