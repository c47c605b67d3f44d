use crate::text::{
    decimal, joined, lemma_parse_decimal, lemma_pieces_append, lemma_pieces_joined,
    lemma_pieces_single, parse_u32, parsed_u32, pieces, split_on, string_of, trim_char, trimmed,
    views, without,
};
use vstd::prelude::*;

verus! {

/// A member of the network as the specifications see it: its id and its address.
pub type PeerView = (u32, Seq<char>);

/// The members that a vector of `(id, address)` pairs holds, in order.
pub open spec fn peers_of(v: Seq<(u32, String)>) -> Seq<PeerView> {
    v.map_values(|e: (u32, String)| (e.0, e.1@))
}

/// The network after `e` joins it: unchanged when `e` is already a member.
pub open spec fn with_peer(n: Seq<PeerView>, e: PeerView) -> Seq<PeerView> {
    if n.contains(e) {
        n
    } else {
        n.push(e)
    }
}

/// The network after each of `es` joins it, in order.
pub open spec fn with_peers(n: Seq<PeerView>, es: Seq<PeerView>) -> Seq<PeerView>
    decreases es.len(),
{
    if es.len() == 0 {
        n
    } else {
        with_peer(with_peers(n, es.drop_last()), es.last())
    }
}

/// The text of one member: its id in decimal, a comma, its address.
pub open spec fn peer_text(e: PeerView) -> Seq<char> {
    decimal(e.0 as nat).push(',') + e.1
}

/// The text of a network: the texts of its members, separated by `;`.
pub open spec fn network_text(n: Seq<PeerView>) -> Seq<char> {
    joined(n.map_values(|e: PeerView| peer_text(e)), ';')
}

/// The member that one piece of a network text describes: the id before the first comma,
/// with NUL characters trimmed off both ends, and the address between the first comma and
/// the next one (or the end). Absent when there is no comma or the id is not a number.
pub open spec fn parsed_peer(piece: Seq<char>) -> Option<PeerView> {
    let parts = pieces(piece, ',');
    if parts.len() >= 2 {
        match parsed_u32(trimmed(parts[0], '\0')) {
            Some(id) => Some((id, parts[1])),
            None => None,
        }
    } else {
        None
    }
}

/// The members that the pieces describe, in order; absent when one of them describes none.
pub open spec fn parsed_peers(ps: Seq<Seq<char>>) -> Option<Seq<PeerView>>
    decreases ps.len(),
{
    if ps.len() == 0 {
        Some(Seq::empty())
    } else {
        match (parsed_peers(ps.drop_last()), parsed_peer(ps.last())) {
            (Some(es), Some(e)) => Some(es.push(e)),
            _ => None,
        }
    }
}

/// The members that a network text describes: one per piece between `;`.
pub open spec fn parsed_network(s: Seq<char>) -> Option<Seq<PeerView>> {
    parsed_peers(pieces(s, ';'))
}

/// Whether the address can be written in a network text and read back: it holds
/// neither of the two separators.
pub open spec fn plain_address(a: Seq<char>) -> bool {
    !a.contains(',') && !a.contains(';')
}

// ---------------------------------------------------------------------------
// Lemmas
// ---------------------------------------------------------------------------

/// Joining keeps a network free of repeats, and its set of members grows by the newcomer.
pub proof fn lemma_with_peer(n: Seq<PeerView>, e: PeerView)
    requires
        n.no_duplicates(),
    ensures
        with_peer(n, e).no_duplicates(),
        with_peer(n, e).to_set() == n.to_set().insert(e),
        with_peer(n, e).contains(e),
{
    if n.contains(e) {
        assert(n.to_set().insert(e) =~= n.to_set());
    } else {
        let m = n.push(e);
        assert(m[n.len() as int] == e);
        assert forall|i: int, j: int| 0 <= i < m.len() && 0 <= j < m.len() && i != j implies m[i]
            != m[j] by {
            if i < n.len() && j < n.len() {
                assert(m[i] == n[i] && m[j] == n[j]);
            } else if i < n.len() {
                assert(m[i] == n[i]);
            } else {
                assert(m[j] == n[j]);
            }
        }
        assert forall|x: PeerView| m.to_set().contains(x) == n.to_set().insert(e).contains(x) by {
            if m.contains(x) && x != e {
                let k = choose|k: int| 0 <= k < m.len() && m[k] == x;
                assert(n[k] == x);
            }
            if n.contains(x) {
                let k = choose|k: int| 0 <= k < n.len() && n[k] == x;
                assert(m[k] == x);
            }
        }
        assert(m.to_set() =~= n.to_set().insert(e));
    }
}

/// Joining several keeps a network free of repeats; its members become the old ones and
/// the newcomers.
pub proof fn lemma_with_peers(n: Seq<PeerView>, es: Seq<PeerView>)
    requires
        n.no_duplicates(),
    ensures
        with_peers(n, es).no_duplicates(),
        with_peers(n, es).to_set() == n.to_set().union(es.to_set()),
    decreases es.len(),
{
    if es.len() == 0 {
        assert(es.to_set() =~= Set::<PeerView>::empty());
        assert(n.to_set().union(es.to_set()) =~= n.to_set());
    } else {
        lemma_with_peers(n, es.drop_last());
        lemma_with_peer(with_peers(n, es.drop_last()), es.last());
        assert forall|x: PeerView| es.to_set().contains(x) == es.drop_last().to_set().insert(
            es.last(),
        ).contains(x) by {
            if es.contains(x) && x != es.last() {
                let k = choose|k: int| 0 <= k < es.len() && es[k] == x;
                assert(k != es.len() - 1);
                assert(es.drop_last()[k] == x);
            }
            if es.drop_last().contains(x) {
                let k = choose|k: int| 0 <= k < es.drop_last().len() && es.drop_last()[k] == x;
                assert(es[k] == x);
            }
            if x == es.last() {
                assert(es[es.len() - 1] == x);
            }
        }
        assert(n.to_set().union(es.to_set()) =~= n.to_set().union(es.drop_last().to_set()).insert(
            es.last(),
        ));
    }
}

/// Leaving keeps a network free of repeats, and its set of members loses the leaver.
pub proof fn lemma_without_peer(n: Seq<PeerView>, e: PeerView)
    requires
        n.no_duplicates(),
    ensures
        without(n, e).no_duplicates(),
        without(n, e).to_set() == n.to_set().remove(e),
        !without(n, e).contains(e),
        forall|x: PeerView| x != e ==> (n.contains(x) <==> #[trigger] without(n, e).contains(x)),
    decreases n.len(),
{
    if n.len() == 0 {
        assert(n.to_set().remove(e) =~= n.to_set());
    } else {
        let init = n.drop_last();
        assert(init.no_duplicates());
        lemma_without_peer(init, e);
        let w = without(init, e);
        assert(n =~= init.push(n.last()));
        assert(n[n.len() - 1] == n.last());
        assert(!init.contains(n.last())) by {
            if init.contains(n.last()) {
                let k = choose|k: int| 0 <= k < init.len() && init[k] == n.last();
                assert(n[k] == n[n.len() - 1]);
            }
        }
        assert forall|x: PeerView| x != e implies (n.contains(x) <==> #[trigger] without(
            n,
            e,
        ).contains(x)) by {
            if n.contains(x) && x != n.last() {
                let k = choose|k: int| 0 <= k < n.len() && n[k] == x;
                assert(init[k] == x);
            }
            if n.last() != e {
                let m = w.push(n.last());
                assert(m[w.len() as int] == n.last());
                if m.contains(x) && x != n.last() {
                    let k = choose|k: int| 0 <= k < m.len() && m[k] == x;
                    assert(w[k] == x);
                }
                if w.contains(x) {
                    let k = choose|k: int| 0 <= k < w.len() && w[k] == x;
                    assert(m[k] == x);
                }
            }
            if init.contains(x) {
                let k = choose|k: int| 0 <= k < init.len() && init[k] == x;
                assert(n[k] == x);
            }
        }
        if n.last() != e {
            let m = w.push(n.last());
            assert(!w.contains(n.last()));
            assert forall|i: int, j: int| 0 <= i < m.len() && 0 <= j < m.len() && i != j implies m[i]
                != m[j] by {
                if i < w.len() && j < w.len() {
                    assert(m[i] == w[i] && m[j] == w[j]);
                } else if i < w.len() {
                    assert(m[i] == w[i]);
                } else {
                    assert(m[j] == w[j]);
                }
            }
            assert(!m.contains(e)) by {
                if m.contains(e) {
                    let k = choose|k: int| 0 <= k < m.len() && m[k] == e;
                    if k < w.len() {
                        assert(w[k] == e);
                    }
                }
            }
        }
        assert forall|x: PeerView| without(n, e).to_set().contains(x) == n.to_set().remove(
            e,
        ).contains(x) by {
            if x == e {
            } else {
            }
        }
        assert(without(n, e).to_set() =~= n.to_set().remove(e));
    }
}


/// Every newcomer is a member afterwards, and so is every old member.
pub proof fn lemma_with_peers_contains(p: Seq<PeerView>, q: Seq<PeerView>)
    ensures
        forall|x: PeerView| q.contains(x) ==> #[trigger] with_peers(p, q).contains(x),
        forall|x: PeerView| p.contains(x) ==> #[trigger] with_peers(p, q).contains(x),
    decreases q.len(),
{
    if q.len() > 0 {
        lemma_with_peers_contains(p, q.drop_last());
        let w = with_peers(p, q.drop_last());
        assert forall|x: PeerView| q.contains(x) implies #[trigger] with_peers(p, q).contains(x) by {
            let k = choose|k: int| 0 <= k < q.len() && q[k] == x;
            if k < q.len() - 1 {
                assert(q.drop_last()[k] == x);
                assert(q.drop_last().contains(x));
                assert(w.contains(x));
                if !w.contains(q.last()) {
                    let j = choose|j: int| 0 <= j < w.len() && w[j] == x;
                    assert(w.push(q.last())[j] == x);
                }
            } else {
                assert(x == q.last());
                if !w.contains(q.last()) {
                    assert(w.push(q.last())[w.len() as int] == x);
                }
            }
        }
        assert forall|x: PeerView| p.contains(x) implies #[trigger] with_peers(p, q).contains(x) by {
            assert(w.contains(x));
            if !w.contains(q.last()) {
                let j = choose|j: int| 0 <= j < w.len() && w[j] == x;
                assert(w.push(q.last())[j] == x);
            }
        }
    }
}

/// Joining the members of a network built from `es` is joining `es` themselves.
pub proof fn lemma_with_peers_deduplicated(p: Seq<PeerView>, es: Seq<PeerView>)
    ensures
        with_peers(p, with_peers(Seq::empty(), es)) == with_peers(p, es),
    decreases es.len(),
{
    if es.len() > 0 {
        let q = with_peers(Seq::empty(), es.drop_last());
        let e = es.last();
        lemma_with_peers_deduplicated(p, es.drop_last());
        if q.contains(e) {
            lemma_with_peers_contains(p, q);
        } else {
            assert(q.push(e).drop_last() =~= q);
            assert(q.push(e).last() == e);
        }
    }
}

/// Taking out a non-member changes nothing.
pub proof fn lemma_without_nonmember(n: Seq<PeerView>, e: PeerView)
    requires
        !n.contains(e),
    ensures
        without(n, e) == n,
{
    crate::text::lemma_without_absent(n, e);
}

/// A network text is read back as the network it was written from, when the network is
/// not empty and no address holds a separator.
pub proof fn lemma_network_text_roundtrip(n: Seq<PeerView>)
    requires
        n.len() > 0,
        forall|i: int| 0 <= i < n.len() ==> plain_address(#[trigger] n[i].1),
    ensures
        parsed_network(network_text(n)) == Some(n),
{
    let texts = n.map_values(|e: PeerView| peer_text(e));
    assert forall|i: int| 0 <= i < texts.len() implies !(#[trigger] texts[i]).contains(';') by {
        let e = n[i];
        lemma_parse_decimal(e.0);
        assert(plain_address(n[i].1));
        let t = peer_text(e);
        assert(texts[i] == t);
        if t.contains(';') {
            let k = choose|k: int| 0 <= k < t.len() && t[k] == ';';
            let d = decimal(e.0 as nat);
            if k < d.len() {
                assert(t[k] == d[k]);
            } else if k > d.len() {
                assert(t[k] == e.1[k - d.len() - 1]);
            }
        }
    }
    lemma_pieces_joined(texts, ';');
    lemma_parsed_peers(n);
}

/// Each member text is read back as its member.
proof fn lemma_parsed_peers(n: Seq<PeerView>)
    requires
        forall|i: int| 0 <= i < n.len() ==> plain_address(#[trigger] n[i].1),
    ensures
        parsed_peers(n.map_values(|e: PeerView| peer_text(e))) == Some(n),
    decreases n.len(),
{
    let texts = n.map_values(|e: PeerView| peer_text(e));
    if n.len() > 0 {
        let init = n.drop_last();
        assert forall|i: int| 0 <= i < init.len() implies plain_address(#[trigger] init[i].1) by {
            assert(init[i] == n[i]);
        }
        lemma_parsed_peers(init);
        assert(texts.drop_last() =~= init.map_values(|e: PeerView| peer_text(e)));
        let e = n.last();
        assert(n[n.len() - 1] == e);
        assert(plain_address(e.1));
        lemma_parse_decimal(e.0);
        lemma_pieces_single(decimal(e.0 as nat), ',');
        lemma_pieces_append(decimal(e.0 as nat), e.1, ',');
        assert(pieces(peer_text(e), ',') =~= seq![decimal(e.0 as nat), e.1]);
        assert(texts.last() == peer_text(e));
        assert(parsed_peer(peer_text(e)) == Some(e));
        assert(init.push(e) =~= n);
    } else {
        assert(n =~= Seq::<PeerView>::empty());
    }
}

// ---------------------------------------------------------------------------
// Operations on a vector of members
// ---------------------------------------------------------------------------

/// Whether `(id, addr)` is a member.
pub(crate) fn find_peer(n: &Vec<(u32, String)>, id: u32, addr: &String) -> (res: bool)
    ensures
        res == peers_of(n@).contains((id, addr@)),
{
    let mut i: usize = 0;
    while i < n.len()
        invariant
            i <= n.len(),
            forall|k: int| 0 <= k < i ==> peers_of(n@)[k] != (id, addr@),
        decreases n.len() - i,
    {
        if n[i].0 == id && n[i].1 == *addr {
            assert(peers_of(n@)[i as int] == (id, addr@));
            return true;
        }
        assert(peers_of(n@)[i as int] == (n@[i as int].0, n@[i as int].1@));
        i += 1;
    }
    false
}

/// Adds `(id, addr)` unless it is a member already; tells whether it was added.
pub(crate) fn insert_peer(n: &mut Vec<(u32, String)>, id: u32, addr: String) -> (res: bool)
    ensures
        res == !peers_of(old(n)@).contains((id, addr@)),
        peers_of(final(n)@) == with_peer(peers_of(old(n)@), (id, addr@)),
{
    if find_peer(n, id, &addr) {
        false
    } else {
        let ghost a = addr@;
        n.push((id, addr));
        assert(peers_of(n@) =~= peers_of(old(n)@).push((id, a)));
        true
    }
}

/// Takes `(id, addr)` out; tells whether it was a member.
pub(crate) fn remove_peer(n: &mut Vec<(u32, String)>, id: u32, addr: &String) -> (res: bool)
    ensures
        res == peers_of(old(n)@).contains((id, addr@)),
        peers_of(final(n)@) == without(peers_of(old(n)@), (id, addr@)),
{
    let ghost e = (id, addr@);
    let ghost all = peers_of(n@);
    let mut kept: Vec<(u32, String)> = Vec::new();
    let mut found = false;
    let mut i: usize = 0;
    assert(all.take(0) =~= Seq::<PeerView>::empty());
    while i < n.len()
        invariant
            i <= n.len(),
            all == peers_of(n@),
            e == (id, addr@),
            peers_of(kept@) == without(all.take(i as int), e),
            found == all.take(i as int).contains(e),
        decreases n.len() - i,
    {
        let ghost before = peers_of(kept@);
        assert(all.take(i + 1).drop_last() =~= all.take(i as int));
        assert(all.take(i + 1).last() == all[i as int]);
        assert(all[i as int] == (n@[i as int].0, n@[i as int].1@));
        if n[i].0 == id && n[i].1 == *addr {
            found = true;
            assert(all.take(i + 1)[i as int] == e);
        } else {
            let item = (n[i].0, n[i].1.clone());
            kept.push(item);
            assert(peers_of(kept@) =~= before.push(all[i as int]));
        }
        assert(found == all.take(i + 1).contains(e)) by {
            let next = all.take(i + 1);
            if next.contains(e) && !all.take(i as int).contains(e) {
                let k = choose|k: int| 0 <= k < next.len() && next[k] == e;
                if k < i {
                    assert(all.take(i as int)[k] == e);
                }
            }
            if all.take(i as int).contains(e) {
                let k = choose|k: int| 0 <= k < i && all.take(i as int)[k] == e;
                assert(all.take(i + 1)[k] == e);
            }
        }
        i += 1;
    }
    assert(all.take(n.len() as int) =~= all);
    *n = kept;
    found
}

/// The member that one piece of a network text describes, if any.
pub(crate) fn parse_peer(piece: &Vec<char>) -> (res: Option<(u32, String)>)
    ensures
        res is Some <==> parsed_peer(piece@) is Some,
        res matches Some(p) ==> parsed_peer(piece@) == Some((p.0, p.1@)),
{
    let couple = split_on(piece, ',');
    assert(views(couple@).len() == couple@.len());
    if couple.len() < 2 {
        return None;
    }
    assert(views(couple@)[0] == couple@[0]@);
    assert(views(couple@)[1] == couple@[1]@);
    let first = string_of(&couple[0], 0, couple[0].len());
    assert(couple@[0]@.subrange(0, couple@[0]@.len() as int) =~= couple@[0]@);
    let trimmed_id = trim_char(first.as_str(), '\0');
    match parse_u32(trimmed_id.as_str()) {
        Some(id) => {
            let address = string_of(&couple[1], 0, couple[1].len());
            assert(couple@[1]@.subrange(0, couple@[1]@.len() as int) =~= couple@[1]@);
            Some((id, address))
        },
        None => None,
    }
}

} // verus!
