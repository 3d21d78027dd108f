//! The theory of doubly linked lists stored in a map: each key maps to the
//! pair (previous key, next key), and a sequence of keys is the list when each
//! of its keys links to its neighbours in the sequence.
use vstd::prelude::*;

verus! {

/// key -> (previous key, next key)
pub type Links<K> = Map<K, (Option<K>, Option<K>)>;

pub open spec fn prev_in<K>(s: Seq<K>, i: int) -> Option<K> {
    if i <= 0 { None } else { Some(s[i - 1]) }
}

pub open spec fn next_in<K>(s: Seq<K>, i: int) -> Option<K> {
    if i + 1 >= s.len() { None } else { Some(s[i + 1]) }
}

/// The entry of `links` at position `i` of `s` points to the neighbours of `s[i]`.
pub open spec fn linked_at<K>(links: Links<K>, s: Seq<K>, i: int) -> bool {
    &&& links.contains_key(s[i])
    &&& links[s[i]] == (prev_in(s, i), next_in(s, i))
}

/// `s` is a list of distinct keys, linked in both directions by `links`.
pub open spec fn chain<K>(links: Links<K>, s: Seq<K>) -> bool {
    &&& s.no_duplicates()
    &&& forall|i: int| 0 <= i < s.len() ==> #[trigger] linked_at(links, s, i)
}

/// `head` and `tail` are the first and last keys of `s` (both `None` when empty).
pub open spec fn ends_ok<K>(head: Option<K>, tail: Option<K>, s: Seq<K>) -> bool {
    if s.len() == 0 {
        head is None && tail is None
    } else {
        head == Some(s[0]) && tail == Some(s.last())
    }
}

/// The links after unlinking position `k` of `s`, the key of `k` left in place.
pub open spec fn unlink_links<K>(links: Links<K>, s: Seq<K>, k: int) -> Links<K> {
    let l1 = if k > 0 {
        links.insert(s[k - 1], (links[s[k - 1]].0, next_in(s, k)))
    } else {
        links
    };
    if k + 1 < s.len() {
        l1.insert(s[k + 1], (prev_in(s, k), l1[s[k + 1]].1))
    } else {
        l1
    }
}

/// The links after linking key `x` in at position `k` of `s`.
pub open spec fn link_in_links<K>(links: Links<K>, s: Seq<K>, k: int, x: K) -> Links<K> {
    let l1 = if k > 0 {
        links.insert(s[k - 1], (links[s[k - 1]].0, Some(x)))
    } else {
        links
    };
    let l2 = if k < s.len() {
        l1.insert(s[k], (Some(x), l1[s[k]].1))
    } else {
        l1
    };
    l2.insert(x, (prev_in(s, k), if k < s.len() { Some(s[k]) } else { None }))
}

/// A chain stays a chain under any links that agree on its keys.
pub proof fn lemma_chain_frame<K>(l1: Links<K>, l2: Links<K>, s: Seq<K>)
    requires
        chain(l1, s),
        forall|i: int| 0 <= i < s.len() ==> l2.contains_key(#[trigger] s[i]) && l2[s[i]] == l1[s[i]],
    ensures
        chain(l2, s),
{
    assert forall|i: int| 0 <= i < s.len() implies #[trigger] linked_at(l2, s, i) by {
        assert(linked_at(l1, s, i));
        assert(l2.contains_key(s[i]));
    }
}

proof fn lemma_chain_prefix<K>(links: Links<K>, s1: Seq<K>, s2: Seq<K>, n: int)
    requires
        chain(links, s1),
        chain(links, s2),
        0 <= n < s1.len(),
        n < s2.len(),
        s1[0] == s2[0],
    ensures
        forall|j: int| 0 <= j <= n ==> s1[j] == s2[j],
    decreases n,
{
    if n > 0 {
        lemma_chain_prefix(links, s1, s2, n - 1);
        assert(linked_at(links, s1, n - 1));
        assert(linked_at(links, s2, n - 1));
    }
}

/// A list is determined by its first key.
pub proof fn lemma_chain_unique<K>(links: Links<K>, s1: Seq<K>, s2: Seq<K>)
    requires
        chain(links, s1),
        chain(links, s2),
        s1.len() > 0,
        s2.len() > 0,
        s1[0] == s2[0],
    ensures
        s1 == s2,
{
    let m: int = if s1.len() < s2.len() { s1.len() as int } else { s2.len() as int };
    lemma_chain_prefix(links, s1, s2, m - 1);
    if s1.len() < s2.len() {
        assert(linked_at(links, s1, m - 1));
        assert(linked_at(links, s2, m - 1));
        assert(false);
    } else if s2.len() < s1.len() {
        assert(linked_at(links, s1, m - 1));
        assert(linked_at(links, s2, m - 1));
        assert(false);
    }
    assert(s1 =~= s2);
}

/// Unlinking position `k` leaves the rest of the list linked.
pub proof fn lemma_chain_unlink<K>(links: Links<K>, s: Seq<K>, k: int)
    requires
        chain(links, s),
        0 <= k < s.len(),
    ensures
        chain(unlink_links(links, s, k), s.remove(k)),
{
    let t = s.remove(k);
    let nl = unlink_links(links, s, k);
    assert(t.no_duplicates()) by {
        assert forall|a: int, b: int| 0 <= a < t.len() && 0 <= b < t.len() && a != b implies t[a] != t[b] by {
            let sa = if a < k { a } else { a + 1 };
            let sb = if b < k { b } else { b + 1 };
            assert(t[a] == s[sa]);
            assert(t[b] == s[sb]);
        }
    }
    assert forall|i: int| 0 <= i < t.len() implies #[trigger] linked_at(nl, t, i) by {
        if i < k - 1 {
            assert(t[i] == s[i]);
            assert(linked_at(links, s, i));
            assert(s[i] != s[k - 1]);
            if k + 1 < s.len() {
                assert(s[i] != s[k + 1]);
            }
            assert(t[i + 1] == s[i + 1]);
        } else if i == k - 1 {
            assert(t[i] == s[k - 1]);
            assert(linked_at(links, s, k - 1));
            if k + 1 < s.len() {
                assert(s[k - 1] != s[k + 1]);
                assert(t[i + 1] == s[k + 1]);
            }
            if i > 0 {
                assert(t[i - 1] == s[i - 1]);
            }
        } else if i == k {
            assert(t[i] == s[k + 1]);
            assert(linked_at(links, s, k + 1));
            if k > 0 {
                assert(s[k - 1] != s[k + 1]);
                assert(t[i - 1] == s[k - 1]);
            }
            if i + 1 < t.len() {
                assert(t[i + 1] == s[k + 2]);
            }
        } else {
            assert(t[i] == s[i + 1]);
            assert(linked_at(links, s, i + 1));
            if k > 0 {
                assert(s[i + 1] != s[k - 1]);
            }
            assert(s[i + 1] != s[k + 1]);
            assert(t[i - 1] == s[i]);
            if i + 1 < t.len() {
                assert(t[i + 1] == s[i + 2]);
            }
        }
    }
}

/// Linking a new key in at position `k` gives the list with the key inserted there.
pub proof fn lemma_chain_link_in<K>(links: Links<K>, s: Seq<K>, k: int, x: K)
    requires
        chain(links, s),
        0 <= k <= s.len(),
        !s.contains(x),
    ensures
        chain(link_in_links(links, s, k, x), s.insert(k, x)),
{
    let t = s.insert(k, x);
    let nl = link_in_links(links, s, k, x);
    assert(t.no_duplicates()) by {
        assert forall|a: int, b: int| 0 <= a < t.len() && 0 <= b < t.len() && a != b implies t[a] != t[b] by {
            if a != k && b != k {
                let sa = if a < k { a } else { a - 1 };
                let sb = if b < k { b } else { b - 1 };
                assert(t[a] == s[sa]);
                assert(t[b] == s[sb]);
            } else if a == k {
                let sb = if b < k { b } else { b - 1 };
                assert(t[b] == s[sb]);
            } else {
                let sa = if a < k { a } else { a - 1 };
                assert(t[a] == s[sa]);
            }
        }
    }
    assert forall|i: int| 0 <= i < t.len() implies #[trigger] linked_at(nl, t, i) by {
        if i < k - 1 {
            assert(t[i] == s[i]);
            assert(linked_at(links, s, i));
            assert(s[i] != s[k - 1]);
            if k < s.len() {
                assert(s[i] != s[k]);
            }
            assert(t[i + 1] == s[i + 1]);
        } else if i == k - 1 {
            assert(t[i] == s[k - 1]);
            assert(linked_at(links, s, k - 1));
            if k < s.len() {
                assert(s[k - 1] != s[k]);
            }
            if i > 0 {
                assert(t[i - 1] == s[i - 1]);
            }
        } else if i == k {
            assert(t[i] == x);
            if k > 0 {
                assert(t[i - 1] == s[k - 1]);
            }
            if k < s.len() {
                assert(t[i + 1] == s[k]);
            }
        } else if i == k + 1 {
            assert(t[i] == s[k]);
            assert(linked_at(links, s, k));
            if k > 0 {
                assert(s[k - 1] != s[k]);
            }
            if i + 1 < t.len() {
                assert(t[i + 1] == s[k + 1]);
            }
        } else {
            assert(t[i] == s[i - 1]);
            assert(linked_at(links, s, i - 1));
            if k > 0 {
                assert(s[i - 1] != s[k - 1]);
            }
            assert(s[i - 1] != s[k]);
            assert(t[i - 1] == s[i - 2]);
            if i + 1 < t.len() {
                assert(t[i + 1] == s[i]);
            }
        }
    }
}

} // verus!
