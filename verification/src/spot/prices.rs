//! Level-2 data of a spot market: the sorted lists of bid and ask prices, the
//! quantity resting at each price, and the level lists used for snapshots.
use std::collections::BTreeMap;
use vstd::prelude::*;
use crate::text::{dec_digits, fixed8, push_dec, push_padded, push_text, chars_to_string};
use crate::dll::{chain, ends_ok, linked_at, unlink_links, link_in_links, Links, prev_in, next_in,
    lemma_chain_unlink, lemma_chain_link_in, lemma_chain_frame, lemma_chain_unique};

verus! {

broadcast use {vstd::std_specs::btree::group_btree_axioms, vstd::laws_cmp::group_laws_cmp};

/// A price level of a snapshot.
#[derive(Debug, Clone, Copy, PartialEq, Eq, Structural)]
pub struct Level {
    /// price in 8 decimals
    pub price: u64,
    /// public quantity in 8 decimals
    pub pqty: u64,
    /// current quantity in 8 decimals
    pub cqty: u64,
}

/// The text of a level: `Level(price: P, pqty: Q, cqty: C)` with the three
/// numbers in decimal.
pub open spec fn level_text(l: Level) -> Seq<char> {
    seq!['L', 'e', 'v', 'e', 'l', '(', 'p', 'r', 'i', 'c', 'e', ':', ' '] + dec_digits(l.price as nat)
        + seq![',', ' ', 'p', 'q', 't', 'y', ':', ' '] + dec_digits(l.pqty as nat)
        + seq![',', ' ', 'c', 'q', 't', 'y', ':', ' '] + dec_digits(l.cqty as nat) + seq![')']
}

/// The texts of `levels` separated by `", "`.
pub open spec fn joined_level_texts(levels: Seq<Level>) -> Seq<char>
    decreases levels.len(),
{
    if levels.len() == 0 {
        Seq::empty()
    } else if levels.len() == 1 {
        level_text(levels[0])
    } else {
        joined_level_texts(levels.drop_last()) + seq![',', ' '] + level_text(levels.last())
    }
}

/// The text of a list of levels: `[` and `]` around the level texts
/// separated by `", "` (`[]` for no level).
pub open spec fn levels_text(levels: Seq<Level>) -> Seq<char> {
    seq!['['] + joined_level_texts(levels) + seq![']']
}

impl Level {
    /// Appends the text of this level.
    fn push_text_of(&self, out: &mut Vec<char>)
        ensures
            final(out)@ == old(out)@ + level_text(*self),
    {
        push_text(out, &vec!['L', 'e', 'v', 'e', 'l', '(', 'p', 'r', 'i', 'c', 'e', ':', ' ']);
        push_dec(out, self.price);
        push_text(out, &vec![',', ' ', 'p', 'q', 't', 'y', ':', ' ']);
        push_dec(out, self.pqty);
        push_text(out, &vec![',', ' ', 'c', 'q', 't', 'y', ':', ' ']);
        push_dec(out, self.cqty);
        out.push(')');
        assert(final(out)@ =~= old(out)@ + level_text(*self));
    }

    /// The text of this level, `Level(price: P, pqty: Q, cqty: C)`.
    pub fn display_text(&self) -> (s: String)
        ensures
            s@ == level_text(*self),
    {
        let mut out: Vec<char> = Vec::new();
        self.push_text_of(&mut out);
        assert(out@ =~= level_text(*self));
        chars_to_string(&out)
    }
}

/// The text of a list of levels, e.g. `[Level(price: 1, pqty: 2, cqty: 3)]`;
/// `[]` for no level.
pub fn format_levels(levels: &[Level]) -> (s: String)
    ensures
        s@ == levels_text(levels@),
{
    let mut out: Vec<char> = Vec::new();
    out.push('[');
    let mut i: usize = 0;
    while i < levels.len()
        invariant
            i <= levels@.len(),
            out@ == seq!['['] + joined_level_texts(levels@.take(i as int)),
        decreases levels@.len() - i,
    {
        let ghost before = out@;
        if i > 0 {
            out.push(',');
            out.push(' ');
        }
        levels[i].push_text_of(&mut out);
        proof {
            let t = levels@.take(i + 1);
            assert(t.drop_last() =~= levels@.take(i as int));
            assert(t.last() == levels@[i as int]);
            if i == 0 {
                assert(t.len() == 1);
                assert(out@ =~= seq!['['] + joined_level_texts(t));
            } else {
                assert(out@ =~= seq!['['] + joined_level_texts(t));
            }
        }
        i = i + 1;
    }
    out.push(']');
    assert(levels@.take(levels@.len() as int) =~= levels@);
    assert(out@ =~= levels_text(levels@));
    chars_to_string(&out)
}

/// A node of a price list.
#[derive(Debug, Clone, Copy, PartialEq, Eq, Structural)]
pub struct PriceNode {
    pub prev: Option<u64>,
    pub next: Option<u64>,
}

/// Level-2 book data.
#[derive(Debug, Clone, PartialEq, Eq)]
pub struct L2 {
    /// Head of the bid price linked list
    pub bid_price_head: Option<u64>,
    /// Head of the ask price linked list
    pub ask_price_head: Option<u64>,
    /// Tail of the bid price linked list
    pub bid_price_tail: Option<u64>,
    /// Tail of the ask price linked list
    pub ask_price_tail: Option<u64>,
    /// Mapping price -> node of the bid price linked list
    pub bid_price_nodes: BTreeMap<u64, PriceNode>,
    /// Mapping price -> node of the ask price linked list
    pub ask_price_nodes: BTreeMap<u64, PriceNode>,
    /// Public bid levels sorted by price descending
    pub public_bid_level_map: BTreeMap<u64, u64>,
    /// Public ask levels sorted by price ascending
    pub public_ask_level_map: BTreeMap<u64, u64>,
    /// Current bid levels sorted by price descending
    pub current_bid_level_map: BTreeMap<u64, u64>,
    /// Current ask levels sorted by price ascending
    pub current_ask_level_map: BTreeMap<u64, u64>,
    /// Bid levels for snapshot display, keyed by scale (8 decimals)
    pub bid_level_list: BTreeMap<u64, Vec<Level>>,
    /// Ask levels for snapshot display, keyed by scale (8 decimals)
    pub ask_level_list: BTreeMap<u64, Vec<Level>>,
}

/// Errors of level-2 data.
#[derive(Debug, Clone, PartialEq, Eq)]
pub enum L2Error {
    PriceIsZero,
    PriceMissing { price: u64, is_bid: bool, is_placed: bool },
    FailedToSetBidLevel { price: u64, level: u64 },
    FailedToSetAskLevel { price: u64, level: u64 },
    FailedToSetBidLevels { scale: u64, levels: Vec<Level> },
    FailedToSetAskLevels { scale: u64, levels: Vec<Level> },
}

/// The links of a price-node map.
pub open spec fn links_of(m: Map<u64, PriceNode>) -> Links<u64> {
    m.map_values(|n: PriceNode| (n.prev, n.next))
}

/// `a` comes before `b` in a list sorted descending (`desc`) or ascending.
pub open spec fn precedes(a: u64, b: u64, desc: bool) -> bool {
    if desc { a > b } else { a < b }
}

pub open spec fn sorted_side(s: Seq<u64>, desc: bool) -> bool {
    forall|i: int, j: int| 0 <= i < j < s.len() ==> precedes(s[i], s[j], desc)
}

/// `s` is the price list held by `head`, `tail` and `nodes`, sorted by `desc`.
pub open spec fn side_ok(head: Option<u64>, tail: Option<u64>, nodes: Map<u64, PriceNode>, s: Seq<u64>, desc: bool) -> bool {
    &&& chain(links_of(nodes), s)
    &&& ends_ok(head, tail, s)
    &&& sorted_side(s, desc)
    &&& forall|p: u64| nodes.contains_key(p) <==> s.contains(p)
}

proof fn lemma_links_of_insert(m: Map<u64, PriceNode>, k: u64, n: PriceNode)
    ensures
        links_of(m.insert(k, n)) == links_of(m).insert(k, (n.prev, n.next)),
{
    assert(links_of(m.insert(k, n)) =~= links_of(m).insert(k, (n.prev, n.next)));
}

proof fn lemma_links_of_remove(m: Map<u64, PriceNode>, k: u64)
    ensures
        links_of(m.remove(k)) == links_of(m).remove(k),
{
    assert(links_of(m.remove(k)) =~= links_of(m).remove(k));
}

/// Two price lists held by the same fields are the same.
proof fn lemma_side_unique(head: Option<u64>, tail: Option<u64>, nodes: Map<u64, PriceNode>, s1: Seq<u64>, s2: Seq<u64>, desc: bool)
    requires
        side_ok(head, tail, nodes, s1, desc),
        side_ok(head, tail, nodes, s2, desc),
    ensures
        s1 == s2,
{
    if s1.len() == 0 || s2.len() == 0 {
        assert(s1.len() == 0 && s2.len() == 0);
        assert(s1 =~= s2);
    } else {
        lemma_chain_unique(links_of(nodes), s1, s2);
    }
}

fn precedes_exec(a: u64, b: u64, desc: bool) -> (r: bool)
    ensures
        r == precedes(a, b, desc),
{
    if desc { a > b } else { a < b }
}

/// Reads the node of `p`, which the list holds.
fn node_at(nodes: &BTreeMap<u64, PriceNode>, p: u64, Ghost(s): Ghost<Seq<u64>>, Ghost(i): Ghost<int>) -> (n: PriceNode)
    requires
        chain(links_of(nodes@), s),
        0 <= i < s.len(),
        s[i] == p,
    ensures
        n.prev == prev_in(s, i),
        n.next == next_in(s, i),
        nodes@[p] == n,
        linked_at(links_of(nodes@), s, i),
{
    assert(linked_at(links_of(nodes@), s, i));
    match nodes.get(&p) {
        Some(n) => *n,
        None => {
            assert(false);
            PriceNode { prev: None, next: None }
        },
    }
}

/// Inserts `price` into a sorted price list; a price already there changes nothing.
fn side_insert(
    nodes: &mut BTreeMap<u64, PriceNode>,
    head: &mut Option<u64>,
    tail: &mut Option<u64>,
    price: u64,
    desc: bool,
    Ghost(s): Ghost<Seq<u64>>,
) -> (r: Ghost<Seq<u64>>)
    requires
        side_ok(*old(head), *old(tail), old(nodes)@, s, desc),
    ensures
        side_ok(*final(head), *final(tail), final(nodes)@, r@, desc),
        forall|p: u64| r@.contains(p) <==> (s.contains(p) || p == price),
{
    let ghost old_links = links_of(nodes@);
    match *head {
        None => {
            assert(s.len() == 0);
            *head = Some(price);
            *tail = Some(price);
            proof { lemma_links_of_insert(nodes@, price, PriceNode { prev: None, next: None }); }
            nodes.insert(price, PriceNode { prev: None, next: None });
            let ghost t = seq![price];
            assert(linked_at(links_of(nodes@), t, 0));
            assert(chain(links_of(nodes@), t));
            assert forall|p: u64| nodes@.contains_key(p) <==> t.contains(p) by {
                if nodes@.contains_key(p) {
                    assert(p == price || s.contains(p));
                    if p == price { assert(t[0] == p); }
                }
            }
            return Ghost(t);
        },
        Some(h) => {
            assert(s.len() > 0 && s[0] == h);
            if precedes_exec(price, h, desc) {
                // new head
                assert(!s.contains(price)) by {
                    if s.contains(price) {
                        let j = choose|j: int| 0 <= j < s.len() && s[j] == price;
                        if j > 0 { assert(precedes(s[0], s[j], desc)); }
                    }
                }
                let hn = node_at(nodes, h, Ghost(s), Ghost(0));
                let ghost n0 = nodes@;
                proof {
                    lemma_chain_link_in(old_links, s, 0, price);
                    lemma_links_of_insert(nodes@, h, PriceNode { prev: Some(price), next: hn.next });
                }
                nodes.insert(h, PriceNode { prev: Some(price), next: hn.next });
                proof { lemma_links_of_insert(nodes@, price, PriceNode { prev: None, next: Some(h) }); }
                nodes.insert(price, PriceNode { prev: None, next: Some(h) });
                *head = Some(price);
                let ghost t = s.insert(0, price);
                proof {
                    assert(nodes@ == n0.insert(h, PriceNode { prev: Some(price), next: hn.next }).insert(price, PriceNode { prev: None, next: Some(h) }));
                    assert(links_of(n0) == old_links);
                    assert(old_links[h] == (None::<u64>, hn.next));
                    assert(links_of(nodes@) == old_links.insert(h, (Some(price), hn.next)).insert(price, (None::<u64>, Some(h))));
                    assert(links_of(nodes@) =~= link_in_links(old_links, s, 0, price));
                    assert forall|i: int, j: int| 0 <= i < j < t.len() implies precedes(t[i], t[j], desc) by {
                        if i > 0 { assert(precedes(s[i - 1], s[j - 1], desc)); }
                        else if j > 1 { assert(precedes(s[0], s[j - 1], desc)); }
                    }
                    assert forall|p: u64| nodes@.contains_key(p) <==> t.contains(p) by {
                        assert(nodes@.contains_key(p) <==> (n0.contains_key(p) || p == price));
                        assert(n0.contains_key(p) <==> s.contains(p));
                        if p == price { assert(t[0] == p); }
                        if s.contains(p) {
                            let j = choose|j: int| 0 <= j < s.len() && s[j] == p;
                            assert(t[j + 1] == p);
                        }
                        if t.contains(p) {
                            let j = choose|j: int| 0 <= j < t.len() && t[j] == p;
                            if j > 0 { assert(s[j - 1] == p); }
                        }
                    }
                    assert(t.last() == s.last());
                }
                return Ghost(t);
            } else if price == h {
                return Ghost(s);
            } else {
                let mut current: u64 = h;
                let ghost mut i: int = 0;
                loop
                    invariant
                        side_ok(*head, *tail, nodes@, s, desc),
                        *head == *old(head),
                        *tail == *old(tail),
                        nodes@ == old(nodes)@,
                        old_links == links_of(nodes@),
                        0 <= i < s.len(),
                        current == s[i],
                        precedes(current, price, desc),
                    decreases s.len() - i,
                {
                    let cn = node_at(nodes, current, Ghost(s), Ghost(i));
                    match cn.next {
                        None => {
                            // append at the tail
                            assert(i == s.len() - 1);
                            let ghost k = s.len() as int;
                            assert(!s.contains(price)) by {
                                if s.contains(price) {
                                    let j = choose|j: int| 0 <= j < s.len() && s[j] == price;
                                    if j < i { assert(precedes(s[j], s[i], desc)); }
                                }
                            }
                            let ghost n0 = nodes@;
                            proof {
                                lemma_chain_link_in(old_links, s, k, price);
                                lemma_links_of_insert(nodes@, current, PriceNode { prev: cn.prev, next: Some(price) });
                            }
                            nodes.insert(current, PriceNode { prev: cn.prev, next: Some(price) });
                            proof { lemma_links_of_insert(nodes@, price, PriceNode { prev: Some(current), next: None }); }
                            nodes.insert(price, PriceNode { prev: Some(current), next: None });
                            *tail = Some(price);
                            let ghost t = s.insert(k, price);
                            proof {
                                assert(links_of(nodes@) =~= link_in_links(old_links, s, k, price));
                                assert forall|a: int, b: int| 0 <= a < b < t.len() implies precedes(t[a], t[b], desc) by {
                                    if b < k { assert(precedes(s[a], s[b], desc)); }
                                    else if a < i { assert(precedes(s[a], s[i], desc)); }
                                }
                                assert forall|p: u64| nodes@.contains_key(p) <==> t.contains(p) by {
                                    assert(nodes@.contains_key(p) <==> (n0.contains_key(p) || p == price));
                                    assert(n0.contains_key(p) <==> s.contains(p));
                                    if p == price { assert(t[k] == p); }
                                    if s.contains(p) {
                                        let j = choose|j: int| 0 <= j < s.len() && s[j] == p;
                                        assert(t[j] == p);
                                    }
                                    if t.contains(p) {
                                        let j = choose|j: int| 0 <= j < t.len() && t[j] == p;
                                        if j < k { assert(s[j] == p); }
                                    }
                                }
                                assert(t[0] == s[0]);
                            }
                            return Ghost(t);
                        },
                        Some(nv) => {
                            assert(nv == s[i + 1]);
                            if precedes_exec(nv, price, desc) {
                                current = nv;
                                proof { i = i + 1; }
                            } else if precedes_exec(price, nv, desc) {
                                let ghost k = i + 1;
                                assert(!s.contains(price)) by {
                                    if s.contains(price) {
                                        let j = choose|j: int| 0 <= j < s.len() && s[j] == price;
                                        if j < i { assert(precedes(s[j], s[i], desc)); }
                                        if j > k { assert(precedes(s[k], s[j], desc)); }
                                    }
                                }
                                let nn = node_at(nodes, nv, Ghost(s), Ghost(k));
                                let ghost n0 = nodes@;
                                proof {
                                    lemma_chain_link_in(old_links, s, k, price);
                                    lemma_links_of_insert(nodes@, current, PriceNode { prev: cn.prev, next: Some(price) });
                                }
                                nodes.insert(current, PriceNode { prev: cn.prev, next: Some(price) });
                                proof { lemma_links_of_insert(nodes@, nv, PriceNode { prev: Some(price), next: nn.next }); }
                                nodes.insert(nv, PriceNode { prev: Some(price), next: nn.next });
                                proof { lemma_links_of_insert(nodes@, price, PriceNode { prev: Some(current), next: Some(nv) }); }
                                nodes.insert(price, PriceNode { prev: Some(current), next: Some(nv) });
                                let ghost t = s.insert(k, price);
                                proof {
                                    assert(links_of(nodes@) =~= link_in_links(old_links, s, k, price));
                                    assert forall|a: int, b: int| 0 <= a < b < t.len() implies precedes(t[a], t[b], desc) by {
                                        if b < k { assert(precedes(s[a], s[b], desc)); }
                                        else if b == k { if a < i { assert(precedes(s[a], s[i], desc)); } }
                                        else if a < k { assert(precedes(s[a], s[b - 1], desc)); }
                                        else if a == k { if b > k + 1 { assert(precedes(s[k], s[b - 1], desc)); } }
                                        else { assert(precedes(s[a - 1], s[b - 1], desc)); }
                                    }
                                    assert forall|p: u64| nodes@.contains_key(p) <==> t.contains(p) by {
                                        assert(nodes@.contains_key(p) <==> (n0.contains_key(p) || p == price));
                                        assert(n0.contains_key(p) <==> s.contains(p));
                                        if p == price { assert(t[k] == p); }
                                        if s.contains(p) {
                                            let j = choose|j: int| 0 <= j < s.len() && s[j] == p;
                                            if j < k { assert(t[j] == p); } else { assert(t[j + 1] == p); }
                                        }
                                        if t.contains(p) {
                                            let j = choose|j: int| 0 <= j < t.len() && t[j] == p;
                                            if j < k { assert(s[j] == p); } else if j > k { assert(s[j - 1] == p); }
                                        }
                                    }
                                    assert(t[0] == s[0]);
                                    assert(t.last() == s.last());
                                }
                                return Ghost(t);
                            } else {
                                // the price is already listed
                                return Ghost(s);
                            }
                        },
                    }
                }
            }
        },
    }
}


/// Removes `price` from a sorted price list; an absent price changes nothing.
fn side_remove(
    nodes: &mut BTreeMap<u64, PriceNode>,
    head: &mut Option<u64>,
    tail: &mut Option<u64>,
    price: u64,
    desc: bool,
    Ghost(s): Ghost<Seq<u64>>,
) -> (r: Ghost<Seq<u64>>)
    requires
        side_ok(*old(head), *old(tail), old(nodes)@, s, desc),
    ensures
        side_ok(*final(head), *final(tail), final(nodes)@, r@, desc),
        r@ == s.remove_value(price),
{
    proof { s.index_of_first_ensures(price); }
    let node = match nodes.get(&price) {
        Some(n) => *n,
        None => {
            assert(!s.contains(price));
            return Ghost(s);
        },
    };
    assert(s.contains(price));
    let ghost k: int = s.index_of_first(price).unwrap();
    let ghost old_links = links_of(nodes@);
    let ghost n0 = nodes@;
    assert(linked_at(old_links, s, k));
    assert(node.prev == prev_in(s, k) && node.next == next_in(s, k));
    match node.prev {
        Some(pp) => {
            let pn = node_at(nodes, pp, Ghost(s), Ghost(k - 1));
            proof { lemma_links_of_insert(nodes@, pp, PriceNode { prev: pn.prev, next: node.next }); }
            nodes.insert(pp, PriceNode { prev: pn.prev, next: node.next });
        },
        None => {
            *head = node.next;
        },
    }
    let ghost n1 = nodes@;
    assert(links_of(n1) =~= (if k > 0 { old_links.insert(s[k - 1], (old_links[s[k - 1]].0, next_in(s, k))) } else { old_links }));
    match node.next {
        Some(np) => {
            proof {
                assert(linked_at(old_links, s, k + 1));
                if k > 0 { assert(s[k - 1] != s[k + 1]); }
            }
            let nn = match nodes.get(&np) {
                Some(n) => *n,
                None => {
                    assert(false);
                    PriceNode { prev: None, next: None }
                },
            };
            assert(nn.next == next_in(s, k + 1));
            proof { lemma_links_of_insert(nodes@, np, PriceNode { prev: node.prev, next: nn.next }); }
            nodes.insert(np, PriceNode { prev: node.prev, next: nn.next });
        },
        None => {
            *tail = node.prev;
        },
    }
    let ghost n2 = nodes@;
    assert(links_of(n2) =~= unlink_links(old_links, s, k));
    proof { lemma_links_of_remove(nodes@, price); }
    nodes.remove(&price);
    let ghost t = s.remove(k);
    proof {
        lemma_chain_unlink(old_links, s, k);
        assert forall|i: int| 0 <= i < t.len() implies links_of(nodes@).contains_key(#[trigger] t[i])
            && links_of(nodes@)[t[i]] == unlink_links(old_links, s, k)[t[i]] by {
            let si = if i < k { i } else { i + 1 };
            assert(t[i] == s[si]);
            assert(s[si] != s[k]);
            assert(linked_at(unlink_links(old_links, s, k), t, i));
        }
        lemma_chain_frame(unlink_links(old_links, s, k), links_of(nodes@), t);
        assert forall|a: int, b: int| 0 <= a < b < t.len() implies precedes(t[a], t[b], desc) by {
            let sa = if a < k { a } else { a + 1 };
            let sb = if b < k { b } else { b + 1 };
            assert(precedes(s[sa], s[sb], desc));
        }
        assert forall|p: u64| nodes@.contains_key(p) <==> t.contains(p) by {
            assert(nodes@.contains_key(p) <==> (n0.contains_key(p) && p != price));
            if t.contains(p) {
                let j = choose|j: int| 0 <= j < t.len() && t[j] == p;
                let sj = if j < k { j } else { j + 1 };
                assert(s[sj] == p);
                assert(sj != k);
            }
            if s.contains(p) && p != price {
                let j = choose|j: int| 0 <= j < s.len() && s[j] == p;
                assert(j != k);
                if j < k { assert(t[j] == p); } else { assert(t[j - 1] == p); }
            }
        }
        if t.len() > 0 {
            if k == 0 { assert(t[0] == s[1]); } else { assert(t[0] == s[0]); }
            if k == s.len() - 1 { assert(t.last() == s[k - 1]); } else { assert(t.last() == s.last()); }
        }
    }
    Ghost(t)
}

/// The prices of a list, from its head.
fn side_collect(nodes: &BTreeMap<u64, PriceNode>, head: Option<u64>, tail: Option<u64>, desc: bool, Ghost(s): Ghost<Seq<u64>>) -> (r: Vec<u64>)
    requires
        side_ok(head, tail, nodes@, s, desc),
    ensures
        r@ == s,
{
    let mut prices: Vec<u64> = Vec::new();
    let mut current = head;
    let ghost mut i: int = 0;
    while current.is_some()
        invariant
            side_ok(head, tail, nodes@, s, desc),
            0 <= i <= s.len(),
            prices@ == s.take(i),
            current == (if i < s.len() { Some(s[i]) } else { None::<u64> }),
        decreases s.len() - i,
    {
        let p = current.unwrap();
        prices.push(p);
        let n = node_at(nodes, p, Ghost(s), Ghost(i));
        current = n.next;
        proof {
            assert(s.take(i + 1) =~= s.take(i).push(s[i]));
            i = i + 1;
        }
    }
    assert(s.take(i) =~= s);
    prices
}

/// The value at `k`, if any.
pub open spec fn opt_get<K, V>(m: Map<K, V>, k: K) -> Option<V> {
    if m.contains_key(k) { Some(m[k]) } else { None }
}

fn get_copied(m: &BTreeMap<u64, u64>, k: u64) -> (r: Option<u64>)
    ensures
        r == opt_get(m@, k),
{
    match m.get(&k) {
        Some(v) => Some(*v),
        None => None,
    }
}

/// The first `n` levels of `levels`.
fn take_levels(levels: &Vec<Level>, n: u32) -> (r: Vec<Level>)
    ensures
        r@ == levels@.take(if (n as int) < levels@.len() { n as int } else { levels@.len() as int }),
{
    let mut out: Vec<Level> = Vec::new();
    let mut i: usize = 0;
    let bound: usize = if (n as usize) < levels.len() { n as usize } else { levels.len() };
    while i < bound
        invariant
            bound <= levels.len(),
            bound == (if (n as int) < levels@.len() { n as int } else { levels@.len() as int }),
            i <= bound,
            out@ == levels@.take(i as int),
        decreases bound - i,
    {
        out.push(levels[i]);
        proof { assert(levels@.take(i + 1) =~= levels@.take(i as int).push(levels@[i as int])); }
        i = i + 1;
    }
    out
}

/// L2 `b` is `a` with `price` inserted into side `is_bid`, its levels set to 0.
pub open spec fn price_inserted(a: L2, b: L2, is_bid: bool, price: u64) -> bool {
    &&& forall|p: u64| b.prices(is_bid).contains(p) <==> (a.prices(is_bid).contains(p) || p == price)
    &&& b.same_list(&a, !is_bid)
    &&& b.public_levels(is_bid) == a.public_levels(is_bid).insert(price, 0)
    &&& b.current_levels(is_bid) == a.current_levels(is_bid).insert(price, 0)
    &&& b.public_levels(!is_bid) == a.public_levels(!is_bid)
    &&& b.current_levels(!is_bid) == a.current_levels(!is_bid)
    &&& b.bid_level_list@ == a.bid_level_list@
    &&& b.ask_level_list@ == a.ask_level_list@
}

/// L2 `b` is `a` with `price` removed from side `is_bid` with its levels.
pub open spec fn price_removed(a: L2, b: L2, is_bid: bool, price: u64) -> bool {
    &&& b.prices(is_bid) == a.prices(is_bid).remove_value(price)
    &&& b.same_list(&a, !is_bid)
    &&& b.public_levels(is_bid) == a.public_levels(is_bid).remove(price)
    &&& b.current_levels(is_bid) == a.current_levels(is_bid).remove(price)
    &&& b.public_levels(!is_bid) == a.public_levels(!is_bid)
    &&& b.current_levels(!is_bid) == a.current_levels(!is_bid)
    &&& b.bid_level_list@ == a.bid_level_list@
    &&& b.ask_level_list@ == a.ask_level_list@
}

/// Two lists sorted the same way with the same prices are the same list.
pub proof fn lemma_sorted_same_prices(s1: Seq<u64>, s2: Seq<u64>, desc: bool)
    requires
        sorted_side(s1, desc),
        sorted_side(s2, desc),
        forall|p: u64| s1.contains(p) <==> s2.contains(p),
    ensures
        s1 == s2,
    decreases s1.len(),
{
    if s1.len() == 0 {
        if s2.len() > 0 { assert(s2.contains(s2[0])); }
        assert(s1 =~= s2);
    } else {
        assert(s1.contains(s1[0]));
        assert(s2.len() > 0);
        assert(s2.contains(s2[0]));
        if s1[0] != s2[0] {
            let j = choose|j: int| 0 <= j < s2.len() && s2[j] == s1[0];
            let i = choose|i: int| 0 <= i < s1.len() && s1[i] == s2[0];
            assert(j > 0 && i > 0);
            assert(precedes(s2[0], s2[j], desc));
            assert(precedes(s1[0], s1[i], desc));
        }
        let t1 = s1.drop_first();
        let t2 = s2.drop_first();
        assert forall|p: u64| t1.contains(p) <==> t2.contains(p) by {
            if t1.contains(p) {
                let i = choose|i: int| 0 <= i < t1.len() && t1[i] == p;
                assert(precedes(s1[0], s1[i + 1], desc));
                assert(s2.contains(p));
                let j = choose|j: int| 0 <= j < s2.len() && s2[j] == p;
                if j == 0 { assert(false); }
                assert(t2[j - 1] == p);
            }
            if t2.contains(p) {
                let j = choose|j: int| 0 <= j < t2.len() && t2[j] == p;
                assert(precedes(s2[0], s2[j + 1], desc));
                assert(s1.contains(p));
                let i = choose|i: int| 0 <= i < s1.len() && s1[i] == p;
                if i == 0 { assert(false); }
                assert(t1[i - 1] == p);
            }
        }
        assert(sorted_side(t1, desc)) by {
            assert forall|a: int, b: int| 0 <= a < b < t1.len() implies precedes(t1[a], t1[b], desc) by {
                assert(precedes(s1[a + 1], s1[b + 1], desc));
            }
        }
        assert(sorted_side(t2, desc)) by {
            assert forall|a: int, b: int| 0 <= a < b < t2.len() implies precedes(t2[a], t2[b], desc) by {
                assert(precedes(s2[a + 1], s2[b + 1], desc));
            }
        }
        lemma_sorted_same_prices(t1, t2, desc);
        assert(s1 =~= s2) by {
            assert forall|k: int| 0 <= k < s1.len() implies s1[k] == s2[k] by {
                if k > 0 { assert(s1[k] == t1[k - 1]); assert(s2[k] == t2[k - 1]); }
            }
        }
    }
}

/// Removing a price just inserted into a side gives back the side's prices
/// as they were.
pub proof fn law_remove_undoes_insert(a: L2, b: L2, c: L2, is_bid: bool, price: u64)
    requires
        a.wf(),
        b.wf(),
        c.wf(),
        !a.prices(is_bid).contains(price),
        price_inserted(a, b, is_bid, price),
        price_removed(b, c, is_bid, price),
    ensures
        c.prices(is_bid) == a.prices(is_bid),
        c.public_levels(is_bid) == a.public_levels(is_bid).remove(price),
        c.current_levels(is_bid) == a.current_levels(is_bid).remove(price),
{
    a.lemma_prices();
    b.lemma_prices();
    c.lemma_prices();
    crate::spot::orderbook::lemma_remove_value_contains(b.prices(is_bid), price);
    lemma_sorted_same_prices(c.prices(is_bid), a.prices(is_bid), is_bid);
    assert(c.public_levels(is_bid) =~= a.public_levels(is_bid).remove(price));
    assert(c.current_levels(is_bid) =~= a.current_levels(is_bid).remove(price));
}

/// Inserting a price that is already listed leaves the side's prices as they are.
pub proof fn law_insert_listed_price(a: L2, b: L2, is_bid: bool, price: u64)
    requires
        a.wf(),
        b.wf(),
        a.prices(is_bid).contains(price),
        price_inserted(a, b, is_bid, price),
    ensures
        b.prices(is_bid) == a.prices(is_bid),
{
    a.lemma_prices();
    b.lemma_prices();
    lemma_sorted_same_prices(b.prices(is_bid), a.prices(is_bid), is_bid);
}

/// The head of a side is its best price: the highest bid, the lowest ask.
pub proof fn law_head_is_best(l2: L2, is_bid: bool)
    requires
        l2.wf(),
    ensures
        l2.head_of(is_bid) is Some <==> l2.prices(is_bid).len() > 0,
        forall|p: u64| l2.head_of(is_bid) is Some && #[trigger] l2.prices(is_bid).contains(p) && p != l2.head_of(is_bid)->Some_0
            ==> precedes(l2.head_of(is_bid)->Some_0, p, is_bid),
{
    l2.lemma_prices();
    assert forall|p: u64| l2.head_of(is_bid) is Some && #[trigger] l2.prices(is_bid).contains(p) && p != l2.head_of(is_bid)->Some_0
        implies precedes(l2.head_of(is_bid)->Some_0, p, is_bid) by {
        let i = choose|i: int| 0 <= i < l2.prices(is_bid).len() && l2.prices(is_bid)[i] == p;
        assert(i != 0);
    }
}


impl L2 {
    pub open spec fn bid_side_ok(&self, s: Seq<u64>) -> bool {
        side_ok(self.bid_price_head, self.bid_price_tail, self.bid_price_nodes@, s, true)
    }

    pub open spec fn ask_side_ok(&self, s: Seq<u64>) -> bool {
        side_ok(self.ask_price_head, self.ask_price_tail, self.ask_price_nodes@, s, false)
    }

    /// Both price lists are well formed: sorted, doubly linked, with head and tail at their ends.
    pub open spec fn wf(&self) -> bool {
        &&& exists|s: Seq<u64>| self.bid_side_ok(s)
        &&& exists|s: Seq<u64>| self.ask_side_ok(s)
    }

    /// The bid prices, best (highest) first.
    pub open spec fn bid_prices(&self) -> Seq<u64> {
        choose|s: Seq<u64>| self.bid_side_ok(s)
    }

    /// The ask prices, best (lowest) first.
    pub open spec fn ask_prices(&self) -> Seq<u64> {
        choose|s: Seq<u64>| self.ask_side_ok(s)
    }

    pub open spec fn prices(&self, is_bid: bool) -> Seq<u64> {
        if is_bid { self.bid_prices() } else { self.ask_prices() }
    }

    pub open spec fn head_of(&self, is_bid: bool) -> Option<u64> {
        if is_bid { self.bid_price_head } else { self.ask_price_head }
    }

    pub open spec fn public_levels(&self, is_bid: bool) -> Map<u64, u64> {
        if is_bid { self.public_bid_level_map@ } else { self.public_ask_level_map@ }
    }

    pub open spec fn current_levels(&self, is_bid: bool) -> Map<u64, u64> {
        if is_bid { self.current_bid_level_map@ } else { self.current_ask_level_map@ }
    }

    pub open spec fn level_lists(&self, is_bid: bool) -> Map<u64, Vec<Level>> {
        if is_bid { self.bid_level_list@ } else { self.ask_level_list@ }
    }

    /// The levels listed for `scale` (none when the scale is unknown).
    pub open spec fn levels_at(&self, is_bid: bool, scale: u64) -> Seq<Level> {
        if self.level_lists(is_bid).contains_key(scale) { self.level_lists(is_bid)[scale]@ } else { Seq::empty() }
    }

    /// The list fields of one side are those of `other`.
    pub open spec fn same_list(&self, other: &L2, is_bid: bool) -> bool {
        if is_bid {
            &&& self.bid_price_head == other.bid_price_head
            &&& self.bid_price_tail == other.bid_price_tail
            &&& self.bid_price_nodes@ == other.bid_price_nodes@
        } else {
            &&& self.ask_price_head == other.ask_price_head
            &&& self.ask_price_tail == other.ask_price_tail
            &&& self.ask_price_nodes@ == other.ask_price_nodes@
        }
    }

    pub proof fn lemma_prices(&self)
        requires
            self.wf(),
        ensures
            self.bid_side_ok(self.bid_prices()),
            self.ask_side_ok(self.ask_prices()),
            self.head_of(true) == (if self.bid_prices().len() > 0 { Some(self.bid_prices()[0]) } else { None }),
            self.head_of(false) == (if self.ask_prices().len() > 0 { Some(self.ask_prices()[0]) } else { None }),
            forall|p: u64| self.bid_price_nodes@.contains_key(p) <==> self.bid_prices().contains(p),
            forall|p: u64| self.ask_price_nodes@.contains_key(p) <==> self.ask_prices().contains(p),
            sorted_side(self.bid_prices(), true),
            sorted_side(self.ask_prices(), false),
            self.bid_prices().no_duplicates(),
            self.ask_prices().no_duplicates(),
    {
    }

    proof fn lemma_bid_is(&self, s: Seq<u64>)
        requires
            self.bid_side_ok(s),
        ensures
            self.bid_prices() == s,
    {
        let c = self.bid_prices();
        lemma_side_unique(self.bid_price_head, self.bid_price_tail, self.bid_price_nodes@, c, s, true);
    }

    /// The price lists depend on the list fields only.
    pub proof fn lemma_same_lists(&self, other: &L2)
        requires
            self.wf(),
            self.same_list(other, true),
            self.same_list(other, false),
        ensures
            other.wf(),
            other.bid_prices() == self.bid_prices(),
            other.ask_prices() == self.ask_prices(),
    {
        self.lemma_prices();
        assert(other.bid_side_ok(self.bid_prices()));
        assert(other.ask_side_ok(self.ask_prices()));
        other.lemma_bid_is(self.bid_prices());
        other.lemma_ask_is(self.ask_prices());
    }

    /// The price list of one side depends on that side's list fields only.
    pub proof fn lemma_same_side(&self, other: &L2, side: bool)
        requires
            self.wf(),
            other.wf(),
            self.same_list(other, side),
        ensures
            other.prices(side) == self.prices(side),
    {
        self.lemma_prices();
        other.lemma_prices();
        if side {
            assert(other.bid_side_ok(self.bid_prices()));
            other.lemma_bid_is(self.bid_prices());
        } else {
            assert(other.ask_side_ok(self.ask_prices()));
            other.lemma_ask_is(self.ask_prices());
        }
    }

    proof fn lemma_ask_is(&self, s: Seq<u64>)
        requires
            self.ask_side_ok(s),
        ensures
            self.ask_prices() == s,
    {
        let c = self.ask_prices();
        lemma_side_unique(self.ask_price_head, self.ask_price_tail, self.ask_price_nodes@, c, s, false);
    }

    /// An empty L2.
    pub fn new() -> (l2: Self)
        ensures
            l2.wf(),
            l2.bid_prices() == Seq::<u64>::empty(),
            l2.ask_prices() == Seq::<u64>::empty(),
            l2.public_bid_level_map@ == Map::<u64, u64>::empty(),
            l2.public_ask_level_map@ == Map::<u64, u64>::empty(),
            l2.current_bid_level_map@ == Map::<u64, u64>::empty(),
            l2.current_ask_level_map@ == Map::<u64, u64>::empty(),
            l2.bid_level_list@ == Map::<u64, Vec<Level>>::empty(),
            l2.ask_level_list@ == Map::<u64, Vec<Level>>::empty(),
    {
        let l2 = Self {
            bid_price_head: None,
            bid_price_tail: None,
            ask_price_head: None,
            ask_price_tail: None,
            bid_price_nodes: BTreeMap::new(),
            ask_price_nodes: BTreeMap::new(),
            public_bid_level_map: BTreeMap::new(),
            public_ask_level_map: BTreeMap::new(),
            current_bid_level_map: BTreeMap::new(),
            current_ask_level_map: BTreeMap::new(),
            bid_level_list: BTreeMap::new(),
            ask_level_list: BTreeMap::new(),
        };
        proof {
            let e = Seq::<u64>::empty();
            assert(chain(links_of(l2.bid_price_nodes@), e));
            assert(l2.bid_side_ok(e));
            assert(l2.ask_side_ok(e));
            l2.lemma_bid_is(e);
            l2.lemma_ask_is(e);
        }
        l2
    }

    fn ensure_price(price: u64) -> (r: Result<(), L2Error>)
        ensures
            r == (if price == 0 { Err(L2Error::PriceIsZero) } else { Ok::<(), L2Error>(()) }),
    {
        if price == 0 {
            Err(L2Error::PriceIsZero)
        } else {
            Ok(())
        }
    }

    pub fn bid_head(&self) -> (r: Option<u64>)
        ensures
            r == self.bid_price_head,
    {
        self.bid_price_head
    }

    pub fn ask_head(&self) -> (r: Option<u64>)
        ensures
            r == self.ask_price_head,
    {
        self.ask_price_head
    }

    pub fn public_bid_level(&self, price: u64) -> (r: Option<u64>)
        ensures
            r == opt_get(self.public_bid_level_map@, price),
    {
        get_copied(&self.public_bid_level_map, price)
    }

    pub fn public_ask_level(&self, price: u64) -> (r: Option<u64>)
        ensures
            r == opt_get(self.public_ask_level_map@, price),
    {
        get_copied(&self.public_ask_level_map, price)
    }

    pub fn current_bid_level(&self, price: u64) -> (r: Option<u64>)
        ensures
            r == opt_get(self.current_bid_level_map@, price),
    {
        get_copied(&self.current_bid_level_map, price)
    }

    pub fn current_ask_level(&self, price: u64) -> (r: Option<u64>)
        ensures
            r == opt_get(self.current_ask_level_map@, price),
    {
        get_copied(&self.current_ask_level_map, price)
    }

    /// The bid levels listed for `scale`, which must be listed.
    pub fn bid_levels(&self, scale: u64) -> (r: &Vec<Level>)
        requires
            self.bid_level_list@.contains_key(scale),
        ensures
            r@ == self.bid_level_list@[scale]@,
    {
        self.bid_level_list.get(&scale).unwrap()
    }

    /// The ask levels listed for `scale`, which must be listed.
    pub fn ask_levels(&self, scale: u64) -> (r: &Vec<Level>)
        requires
            self.ask_level_list@.contains_key(scale),
        ensures
            r@ == self.ask_level_list@[scale]@,
    {
        self.ask_level_list.get(&scale).unwrap()
    }

    /// The first `n` bid levels listed for `scale`.
    pub fn scale_bid_levels(&self, scale: u64, n: u32) -> (r: Vec<Level>)
        ensures
            r@ == self.levels_at(true, scale).take(
                if (n as int) < self.levels_at(true, scale).len() { n as int } else { self.levels_at(true, scale).len() as int }),
    {
        match self.bid_level_list.get(&scale) {
            Some(levels) => take_levels(levels, n),
            None => Vec::new(),
        }
    }

    /// The first `n` ask levels listed for `scale`.
    pub fn scale_ask_levels(&self, scale: u64, n: u32) -> (r: Vec<Level>)
        ensures
            r@ == self.levels_at(false, scale).take(
                if (n as int) < self.levels_at(false, scale).len() { n as int } else { self.levels_at(false, scale).len() as int }),
    {
        match self.ask_level_list.get(&scale) {
            Some(levels) => take_levels(levels, n),
            None => Vec::new(),
        }
    }

    pub fn set_current_bid_level(&mut self, price: u64, level: u64) -> (r: Result<(), L2Error>)
        ensures
            r is Ok,
            *final(self) == (L2 { current_bid_level_map: final(self).current_bid_level_map, ..*old(self) }),
            final(self).current_bid_level_map@ == old(self).current_bid_level_map@.insert(price, level),
    {
        self.current_bid_level_map.insert(price, level);
        Ok(())
    }

    pub fn set_current_ask_level(&mut self, price: u64, level: u64) -> (r: Result<(), L2Error>)
        ensures
            r is Ok,
            *final(self) == (L2 { current_ask_level_map: final(self).current_ask_level_map, ..*old(self) }),
            final(self).current_ask_level_map@ == old(self).current_ask_level_map@.insert(price, level),
    {
        self.current_ask_level_map.insert(price, level);
        Ok(())
    }

    pub fn set_public_bid_level(&mut self, price: u64, level: u64) -> (r: Result<(), L2Error>)
        ensures
            r is Ok,
            *final(self) == (L2 { public_bid_level_map: final(self).public_bid_level_map, ..*old(self) }),
            final(self).public_bid_level_map@ == old(self).public_bid_level_map@.insert(price, level),
    {
        self.public_bid_level_map.insert(price, level);
        Ok(())
    }

    pub fn set_public_ask_level(&mut self, price: u64, level: u64) -> (r: Result<(), L2Error>)
        ensures
            r is Ok,
            *final(self) == (L2 { public_ask_level_map: final(self).public_ask_level_map, ..*old(self) }),
            final(self).public_ask_level_map@ == old(self).public_ask_level_map@.insert(price, level),
    {
        self.public_ask_level_map.insert(price, level);
        Ok(())
    }

    pub fn set_bid_levels(&mut self, scale: u64, levels: Vec<Level>) -> (r: Result<(), L2Error>)
        ensures
            r is Ok,
            *final(self) == (L2 { bid_level_list: final(self).bid_level_list, ..*old(self) }),
            final(self).bid_level_list@ == old(self).bid_level_list@.insert(scale, levels),
    {
        self.bid_level_list.insert(scale, levels);
        Ok(())
    }

    pub fn set_ask_levels(&mut self, scale: u64, levels: Vec<Level>) -> (r: Result<(), L2Error>)
        ensures
            r is Ok,
            *final(self) == (L2 { ask_level_list: final(self).ask_level_list, ..*old(self) }),
            final(self).ask_level_list@ == old(self).ask_level_list@.insert(scale, levels),
    {
        self.ask_level_list.insert(scale, levels);
        Ok(())
    }

    /// Removes the best price of one side and returns the new best price.
    pub fn clear_head(&mut self, is_bid: bool) -> (r: Result<Option<u64>, L2Error>)
        requires
            old(self).wf(),
            old(self).head_of(is_bid) is Some,
        ensures
            final(self).wf(),
            r == Ok::<Option<u64>, L2Error>(final(self).head_of(is_bid)),
            final(self).prices(is_bid) == old(self).prices(is_bid).drop_first(),
            final(self).same_list(old(self), !is_bid),
            final(self).public_bid_level_map@ == old(self).public_bid_level_map@,
            final(self).public_ask_level_map@ == old(self).public_ask_level_map@,
            final(self).current_bid_level_map@ == old(self).current_bid_level_map@,
            final(self).current_ask_level_map@ == old(self).current_ask_level_map@,
            final(self).bid_level_list@ == old(self).bid_level_list@,
            final(self).ask_level_list@ == old(self).ask_level_list@,
    {
        proof { self.lemma_prices(); }
        if is_bid {
            let old_head = self.bid_price_head.unwrap();
            let ghost s = self.bid_prices();
            let Ghost(t) = side_remove(&mut self.bid_price_nodes, &mut self.bid_price_head, &mut self.bid_price_tail, old_head, true, Ghost(s));
            proof {
                s.index_of_first_ensures(old_head);
                assert(s.index_of_first(old_head) == Some(0int));
                assert(t =~= s.drop_first());
                self.lemma_bid_is(t);
                assert(self.bid_side_ok(t));
                assert(self.ask_side_ok(old(self).ask_prices()));
            }
            Ok(self.bid_price_head)
        } else {
            let old_head = self.ask_price_head.unwrap();
            let ghost s = self.ask_prices();
            let Ghost(t) = side_remove(&mut self.ask_price_nodes, &mut self.ask_price_head, &mut self.ask_price_tail, old_head, false, Ghost(s));
            proof {
                s.index_of_first_ensures(old_head);
                assert(s.index_of_first(old_head) == Some(0int));
                assert(t =~= s.drop_first());
                self.lemma_ask_is(t);
                assert(self.ask_side_ok(t));
                assert(self.bid_side_ok(old(self).bid_prices()));
            }
            Ok(self.ask_price_head)
        }
    }

    /// Whether `price` is listed on the given side.
    pub fn price_exists(&self, is_bid: bool, price: u64) -> (r: bool)
        requires
            self.wf(),
        ensures
            r == self.prices(is_bid).contains(price),
    {
        proof { self.lemma_prices(); }
        if is_bid {
            self.bid_price_nodes.contains_key(&price)
        } else {
            self.ask_price_nodes.contains_key(&price)
        }
    }

    /// Lists `price` on the given side and sets both its levels to 0.
    pub fn insert_price(&mut self, is_bid: bool, price: u64) -> (r: Result<(), L2Error>)
        requires
            old(self).wf(),
        ensures
            final(self).wf(),
            price == 0 ==> r == Err::<(), L2Error>(L2Error::PriceIsZero) && *final(self) == *old(self),
            price != 0 ==> r is Ok && price_inserted(*old(self), *final(self), is_bid, price),
    {
        if is_bid {
            let _ = self._insert_bid_price(price)?;
            let ghost mid = *self;
            self.set_public_bid_level(price, 0)?;
            self.set_current_bid_level(price, 0)?;
            proof {
                mid.lemma_same_lists(self);
            }
            Ok(())
        } else {
            let _ = self._insert_ask_price(price)?;
            let ghost mid = *self;
            self.set_public_ask_level(price, 0)?;
            self.set_current_ask_level(price, 0)?;
            proof {
                mid.lemma_same_lists(self);
            }
            Ok(())
        }
    }

    /// Inserts a bid price into the bid list, kept in descending order.
    fn _insert_bid_price(&mut self, price: u64) -> (r: Result<(), L2Error>)
        requires
            old(self).wf(),
        ensures
            final(self).wf(),
            price == 0 ==> r == Err::<(), L2Error>(L2Error::PriceIsZero) && *final(self) == *old(self),
            price != 0 ==> r is Ok,
            price != 0 ==> forall|p: u64| final(self).bid_prices().contains(p) <==> (old(self).bid_prices().contains(p) || p == price),
            final(self).ask_prices() == old(self).ask_prices(),
            *final(self) == (L2 {
                bid_price_head: final(self).bid_price_head,
                bid_price_tail: final(self).bid_price_tail,
                bid_price_nodes: final(self).bid_price_nodes,
                ..*old(self)
            }),
    {
        Self::ensure_price(price)?;
        proof { self.lemma_prices(); }
        let ghost s = self.bid_prices();
        let Ghost(t) = side_insert(&mut self.bid_price_nodes, &mut self.bid_price_head, &mut self.bid_price_tail, price, true, Ghost(s));
        proof {
            self.lemma_bid_is(t);
            assert(self.bid_side_ok(t));
            assert(self.ask_side_ok(old(self).ask_prices()));
            self.lemma_ask_is(old(self).ask_prices());
        }
        Ok(())
    }

    /// Inserts an ask price into the ask list, kept in ascending order.
    fn _insert_ask_price(&mut self, price: u64) -> (r: Result<(), L2Error>)
        requires
            old(self).wf(),
        ensures
            final(self).wf(),
            price == 0 ==> r == Err::<(), L2Error>(L2Error::PriceIsZero) && *final(self) == *old(self),
            price != 0 ==> r is Ok,
            price != 0 ==> forall|p: u64| final(self).ask_prices().contains(p) <==> (old(self).ask_prices().contains(p) || p == price),
            final(self).bid_prices() == old(self).bid_prices(),
            *final(self) == (L2 {
                ask_price_head: final(self).ask_price_head,
                ask_price_tail: final(self).ask_price_tail,
                ask_price_nodes: final(self).ask_price_nodes,
                ..*old(self)
            }),
    {
        Self::ensure_price(price)?;
        proof { self.lemma_prices(); }
        let ghost s = self.ask_prices();
        let Ghost(t) = side_insert(&mut self.ask_price_nodes, &mut self.ask_price_head, &mut self.ask_price_tail, price, false, Ghost(s));
        proof {
            self.lemma_ask_is(t);
            assert(self.ask_side_ok(t));
            assert(self.bid_side_ok(old(self).bid_prices()));
            self.lemma_bid_is(old(self).bid_prices());
        }
        Ok(())
    }

    /// Removes `price` from the given side together with its levels.
    pub fn remove_price(&mut self, is_bid: bool, price: u64) -> (r: Result<(), L2Error>)
        requires
            old(self).wf(),
        ensures
            final(self).wf(),
            r is Ok,
            price_removed(*old(self), *final(self), is_bid, price),
    {
        if is_bid {
            self._remove_bid_price(price)?;
            let ghost mid = *self;
            self.public_bid_level_map.remove(&price);
            self.current_bid_level_map.remove(&price);
            proof {
                mid.lemma_same_lists(self);
                assert(self.public_bid_level_map@ =~= old(self).public_bid_level_map@.remove(price));
                assert(self.current_bid_level_map@ =~= old(self).current_bid_level_map@.remove(price));
            }
            Ok(())
        } else {
            self._remove_ask_price(price)?;
            let ghost mid = *self;
            self.public_ask_level_map.remove(&price);
            self.current_ask_level_map.remove(&price);
            proof {
                mid.lemma_same_lists(self);
                assert(self.public_ask_level_map@ =~= old(self).public_ask_level_map@.remove(price));
                assert(self.current_ask_level_map@ =~= old(self).current_ask_level_map@.remove(price));
            }
            Ok(())
        }
    }

    /// Removes a price from the bid list together with its bid levels.
    fn _remove_bid_price(&mut self, price: u64) -> (r: Result<(), L2Error>)
        requires
            old(self).wf(),
        ensures
            final(self).wf(),
            r is Ok,
            final(self).bid_prices() == old(self).bid_prices().remove_value(price),
            final(self).ask_prices() == old(self).ask_prices(),
            final(self).public_bid_level_map@ == old(self).public_bid_level_map@.remove(price),
            final(self).current_bid_level_map@ == old(self).current_bid_level_map@.remove(price),
            *final(self) == (L2 {
                bid_price_head: final(self).bid_price_head,
                bid_price_tail: final(self).bid_price_tail,
                bid_price_nodes: final(self).bid_price_nodes,
                public_bid_level_map: final(self).public_bid_level_map,
                current_bid_level_map: final(self).current_bid_level_map,
                ..*old(self)
            }),
    {
        proof { self.lemma_prices(); }
        let ghost s = self.bid_prices();
        self.public_bid_level_map.remove(&price);
        self.current_bid_level_map.remove(&price);
        let Ghost(t) = side_remove(&mut self.bid_price_nodes, &mut self.bid_price_head, &mut self.bid_price_tail, price, true, Ghost(s));
        proof {
            self.lemma_bid_is(t);
            assert(self.bid_side_ok(t));
            assert(self.ask_side_ok(old(self).ask_prices()));
            self.lemma_ask_is(old(self).ask_prices());
            assert(self.public_bid_level_map@ =~= old(self).public_bid_level_map@.remove(price));
            assert(self.current_bid_level_map@ =~= old(self).current_bid_level_map@.remove(price));
        }
        Ok(())
    }

    /// Removes a price from the ask list together with its ask levels.
    fn _remove_ask_price(&mut self, price: u64) -> (r: Result<(), L2Error>)
        requires
            old(self).wf(),
        ensures
            final(self).wf(),
            r is Ok,
            final(self).ask_prices() == old(self).ask_prices().remove_value(price),
            final(self).bid_prices() == old(self).bid_prices(),
            final(self).public_ask_level_map@ == old(self).public_ask_level_map@.remove(price),
            final(self).current_ask_level_map@ == old(self).current_ask_level_map@.remove(price),
            *final(self) == (L2 {
                ask_price_head: final(self).ask_price_head,
                ask_price_tail: final(self).ask_price_tail,
                ask_price_nodes: final(self).ask_price_nodes,
                public_ask_level_map: final(self).public_ask_level_map,
                current_ask_level_map: final(self).current_ask_level_map,
                ..*old(self)
            }),
    {
        proof { self.lemma_prices(); }
        let ghost s = self.ask_prices();
        self.public_ask_level_map.remove(&price);
        self.current_ask_level_map.remove(&price);
        let Ghost(t) = side_remove(&mut self.ask_price_nodes, &mut self.ask_price_head, &mut self.ask_price_tail, price, false, Ghost(s));
        proof {
            self.lemma_ask_is(t);
            assert(self.ask_side_ok(t));
            assert(self.bid_side_ok(old(self).bid_prices()));
            self.lemma_bid_is(old(self).bid_prices());
            assert(self.public_ask_level_map@ =~= old(self).public_ask_level_map@.remove(price));
            assert(self.current_ask_level_map@ =~= old(self).current_ask_level_map@.remove(price));
        }
        Ok(())
    }

    /// All bid prices in descending order.
    pub fn collect_bid_prices(&self) -> (r: Vec<u64>)
        requires
            self.wf(),
        ensures
            r@ == self.bid_prices(),
    {
        proof { self.lemma_prices(); }
        side_collect(&self.bid_price_nodes, self.bid_price_head, self.bid_price_tail, true, Ghost(self.bid_prices()))
    }

    /// All ask prices in ascending order.
    pub fn collect_ask_prices(&self) -> (r: Vec<u64>)
        requires
            self.wf(),
        ensures
            r@ == self.ask_prices(),
    {
        proof { self.lemma_prices(); }
        side_collect(&self.ask_price_nodes, self.ask_price_head, self.ask_price_tail, false, Ghost(self.ask_prices()))
    }

    /// Formats a number in 8 decimals, e.g. 100_000_000 -> "1.00000000".
    fn format_8_decimals(value: u64) -> (s: String)
        ensures
            s@ == fixed8(value),
    {
        let mut out: Vec<char> = Vec::new();
        push_dec(&mut out, value / 100_000_000);
        out.push('.');
        push_padded(&mut out, value % 100_000_000, 8);
        assert(out@ =~= fixed8(value));
        chars_to_string(&out)
    }

    /// The first `step` levels listed for `scale` on one side, each as
    /// `[price, public quantity, current quantity]`.
    pub fn get_snapshot_raw(&self, is_bid: bool, scale: u64, step: u32) -> (r: Result<Vec<Vec<u64>>, L2Error>)
        ensures
            r is Ok,
            ({
                let levels = self.levels_at(is_bid, scale);
                let v = r->Ok_0@;
                &&& v.len() == (if (step as int) < levels.len() { step as int } else { levels.len() as int })
                &&& forall|i: int| 0 <= i < v.len() ==> (#[trigger] v[i])@ == seq![levels[i].price, levels[i].pqty, levels[i].cqty]
            }),
    {
        let levels_map = if is_bid { &self.bid_level_list } else { &self.ask_level_list };
        let empty: Vec<Level> = Vec::new();
        let levels: &Vec<Level> = match levels_map.get(&scale) {
            Some(l) => l,
            None => &empty,
        };
        assert(levels@ == self.levels_at(is_bid, scale));
        let bound: usize = if (step as usize) < levels.len() { step as usize } else { levels.len() };
        let mut snapshot: Vec<Vec<u64>> = Vec::new();
        let mut i: usize = 0;
        while i < bound
            invariant
                bound <= levels.len(),
                bound == (if (step as int) < levels@.len() { step as int } else { levels@.len() as int }),
                i <= bound,
                snapshot@.len() == i,
                forall|j: int| 0 <= j < i ==> (#[trigger] snapshot@[j])@ == seq![levels@[j].price, levels@[j].pqty, levels@[j].cqty],
            decreases bound - i,
        {
            let level = levels[i];
            let mut row: Vec<u64> = Vec::new();
            row.push(level.price);
            row.push(level.pqty);
            row.push(level.cqty);
            assert(row@ =~= seq![level.price, level.pqty, level.cqty]);
            snapshot.push(row);
            i = i + 1;
        }
        Ok(snapshot)
    }

    /// The same snapshot as `get_snapshot_raw`, each number as text in 8 decimals.
    pub fn get_snapshot(&self, is_bid: bool, scale: u64, step: u32) -> (r: Result<Vec<Vec<String>>, L2Error>)
        ensures
            r is Ok,
            ({
                let levels = self.levels_at(is_bid, scale);
                let v = r->Ok_0@;
                &&& v.len() == (if (step as int) < levels.len() { step as int } else { levels.len() as int })
                &&& forall|i: int| 0 <= i < v.len() ==> {
                    &&& (#[trigger] v[i])@.len() == 3
                    &&& v[i]@[0]@ == fixed8(levels[i].price)
                    &&& v[i]@[1]@ == fixed8(levels[i].pqty)
                    &&& v[i]@[2]@ == fixed8(levels[i].cqty)
                }
            }),
    {
        let raw_snapshot = self.get_snapshot_raw(is_bid, scale, step)?;
        let ghost levels = self.levels_at(is_bid, scale);
        let mut snapshot: Vec<Vec<String>> = Vec::new();
        let mut i: usize = 0;
        while i < raw_snapshot.len()
            invariant
                raw_snapshot@.len() <= levels.len(),
                forall|j: int| 0 <= j < raw_snapshot@.len() ==> (#[trigger] raw_snapshot@[j])@ == seq![levels[j].price, levels[j].pqty, levels[j].cqty],
                i <= raw_snapshot@.len(),
                snapshot@.len() == i,
                forall|j: int| 0 <= j < i ==> {
                    &&& (#[trigger] snapshot@[j])@.len() == 3
                    &&& snapshot@[j]@[0]@ == fixed8(levels[j].price)
                    &&& snapshot@[j]@[1]@ == fixed8(levels[j].pqty)
                    &&& snapshot@[j]@[2]@ == fixed8(levels[j].cqty)
                },
            decreases raw_snapshot@.len() - i,
        {
            let level = &raw_snapshot[i];
            assert(level@ == seq![levels[i as int].price, levels[i as int].pqty, levels[i as int].cqty]);
            let mut row: Vec<String> = Vec::new();
            row.push(Self::format_8_decimals(level[0]));
            row.push(Self::format_8_decimals(level[1]));
            row.push(Self::format_8_decimals(level[2]));
            snapshot.push(row);
            i = i + 1;
        }
        Ok(snapshot)
    }
}

impl Default for L2 {
    /// Level-2 data without prices or levels.
    fn default() -> (l2: Self)
        ensures
            l2.wf(),
            l2.bid_prices() == Seq::<u64>::empty(),
            l2.ask_prices() == Seq::<u64>::empty(),
            l2.public_bid_level_map@ == Map::<u64, u64>::empty(),
            l2.public_ask_level_map@ == Map::<u64, u64>::empty(),
            l2.current_bid_level_map@ == Map::<u64, u64>::empty(),
            l2.current_ask_level_map@ == Map::<u64, u64>::empty(),
            l2.bid_level_list@ == Map::<u64, Vec<Level>>::empty(),
            l2.ask_level_list@ == Map::<u64, Vec<Level>>::empty(),
    {
        L2::new()
    }
}

impl Default for Level {
    /// A level at price 0 with no quantity.
    fn default() -> (l: Self)
        ensures
            l == (Level { price: 0, pqty: 0, cqty: 0 }),
    {
        Level { price: 0, pqty: 0, cqty: 0 }
    }
}

impl Default for PriceNode {
    /// A node without links.
    fn default() -> (n: Self)
        ensures
            n == (PriceNode { prev: None, next: None }),
    {
        PriceNode { prev: None, next: None }
    }
}

} // verus!
