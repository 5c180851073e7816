//! How good a node is to download from, and which nodes come first.
use vstd::prelude::*;

verus! {

/// Number by which a node is known. Nodes are numbered in the order of their ids, so that
/// a lower number stands for a lower id.
pub type NodeId = u64;

/// Quality metric for a node, lower is better.
///
/// Ordering is as follows:
/// - connections without errors will be preferred, lower errors wins
/// - connections with rate will be preferred, higher rate wins
/// - connections without rate will be sorted by latency, lower wins
#[derive(Debug, Clone, Copy, PartialEq, Eq)]
pub struct Quality {
    /// How many downloads failed.
    pub errors: u64,
    /// Whole bytes per second, where a rate is known.
    pub rate: Option<u64>,
    /// Initial latency, in nanoseconds.
    pub latency: u128,
}

/// A known rate is better than none, a higher one better than a lower one.
pub open spec fn rate_better(a: Option<u64>, b: Option<u64>) -> bool {
    match (a, b) {
        (Some(x), Some(y)) => x > y,
        (Some(_), None) => true,
        (None, _) => false,
    }
}

impl Quality {
    /// Fewer errors, or as many and a better rate, or that too and a lower latency.
    pub open spec fn better(self, other: Quality) -> bool {
        ||| self.errors < other.errors
        ||| self.errors == other.errors && rate_better(self.rate, other.rate)
        ||| self.errors == other.errors && self.rate == other.rate && self.latency < other.latency
    }

    pub fn new(errors: u64, rate: Option<u64>, latency: u128) -> (res: Quality)
        ensures
            res == (Quality { errors, rate, latency }),
    {
        Quality { errors, rate, latency }
    }

    pub fn rate(&self) -> (res: Option<u64>)
        ensures
            res == self.rate,
    {
        self.rate
    }
}

impl PartialOrd for Quality {
    fn partial_cmp(&self, other: &Quality) -> (res: Option<std::cmp::Ordering>) {
        if self.errors < other.errors {
            return Some(std::cmp::Ordering::Less);
        }
        if self.errors > other.errors {
            return Some(std::cmp::Ordering::Greater);
        }
        match (self.rate, other.rate) {
            (Some(x), Some(y)) => {
                if x > y {
                    return Some(std::cmp::Ordering::Less);
                }
                if x < y {
                    return Some(std::cmp::Ordering::Greater);
                }
            },
            (Some(_), None) => {
                return Some(std::cmp::Ordering::Less);
            },
            (None, Some(_)) => {
                return Some(std::cmp::Ordering::Greater);
            },
            (None, None) => {},
        }
        if self.latency < other.latency {
            Some(std::cmp::Ordering::Less)
        } else if self.latency > other.latency {
            Some(std::cmp::Ordering::Greater)
        } else {
            Some(std::cmp::Ordering::Equal)
        }
    }
}

impl vstd::std_specs::cmp::PartialOrdSpecImpl for Quality {
    open spec fn obeys_partial_cmp_spec() -> bool {
        true
    }

    open spec fn partial_cmp_spec(&self, other: &Quality) -> Option<std::cmp::Ordering> {
        if self.better(*other) {
            Some(std::cmp::Ordering::Less)
        } else if other.better(*self) {
            Some(std::cmp::Ordering::Greater)
        } else {
            Some(std::cmp::Ordering::Equal)
        }
    }
}

/// A node with its quality.
pub type Ranked = (Quality, NodeId);

/// The better quality comes first; among equals, the lower node.
pub open spec fn ranks_before(a: Ranked, b: Ranked) -> bool {
    ||| a.0.better(b.0)
    ||| a.0 == b.0 && a.1 < b.1
}

/// `a` comes ahead of `b`, in a list that starts with the best or with the worst.
pub open spec fn ahead(a: Ranked, b: Ranked, worst_first: bool) -> bool {
    if worst_first {
        ranks_before(b, a)
    } else {
        ranks_before(a, b)
    }
}

/// Each node of the list comes ahead of all that follow it.
pub open spec fn in_order(list: Seq<Ranked>, worst_first: bool) -> bool {
    forall|i: int, j: int| 0 <= i < j < list.len() ==> ahead(#[trigger] list[i], #[trigger] list[j], worst_first)
}

/// The list holds, in order, the first `n` of the nodes, or all where there are no more
/// than `n`.
pub open spec fn is_lead(list: Seq<Ranked>, nodes: Set<Ranked>, n: nat, worst_first: bool) -> bool {
    &&& nodes.finite()
    &&& in_order(list, worst_first)
    &&& forall|i: int| 0 <= i < list.len() ==> nodes.contains(#[trigger] list[i])
    &&& forall|i: int, node: Ranked|
        #![trigger list[i], nodes.contains(node)]
        0 <= i < list.len() && nodes.contains(node) && !list.contains(node) ==> ahead(list[i], node, worst_first)
    &&& list.len() == if nodes.len() < n { nodes.len() } else { n }
}

/// The first `n` of the nodes, in order.
pub open spec fn lead_of(nodes: Set<Ranked>, n: nat, worst_first: bool) -> Seq<Ranked> {
    choose|list: Seq<Ranked>| is_lead(list, nodes, n, worst_first)
}

/// The node comes ahead of all the others.
pub open spec fn is_first(node: Ranked, nodes: Set<Ranked>, worst_first: bool) -> bool {
    &&& nodes.contains(node)
    &&& forall|other: Ranked| #[trigger] nodes.contains(other) && other != node ==> ahead(node, other, worst_first)
}

/// The node that comes ahead of all the others, where there is a node.
pub open spec fn first_of(nodes: Set<Ranked>, worst_first: bool) -> Ranked {
    choose|node: Ranked| is_first(node, nodes, worst_first)
}

/// Of two different qualities exactly one is better, and none is better than itself.
pub proof fn law_quality_total(a: Quality, b: Quality)
    ensures
        !a.better(a),
        a != b ==> (a.better(b) <==> !b.better(a)),
{
}

/// Better than a better one is better.
pub proof fn law_quality_transitive(a: Quality, b: Quality, c: Quality)
    requires
        a.better(b),
        b.better(c),
    ensures
        a.better(c),
{
}

/// Lower errors win, whatever the rates and latencies; with as many errors, a rate wins
/// over none and a higher rate over a lower one, whatever the latencies; with nothing
/// else to tell them apart, the lower latency wins.
pub proof fn law_quality_order(a: Quality, b: Quality)
    ensures
        a.errors < b.errors ==> a.better(b),
        a.errors == b.errors && a.rate is Some && b.rate is None ==> a.better(b),
        a.errors == b.errors && a.rate is Some && b.rate is Some && a.rate->0 > b.rate->0 ==> a.better(b),
        a.errors == b.errors && a.rate == b.rate && a.latency < b.latency ==> a.better(b),
{
}

/// The first nodes in order are settled by the nodes and by how many are asked for.
pub proof fn law_lead_unique(a: Seq<Ranked>, b: Seq<Ranked>, nodes: Set<Ranked>, n: nat, worst_first: bool)
    requires
        is_lead(a, nodes, n, worst_first),
        is_lead(b, nodes, n, worst_first),
    ensures
        a == b,
{
    assert forall|i: int| 0 <= i < a.len() implies a[i] == b[i] by {
        lemma_lead_agrees(a, b, nodes, n, worst_first, i);
    }
    assert(a =~= b);
}

/// The first node of a list of the leading nodes is the first of all; there is one unless
/// there are no nodes.
pub proof fn law_lead_first(list: Seq<Ranked>, nodes: Set<Ranked>, n: nat, worst_first: bool)
    requires
        is_lead(list, nodes, n, worst_first),
        n > 0,
    ensures
        list.len() == 0 <==> nodes == Set::<Ranked>::empty(),
        list.len() > 0 ==> is_first(list[0], nodes, worst_first) && list[0] == first_of(nodes, worst_first),
{
    if list.len() == 0 {
        nodes.lemma_len0_is_empty();
    } else {
        assert forall|other: Ranked| #[trigger] nodes.contains(other) && other != list[0] implies ahead(
            list[0],
            other,
            worst_first,
        ) by {
            if list.contains(other) {
                let k = list.index_of(other);
                assert(list[k] == other);
            }
        }
        assert(is_first(list[0], nodes, worst_first));
        law_first_unique(list[0], first_of(nodes, worst_first), nodes, worst_first);
    }
}

/// Fewer leading nodes are the beginning of more: a list of the first `n` is that of the first
/// `m` cut off after `n`.
pub proof fn law_lead_prefix(
    part: Seq<Ranked>,
    whole: Seq<Ranked>,
    nodes: Set<Ranked>,
    n: nat,
    m: nat,
    worst_first: bool,
)
    requires
        is_lead(part, nodes, n, worst_first),
        is_lead(whole, nodes, m, worst_first),
        n <= m,
    ensures
        part == whole.take(if n < whole.len() { n as int } else { whole.len() as int }),
{
    let cut = whole.take(if n < whole.len() { n as int } else { whole.len() as int });
    assert forall|i: int| 0 <= i < cut.len() implies nodes.contains(#[trigger] cut[i]) by {
        assert(nodes.contains(whole[i]));
    }
    assert forall|i: int, node: Ranked|
        #![trigger cut[i], nodes.contains(node)]
        0 <= i < cut.len() && nodes.contains(node) && !cut.contains(node) implies ahead(
        cut[i],
        node,
        worst_first,
    ) by {
        assert(cut[i] == whole[i]);
        if whole.contains(node) {
            let k = whole.index_of(node);
            assert(whole[k] == node);
            if k < cut.len() {
                assert(cut[k] == node);
            }
        }
    }
    law_lead_unique(part, cut, nodes, n, worst_first);
}

/// A list of at least as many leading nodes as there are holds each node once.
pub proof fn law_lead_all(list: Seq<Ranked>, nodes: Set<Ranked>, n: nat, worst_first: bool)
    requires
        is_lead(list, nodes, n, worst_first),
        nodes.len() <= n,
    ensures
        list.no_duplicates(),
        list.to_set() == nodes,
{
    assert forall|i: int, j: int| 0 <= i < j < list.len() implies list[i] != list[j] by {
        assert(ahead(list[i], list[j], worst_first));
    }
    list.unique_seq_to_set();
    assert forall|node: Ranked| list.to_set().contains(node) implies nodes.contains(node) by {
        assert(nodes.contains(list[list.index_of(node)]));
    }
    vstd::set_lib::lemma_subset_equality(list.to_set(), nodes);
}

/// There is one first node at most.
pub proof fn law_first_unique(a: Ranked, b: Ranked, nodes: Set<Ranked>, worst_first: bool)
    requires
        is_first(a, nodes, worst_first),
        is_first(b, nodes, worst_first),
    ensures
        a == b,
{
    assert(nodes.contains(a) && nodes.contains(b));
}

proof fn lemma_lead_agrees(a: Seq<Ranked>, b: Seq<Ranked>, nodes: Set<Ranked>, n: nat, worst_first: bool, i: int)
    requires
        is_lead(a, nodes, n, worst_first),
        is_lead(b, nodes, n, worst_first),
        0 <= i < a.len(),
    ensures
        a[i] == b[i],
    decreases i,
{
    assert forall|k: int| 0 <= k < i implies a[k] == b[k] by {
        lemma_lead_agrees(a, b, nodes, n, worst_first, k);
    }
    if a[i] != b[i] {
        if b.contains(a[i]) {
            let k = b.index_of(a[i]);
            assert(b[k] == a[i]);
            assert(k > i) by {
                if k < i {
                    assert(ahead(a[k], a[i], worst_first));
                }
            }
            assert(ahead(b[i], a[i], worst_first));
        } else {
            assert(nodes.contains(a[i]));
            assert(ahead(b[i], a[i], worst_first));
        }
        if a.contains(b[i]) {
            let k = a.index_of(b[i]);
            assert(a[k] == b[i]);
            assert(k > i) by {
                if k < i {
                    assert(ahead(b[k], b[i], worst_first));
                }
            }
            assert(ahead(a[i], b[i], worst_first));
        } else {
            assert(nodes.contains(b[i]));
            assert(ahead(a[i], b[i], worst_first));
        }
    }
}

fn is_ahead(a: &Ranked, b: &Ranked, worst_first: bool) -> (res: bool)
    ensures
        res == ahead(*a, *b, worst_first),
{
    if worst_first {
        b.0 < a.0 || (!(a.0 < b.0) && b.1 < a.1)
    } else {
        a.0 < b.0 || (!(b.0 < a.0) && a.1 < b.1)
    }
}

/// Puts a node where it belongs in a list that is in order.
fn insert_in_order(list: &mut Vec<Ranked>, node: Ranked, worst_first: bool)
    requires
        in_order(old(list)@, worst_first),
        !old(list)@.contains(node),
    ensures
        in_order(final(list)@, worst_first),
        final(list)@.to_set() == old(list)@.to_set().insert(node),
        final(list)@.len() == old(list)@.len() + 1,
{
    let mut at: usize = 0;
    while at < list.len() && is_ahead(&list[at], &node, worst_first)
        invariant
            *list == *old(list),
            at <= list@.len(),
            forall|i: int| 0 <= i < at ==> ahead(#[trigger] list@[i], node, worst_first),
        decreases list@.len() - at,
    {
        at = at + 1;
    }
    list.insert(at, node);
    proof {
        let before = old(list)@;
        let after = list@;
        assert forall|i: int| at <= i < before.len() implies ahead(node, #[trigger] before[i], worst_first) by {
            assert(before[at as int] != node && before[i] != node);
            assert(at < i ==> ahead(before[at as int], before[i], worst_first));
        }
        assert forall|i: int, j: int| 0 <= i < j < after.len() implies ahead(
            #[trigger] after[i],
            #[trigger] after[j],
            worst_first,
        ) by {
            if i < at {
                assert(after[i] == before[i]);
                assert(j < at ==> after[j] == before[j]);
                assert(j > at ==> after[j] == before[j - 1]);
            } else {
                assert(after[j] == before[j - 1]);
                assert(i > at ==> after[i] == before[i - 1]);
            }
        }
        assert forall|x: Ranked| after.to_set().contains(x) == before.to_set().insert(node).contains(x) by {
            if before.contains(x) {
                let k = before.index_of(x);
                assert(after[if k < at { k } else { k + 1 }] == x);
            }
            if x == node {
                assert(after[at as int] == x);
            }
            if after.contains(x) {
                let k = after.index_of(x);
                if k < at {
                    assert(before[k] == x);
                } else if k > at {
                    assert(before[k - 1] == x);
                }
            }
        }
        assert(after.to_set() =~= before.to_set().insert(node));
    }
}

/// The first `n` of the nodes, in order.
pub(crate) fn leading(nodes: &Vec<Ranked>, n: usize, worst_first: bool) -> (res: Vec<Ranked>)
    requires
        nodes@.no_duplicates(),
    ensures
        is_lead(res@, nodes@.to_set(), n as nat, worst_first),
{
    let mut list: Vec<Ranked> = Vec::new();
    assert(nodes@.take(0).to_set() =~= Set::<Ranked>::empty());
    assert(list@.to_set() =~= Set::<Ranked>::empty());
    for i in 0..nodes.len()
        invariant
            nodes@.no_duplicates(),
            in_order(list@, worst_first),
            list@.to_set() == nodes@.take(i as int).to_set(),
            list@.len() == i,
    {
        let node = nodes[i];
        proof {
            let before = nodes@.take(i as int);
            let after = nodes@.take(i + 1);
            assert(!before.contains(node));
            assert(!list@.to_set().contains(node));
            assert(after =~= before.push(node));
            assert forall|x: Ranked| after.to_set().contains(x) == before.to_set().insert(node).contains(x) by {
                if before.contains(x) {
                    assert(after[before.index_of(x)] == x);
                }
                if x == node {
                    assert(after[i as int] == x);
                }
            }
            assert(after.to_set() =~= before.to_set().insert(node));
        }
        insert_in_order(&mut list, node, worst_first);
    }
    assert(nodes@.take(nodes@.len() as int) =~= nodes@);
    let ghost whole = list@;
    list.truncate(n);
    proof {
        nodes@.unique_seq_to_set();
        assert forall|i: int| 0 <= i < list@.len() implies nodes@.to_set().contains(#[trigger] list@[i]) by {
            assert(whole.to_set().contains(whole[i]));
        }
        assert forall|i: int, node: Ranked|
            #![trigger list@[i], nodes@.to_set().contains(node)]
            0 <= i < list@.len() && nodes@.to_set().contains(node) && !list@.contains(node) implies ahead(
            list@[i],
            node,
            worst_first,
        ) by {
            assert(whole.contains(node));
            let k = whole.index_of(node);
            assert(whole[k] == node);
            assert(k >= list@.len()) by {
                if k < list@.len() {
                    assert(list@[k] == node);
                }
            }
            assert(list@[i] == whole[i]);
        }
    }
    list
}

} // verus!
