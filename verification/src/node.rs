//! Peers and the bounded set of peers closest to a pivot.

use vstd::prelude::*;
use vstd::string::*;

use crate::long_id::{self, LongId};
use crate::text::{self, hex_encode, push_decimal};
use crate::utils::{id_eq, id_of, random_bytes, ID_LEN};

verus! {

/// A Kademlia peer.
#[derive(Debug, PartialEq, Eq, Hash)]
pub struct Node {
    /// Raw 20-byte node id.
    pub id: [u8; ID_LEN],
    pub ip: Option<String>,
    pub port: Option<u16>,
    /// The id as an unsigned integer, for the XOR metric.
    pub long_id: LongId,
}

/// The text of an optional string.
pub open spec fn optional_text(text: Option<String>) -> Option<Seq<char>> {
    match text {
        Some(text) => Some(text@),
        None => None,
    }
}

/// The node with the given id and address.
pub open spec fn node_of(id: [u8; ID_LEN], ip: Option<String>, port: Option<u16>) -> Node {
    Node { id, ip, port, long_id: long_id::long_of(long_id::be_value(id@)) }
}

/// XOR distance between two nodes.
#[verifier::opaque]
pub open spec fn distance(a: Node, b: Node) -> nat {
    long_id::xor_words(a.long_id, b.long_id).value()
}

/// Both nodes have the same IP and port.
pub open spec fn same_home(a: Node, b: Node) -> bool {
    optional_text(a.ip) == optional_text(b.ip) && a.port == b.port
}

/// An address as it is written, `ip:port`.
pub open spec fn address_text(ip: Seq<char>, port: u16) -> Seq<char> {
    ip + seq![':'] + text::decimal_text(port as nat)
}

/// A node as it is written: its address, or the start of its id.
pub open spec fn node_text(node: Node) -> Seq<char> {
    match (node.ip, node.port) {
        (Some(ip), Some(port)) => address_text(ip@, port),
        _ => seq!['<', 'k', 'e', 'y', ':'] + text::hex_text(node.id@.take(8)) + seq!['>'],
    }
}

/// An address is the IP, a colon, and the port in decimal.
pub proof fn law_address_text_reads_back(ip: Seq<char>, port: u16)
    ensures
        ({
            let text = address_text(ip, port);
            &&& text.len() >= ip.len() + 2
            &&& text.take(ip.len() as int) == ip
            &&& text[ip.len() as int] == ':'
            &&& text::decimal_value(text.skip(ip.len() as int + 1)) == port
        }),
{
    let text = address_text(ip, port);
    text::law_decimal_text_reads_back(port as nat);
    assert(text.take(ip.len() as int) =~= ip);
    assert(text.skip(ip.len() as int + 1) =~= text::decimal_text(port as nat));
}

/// Writes an address as `ip:port`.
pub fn address_to_string(ip: &str, port: u16) -> (text: String)
    ensures
        text@ == address_text(ip@, port),
{
    proof {
        reveal_strlit(":");
    }
    let mut text = ip.to_owned();
    text.append(":");
    push_decimal(&mut text, port as u64);
    assert(text@ =~= address_text(ip@, port));
    text
}

fn optional_text_eq(a: &Option<String>, b: &Option<String>) -> (equal: bool)
    ensures
        equal <==> optional_text(*a) == optional_text(*b),
{
    match (a, b) {
        (Some(a), Some(b)) => *a == *b,
        (None, None) => true,
        _ => false,
    }
}

impl Clone for Node {
    fn clone(&self) -> (copy: Self)
        ensures
            copy == *self,
    {
        Node {
            id: self.id,
            ip: match &self.ip {
                Some(ip) => Some(ip.clone()),
                None => None,
            },
            port: self.port,
            long_id: self.long_id,
        }
    }
}

impl Node {
    /// `long_id` is the number that the id spells.
    pub open spec fn wf(&self) -> bool {
        self.long_id.value() == long_id::be_value(self.id@)
    }

    /// Create a node with a known address.
    pub fn new(id: [u8; ID_LEN], ip: Option<String>, port: Option<u16>) -> (node: Self)
        ensures
            node.wf(),
            node == node_of(id, ip, port),
    {
        let long_id = Self::id_to_long(&id);
        proof {
            long_id::lemma_long_of(long_id);
        }
        Node { id, ip, port, long_id }
    }

    /// Create a node without an address (used as a lookup key).
    pub fn from_id(id: [u8; ID_LEN]) -> (node: Self)
        ensures
            node.wf(),
            node == node_of(id, None, None),
    {
        Self::new(id, None, None)
    }

    /// Create a node with a random id.
    pub fn random() -> (node: Self)
        ensures
            node.wf(),
            node.ip is None,
            node.port is None,
    {
        let bytes = random_bytes(ID_LEN);
        Self::from_id(id_of(bytes.as_slice()))
    }

    /// Interpret an id as a big-endian 160-bit integer.
    fn id_to_long(id: &[u8; ID_LEN]) -> (long_id: LongId)
        ensures
            long_id.value() == long_id::be_value(id@),
    {
        LongId::from_big_endian(id.as_slice())
    }

    /// XOR distance to another node.
    pub fn distance_to(&self, other: &Node) -> (d: LongId)
        ensures
            d == long_id::xor_words(self.long_id, other.long_id),
            d.value() == distance(*self, *other),
    {
        proof {
            reveal(distance);
        }
        self.long_id.xor(other.long_id)
    }

    /// Returns `true` if both nodes share the same IP and port.
    pub fn same_home_as(&self, other: &Node) -> (same: bool)
        ensures
            same <==> same_home(*self, *other),
    {
        optional_text_eq(&self.ip, &other.ip) && self.port == other.port
    }

    /// Return the node's address as `(ip, port)` if both are known.
    pub fn address(&self) -> (address: Option<(String, u16)>)
        ensures
            match address {
                Some((ip, port)) => self.ip == Some(ip) && self.port == Some(port),
                None => self.ip is None || self.port is None,
            },
    {
        match (&self.ip, self.port) {
            (Some(ip), Some(port)) => Some((ip.clone(), port)),
            _ => None,
        }
    }

    /// The node as `ip:port`, or `<key:..>` with the first eight bytes of the id
    /// for a node without an address.
    pub fn to_string(&self) -> (text: String)
        ensures
            text@ == node_text(*self),
    {
        match (&self.ip, self.port) {
            (Some(ip), Some(port)) => address_to_string(ip.as_str(), port),
            _ => {
                proof {
                    reveal_strlit("<key:");
                    reveal_strlit(">");
                }
                let start = hex_encode(vstd::slice::slice_subrange(self.id.as_slice(), 0, 8));
                let mut text = "<key:".to_owned();
                text.append(start.as_str());
                text.append(">");
                assert(self.id@.subrange(0, 8) =~= self.id@.take(8));
                assert(text@ =~= node_text(*self));
                text
            },
        }
    }
}

/// A node keeps the id and the address it was made with, and is valid.
pub proof fn law_node_keeps_id_and_address(id: [u8; ID_LEN], ip: Option<String>, port: Option<u16>)
    ensures
        node_of(id, ip, port).id == id,
        node_of(id, ip, port).ip == ip,
        node_of(id, ip, port).port == port,
        node_of(id, ip, port).wf(),
{
    long_id::lemma_be_value_bound(id@);
    long_id::lemma_pow256_20();
    long_id::lemma_long_of_value(long_id::be_value(id@));
}

/// Two nodes share a home exactly if their ports are equal, present or not, and so are
/// their IPs, as texts.
pub proof fn law_home_is_ip_and_port(a: Node, b: Node)
    ensures
        same_home(a, b) <==> a.port == b.port && match (a.ip, b.ip) {
            (Some(x), Some(y)) => x@ == y@,
            (None, None) => true,
            _ => false,
        },
        same_home(a, a),
        same_home(a, b) == same_home(b, a),
{
}

/// Distances are symmetric.
pub proof fn law_distance_symmetric(a: Node, b: Node)
    ensures
        distance(a, b) == distance(b, a),
{
    reveal(distance);
    long_id::lemma_xor_symmetric(a.long_id, b.long_id);
}

/// A node is at distance zero exactly from nodes with its own id.
pub proof fn law_distance_zero(a: Node, b: Node)
    requires
        a.wf(),
        b.wf(),
    ensures
        distance(a, b) == 0 <==> a.id@ == b.id@,
{
    reveal(distance);
    long_id::lemma_xor_zero(a.long_id, b.long_id);
    if a.long_id == b.long_id {
        long_id::lemma_be_value_injective(a.id@, b.id@);
    }
    if a.id@ == b.id@ {
        long_id::lemma_value_injective(a.long_id, b.long_id);
    }
}

/// Going through a third node is never shorter.
pub proof fn law_distance_triangle(a: Node, via: Node, b: Node)
    ensures
        distance(a, b) <= distance(a, via) + distance(via, b),
{
    reveal(distance);
    long_id::lemma_xor_triangle(a.long_id, via.long_id, b.long_id);
}

/// Distinct ids never tie: seen from a pivot, two nodes are equally far exactly
/// when their ids are equal.
pub proof fn law_distances_never_tie(pivot: Node, a: Node, b: Node)
    requires
        a.wf(),
        b.wf(),
    ensures
        distance(pivot, a) == distance(pivot, b) <==> a.id@ == b.id@,
{
    reveal(distance);
    if distance(pivot, a) == distance(pivot, b) {
        long_id::lemma_value_injective(
            long_id::xor_words(pivot.long_id, a.long_id),
            long_id::xor_words(pivot.long_id, b.long_id),
        );
        long_id::lemma_xor_injective(pivot.long_id, a.long_id, b.long_id);
        long_id::lemma_be_value_injective(a.id@, b.id@);
    }
    if a.id@ == b.id@ {
        long_id::lemma_value_injective(a.long_id, b.long_id);
    }
}

/// The metric follows the full 160 bits: the distance is the number spelled by
/// the ids XORed byte by byte.
pub proof fn law_distance_is_xor_of_ids(a: Node, b: Node)
    requires
        a.wf(),
        b.wf(),
    ensures
        distance(a, b) == long_id::be_value(long_id::xor_bytes(a.id@, b.id@)),
{
    reveal(distance);
    long_id::lemma_xor_of_20(a.id@, b.id@, a.long_id, b.long_id);
}

/// Distinct ids keep distinct numbers.
pub proof fn law_long_id_injective(a: Node, b: Node)
    requires
        a.wf(),
        b.wf(),
    ensures
        a.long_id == b.long_id <==> a.id@ == b.id@,
{
    if a.long_id == b.long_id {
        long_id::lemma_be_value_injective(a.id@, b.id@);
    }
    if a.id@ == b.id@ {
        long_id::lemma_value_injective(a.long_id, b.long_id);
    }
}

/// One of `nodes` has the id `id`.
pub open spec fn id_among(nodes: Seq<Node>, id: Seq<u8>) -> bool {
    exists|i: int| 0 <= i < nodes.len() && (#[trigger] nodes[i]).id@ == id
}

/// `members`, followed by those of `nodes` whose id was not there yet, in order.
pub open spec fn add_new(members: Seq<Node>, nodes: Seq<Node>) -> Seq<Node>
    decreases nodes.len(),
{
    if nodes.len() == 0 {
        members
    } else {
        let grown = add_new(members, nodes.drop_last());
        if id_among(grown, nodes.last().id@) {
            grown
        } else {
            grown.push(nodes.last())
        }
    }
}

/// `nodes` lie farther and farther from `pivot`.
pub open spec fn ascending(pivot: Node, nodes: Seq<Node>) -> bool {
    forall|i: int, j: int|
        0 <= i < j < nodes.len() ==> distance(pivot, #[trigger] nodes[i]) < distance(
            pivot,
            #[trigger] nodes[j],
        )
}

/// `nearest` are the `k` members of `candidates` closest to `pivot` (all of them
/// if there are fewer), closest first.
pub open spec fn are_closest(
    pivot: Node,
    candidates: Seq<Node>,
    k: nat,
    nearest: Seq<Node>,
) -> bool {
    &&& ascending(pivot, nearest)
    &&& nearest.len() == if k < candidates.len() {
        k
    } else {
        candidates.len()
    }
    &&& forall|i: int| 0 <= i < nearest.len() ==> candidates.contains(#[trigger] nearest[i])
    &&& forall|c: Node, i: int|
        candidates.contains(c) && !nearest.contains(c) && 0 <= i < nearest.len() ==> distance(
            pivot,
            #[trigger] nearest[i],
        ) < #[trigger] distance(pivot, c)
}

/// Every node is valid.
pub open spec fn all_wf(nodes: Seq<Node>) -> bool {
    forall|i: int| 0 <= i < nodes.len() ==> (#[trigger] nodes[i]).wf()
}

/// No two nodes have the same id.
pub open spec fn distinct_ids(nodes: Seq<Node>) -> bool {
    forall|i: int, j: int|
        0 <= i < nodes.len() && 0 <= j < nodes.len() && i != j ==> (#[trigger] nodes[i]).id@ != (
        #[trigger] nodes[j]).id@
}

/// Nodes that lie farther and farther away have distinct ids.
pub proof fn lemma_ascending_distinct(pivot: Node, nodes: Seq<Node>)
    requires
        ascending(pivot, nodes),
        all_wf(nodes),
    ensures
        distinct_ids(nodes),
{
    assert forall|i: int, j: int|
        0 <= i < nodes.len() && 0 <= j < nodes.len() && i != j implies (#[trigger] nodes[i]).id@
        != (#[trigger] nodes[j]).id@ by {
        law_distances_never_tie(pivot, nodes[i], nodes[j]);
        if i < j {
            assert(distance(pivot, nodes[i]) < distance(pivot, nodes[j]));
        } else {
            assert(distance(pivot, nodes[j]) < distance(pivot, nodes[i]));
        }
    }
}

/// Adding nodes keeps them valid and their ids distinct, and keeps the members
/// in front.
pub proof fn lemma_add_new(members: Seq<Node>, nodes: Seq<Node>)
    requires
        distinct_ids(members),
        all_wf(members),
        all_wf(nodes),
    ensures
        distinct_ids(add_new(members, nodes)),
        all_wf(add_new(members, nodes)),
        add_new(members, nodes).len() >= members.len(),
        add_new(members, nodes).take(members.len() as int) == members,
    decreases nodes.len(),
{
    if nodes.len() == 0 {
        assert(members.take(members.len() as int) =~= members);
    } else {
        let init = nodes.drop_last();
        assert(all_wf(init)) by {
            assert forall|i: int| 0 <= i < init.len() implies (#[trigger] init[i]).wf() by {
                assert(nodes[i].wf());
            }
        }
        lemma_add_new(members, init);
        let grown = add_new(members, init);
        let last = nodes.last();
        assert(nodes[nodes.len() - 1].wf());
        if !id_among(grown, last.id@) {
            let all = grown.push(last);
            assert forall|i: int, j: int|
                0 <= i < all.len() && 0 <= j < all.len() && i != j implies (#[trigger] all[i]).id@
                != (#[trigger] all[j]).id@ by {
                if i < grown.len() && j < grown.len() {
                    assert(grown[i].id@ != grown[j].id@);
                } else if i < grown.len() {
                    assert(grown[i].id@ != last.id@);
                } else {
                    assert(grown[j].id@ != last.id@);
                }
            }
            assert(all.take(members.len() as int) =~= grown.take(members.len() as int));
        }
    }
}

/// The closest nodes are closest: they are taken from the candidates, in ascending order of
/// distance, no candidate that is left out is as close as any of them, and one is left out
/// only when there are `k` of them already.
pub proof fn law_closest_leave_out_only_farther_ones(
    pivot: Node,
    candidates: Seq<Node>,
    k: nat,
    nearest: Seq<Node>,
    c: Node,
    i: int,
    j: int,
)
    requires
        are_closest(pivot, candidates, k, nearest),
        0 <= i < nearest.len(),
        candidates.contains(c),
    ensures
        candidates.contains(nearest[i]),
        nearest.len() <= k,
        nearest.len() < k ==> nearest.len() == candidates.len(),
        i < j < nearest.len() ==> distance(pivot, nearest[i]) < distance(pivot, nearest[j]),
        nearest.contains(c) || distance(pivot, nearest[i]) < distance(pivot, c),
{
}

/// The choice of the closest nodes leaves no freedom: two selections from the
/// same candidates are the same.
pub proof fn law_closest_unique(
    pivot: Node,
    candidates: Seq<Node>,
    k: nat,
    a: Seq<Node>,
    b: Seq<Node>,
)
    requires
        all_wf(candidates),
        distinct_ids(candidates),
        are_closest(pivot, candidates, k, a),
        are_closest(pivot, candidates, k, b),
    ensures
        a == b,
{
    lemma_closest_same_members(pivot, candidates, k, a, b);
    lemma_closest_same_members(pivot, candidates, k, b, a);
    assert forall|n: int| 0 <= n <= a.len() implies #[trigger] a.take(n) == b.take(n) by {
        lemma_closest_prefix(pivot, a, b, n);
    }
    assert(a.take(a.len() as int) =~= a);
    assert(b.take(b.len() as int) =~= b);
}

proof fn lemma_closest_same_members(
    pivot: Node,
    candidates: Seq<Node>,
    k: nat,
    a: Seq<Node>,
    b: Seq<Node>,
)
    requires
        all_wf(candidates),
        distinct_ids(candidates),
        are_closest(pivot, candidates, k, a),
        are_closest(pivot, candidates, k, b),
    ensures
        forall|i: int| 0 <= i < a.len() ==> b.contains(#[trigger] a[i]),
{
    assert forall|i: int| 0 <= i < a.len() implies b.contains(#[trigger] a[i]) by {
        if !b.contains(a[i]) {
            // Everything in `b` is closer than `a[i]`, hence in `a`, where it
            // leaves no room for `a[i]`.
            assert(candidates.contains(a[i]));
            assert forall|j: int| 0 <= j < b.len() implies a.contains(#[trigger] b[j]) by {
                assert(distance(pivot, b[j]) < distance(pivot, a[i]));
                assert(candidates.contains(b[j]));
                if !a.contains(b[j]) {
                    assert(distance(pivot, a[i]) < distance(pivot, b[j]));
                }
            }
            lemma_ascending_no_duplicates(pivot, a);
            lemma_ascending_no_duplicates(pivot, b);
            a.unique_seq_to_set();
            b.unique_seq_to_set();
            assert(b.to_set().subset_of(a.to_set().remove(a[i]))) by {
                assert forall|n: Node| b.to_set().contains(n) implies a.to_set().remove(
                    a[i],
                ).contains(n) by {
                    let j = choose|j: int| 0 <= j < b.len() && b[j] == n;
                    assert(a.contains(b[j]));
                }
            }
            assert(a.to_set().contains(a[i]));
            vstd::set_lib::lemma_len_subset(b.to_set(), a.to_set().remove(a[i]));
        }
    }
}

proof fn lemma_ascending_no_duplicates(pivot: Node, nodes: Seq<Node>)
    requires
        ascending(pivot, nodes),
    ensures
        nodes.no_duplicates(),
{
    assert forall|i: int, j: int|
        0 <= i < nodes.len() && 0 <= j < nodes.len() && i != j implies nodes[i] != nodes[j] by {
        if i < j {
            assert(distance(pivot, nodes[i]) < distance(pivot, nodes[j]));
        } else {
            assert(distance(pivot, nodes[j]) < distance(pivot, nodes[i]));
        }
    }
}

proof fn lemma_closest_prefix(pivot: Node, a: Seq<Node>, b: Seq<Node>, n: int)
    requires
        ascending(pivot, a),
        ascending(pivot, b),
        a.len() == b.len(),
        forall|i: int| 0 <= i < a.len() ==> b.contains(#[trigger] a[i]),
        forall|i: int| 0 <= i < b.len() ==> a.contains(#[trigger] b[i]),
        0 <= n <= a.len(),
    ensures
        a.take(n) == b.take(n),
    decreases n,
{
    if n > 0 {
        lemma_closest_prefix(pivot, a, b, n - 1);
        let i = n - 1;
        assert(b.contains(a[i]));
        assert(a.contains(b[i]));
        let j = choose|j: int| 0 <= j < b.len() && b[j] == a[i];
        let m = choose|m: int| 0 <= m < a.len() && a[m] == b[i];
        assert(j >= i) by {
            if j < i {
                assert(b.take(i)[j] == a.take(i)[j]);
                assert(distance(pivot, a[j]) < distance(pivot, a[i]));
            }
        }
        assert(m >= i) by {
            if m < i {
                assert(b.take(i)[m] == a.take(i)[m]);
                assert(distance(pivot, b[m]) < distance(pivot, b[i]));
            }
        }
        if j > i {
            assert(distance(pivot, b[i]) < distance(pivot, b[j]));
        }
        if m > i {
            assert(distance(pivot, a[i]) < distance(pivot, a[m]));
        }
        assert(a[i] == b[i]);
        assert(a.take(n) =~= a.take(i).push(a[i]));
        assert(b.take(n) =~= b.take(i).push(b[i]));
    } else {
        assert(a.take(n) =~= b.take(n));
    }
}

/// `node` is the first of `nodes` with its id.
spec fn is_first(nodes: Seq<Node>, node: Node) -> bool {
    exists|j: int|
        {
            &&& 0 <= j < nodes.len()
            &&& #[trigger] nodes[j] == node
            &&& !id_among(nodes.take(j), node.id@)
        }
}

proof fn lemma_id_among_push(nodes: Seq<Node>, last: Node, id: Seq<u8>)
    ensures
        id_among(nodes.push(last), id) <==> id_among(nodes, id) || last.id@ == id,
{
    let all = nodes.push(last);
    if id_among(nodes, id) {
        let i = choose|i: int| 0 <= i < nodes.len() && (#[trigger] nodes[i]).id@ == id;
        assert(all[i].id@ == id);
    }
    assert(all[nodes.len() as int] == last);
    if id_among(all, id) && last.id@ != id {
        let i = choose|i: int| 0 <= i < all.len() && (#[trigger] all[i]).id@ == id;
        assert(nodes[i].id@ == id);
    }
}

proof fn lemma_is_first_push(nodes: Seq<Node>, last: Node, node: Node)
    ensures
        is_first(nodes.push(last), node) <==> is_first(nodes, node) || (node == last && !id_among(
            nodes,
            node.id@,
        )),
{
    let all = nodes.push(last);
    if is_first(nodes, node) {
        let j = choose|j: int|
            {
                &&& 0 <= j < nodes.len()
                &&& #[trigger] nodes[j] == node
                &&& !id_among(nodes.take(j), node.id@)
            };
        assert(all.take(j) =~= nodes.take(j));
        assert(all[j] == node);
    }
    if node == last && !id_among(nodes, node.id@) {
        assert(all.take(nodes.len() as int) =~= nodes);
        assert(all[nodes.len() as int] == node);
    }
    if is_first(all, node) && !is_first(nodes, node) {
        let j = choose|j: int|
            {
                &&& 0 <= j < all.len()
                &&& #[trigger] all[j] == node
                &&& !id_among(all.take(j), node.id@)
            };
        if j < nodes.len() {
            assert(all.take(j) =~= nodes.take(j));
            assert(nodes[j] == node);
        } else {
            assert(all.take(j) =~= nodes);
        }
    }
}

proof fn lemma_add_new_members(members: Seq<Node>, nodes: Seq<Node>)
    ensures
        forall|n: Node| #[trigger]
            add_new(members, nodes).contains(n) <==> members.contains(n) || (!id_among(
                members,
                n.id@,
            ) && is_first(nodes, n)),
        forall|id: Seq<u8>| #[trigger]
            id_among(add_new(members, nodes), id) <==> id_among(members, id) || id_among(nodes, id),
    decreases nodes.len(),
{
    if nodes.len() > 0 {
        let init = nodes.drop_last();
        let last = nodes.last();
        lemma_add_new_members(members, init);
        let grown = add_new(members, init);
        let all = add_new(members, nodes);
        assert(init.push(last) =~= nodes);
        assert forall|n: Node| #[trigger] all.contains(n) <==> members.contains(n) || (!id_among(
            members,
            n.id@,
        ) && is_first(nodes, n)) by {
            lemma_is_first_push(init, last, n);
            if grown.contains(n) {
                let i = choose|i: int| 0 <= i < grown.len() && grown[i] == n;
                assert(all[i] == n);
            }
            if all.contains(n) && !grown.contains(n) {
                let i = choose|i: int| 0 <= i < all.len() && all[i] == n;
                if i < grown.len() {
                    assert(grown[i] == n);
                }
            }
            if !id_among(grown, last.id@) {
                assert(all[grown.len() as int] == last);
            }
        }
        assert forall|id: Seq<u8>| #[trigger] id_among(all, id) <==> id_among(members, id)
            || id_among(nodes, id) by {
            lemma_id_among_push(init, last, id);
            lemma_id_among_push(grown, last, id);
        }
    }
}

proof fn lemma_same_members_same_len(a: Seq<Node>, b: Seq<Node>)
    requires
        a.no_duplicates(),
        b.no_duplicates(),
        forall|n: Node| #[trigger] a.contains(n) <==> b.contains(n),
    ensures
        a.len() == b.len(),
{
    a.unique_seq_to_set();
    b.unique_seq_to_set();
    assert(a.to_set() =~= b.to_set());
}

/// A sequence without duplicates that is no longer than another leaves none of it
/// out if it is part of it and as long.
proof fn lemma_part_as_long(part: Seq<Node>, whole: Seq<Node>, n: Node)
    requires
        part.no_duplicates(),
        whole.no_duplicates(),
        forall|i: int| 0 <= i < part.len() ==> whole.contains(#[trigger] part[i]),
        part.len() >= whole.len(),
        whole.contains(n),
    ensures
        part.contains(n),
{
    if !part.contains(n) {
        part.unique_seq_to_set();
        whole.unique_seq_to_set();
        assert(part.to_set().subset_of(whole.to_set().remove(n))) by {
            assert forall|m: Node| part.to_set().contains(m) implies whole.to_set().remove(
                n,
            ).contains(m) by {
                let j = choose|j: int| 0 <= j < part.len() && part[j] == m;
                assert(whole.contains(part[j]));
            }
        }
        assert(whole.to_set().contains(n));
        vstd::set_lib::lemma_len_subset(part.to_set(), whole.to_set().remove(n));
    }
}

proof fn lemma_distinct_no_duplicates(nodes: Seq<Node>)
    requires
        distinct_ids(nodes),
    ensures
        nodes.no_duplicates(),
{
    assert forall|i: int, j: int|
        0 <= i < nodes.len() && 0 <= j < nodes.len() && i != j implies nodes[i] != nodes[j] by {
        assert(nodes[i].id@ != nodes[j].id@);
    }
}

/// Every node that was dropped in favour of `kept` is farther than all of the nodes
/// chosen from `kept` and others.
proof fn lemma_dropped_are_farther(
    pivot: Node,
    known: Seq<Node>,
    later: Seq<Node>,
    k: nat,
    kept: Seq<Node>,
    nearest: Seq<Node>,
    c: Node,
    i: int,
)
    requires
        known.len() > k,
        are_closest(pivot, known, k, kept),
        are_closest(pivot, add_new(kept, later), k, nearest),
        known.contains(c),
        !kept.contains(c),
        0 <= i < nearest.len(),
    ensures
        distance(pivot, nearest[i]) < distance(pivot, c),
{
    let n = nearest[i];
    if kept.contains(n) {
        let j = choose|j: int| 0 <= j < kept.len() && kept[j] == n;
        assert(distance(pivot, kept[j]) < distance(pivot, c));
    } else {
        lemma_add_new_members(kept, later);
        lemma_ascending_no_duplicates(pivot, kept);
        lemma_ascending_no_duplicates(pivot, nearest);
        assert(nearest.contains(nearest[i]));
        if forall|j: int| 0 <= j < kept.len() ==> nearest.contains(#[trigger] kept[j]) {
            lemma_part_as_long(kept, nearest, n);
        }
        let j = choose|j: int| 0 <= j < kept.len() && !nearest.contains(#[trigger] kept[j]);
        let h = kept[j];
        assert(kept.contains(h));
        assert(distance(pivot, nearest[i]) < distance(pivot, h));
        assert(distance(pivot, kept[j]) < distance(pivot, c));
    }
}

/// Adding nodes keeps the members, adds the first node of every id that is new, and nothing
/// else.
pub proof fn law_added_nodes_are_the_first_of_their_id(members: Seq<Node>, nodes: Seq<Node>)
    ensures
        forall|n: Node| #[trigger]
            add_new(members, nodes).contains(n) <==> members.contains(n) || ((forall|m: int|
                0 <= m < members.len() ==> (#[trigger] members[m]).id@ != n.id@) && exists|i: int|
                {
                    &&& 0 <= i < nodes.len()
                    &&& #[trigger] nodes[i] == n
                    &&& forall|j: int| 0 <= j < i ==> (#[trigger] nodes[j]).id@ != n.id@
                }),
        forall|id: Seq<u8>| #[trigger]
            id_among(add_new(members, nodes), id) <==> id_among(members, id) || id_among(nodes, id),
{
    lemma_add_new_members(members, nodes);
    assert forall|n: Node| is_first(nodes, n) <==> exists|i: int|
        {
            &&& 0 <= i < nodes.len()
            &&& #[trigger] nodes[i] == n
            &&& forall|j: int| 0 <= j < i ==> (#[trigger] nodes[j]).id@ != n.id@
        } by {
        if is_first(nodes, n) {
            let i = choose|i: int|
                0 <= i < nodes.len() && nodes[i] == n && !id_among(nodes.take(i), n.id@);
            assert forall|j: int| 0 <= j < i implies (#[trigger] nodes[j]).id@ != n.id@ by {
                assert(nodes.take(i)[j] == nodes[j]);
            }
        }
    }
}

/// Keeping only the `k` closest nodes loses nothing: the `k` closest of those `kept`
/// and of nodes that come `later` are the `k` closest of all nodes ever `known`.
pub proof fn law_dropping_early_loses_nothing(
    pivot: Node,
    known: Seq<Node>,
    later: Seq<Node>,
    k: nat,
    kept: Seq<Node>,
    nearest: Seq<Node>,
)
    requires
        all_wf(known),
        all_wf(later),
        distinct_ids(known),
        are_closest(pivot, known, k, kept),
        are_closest(pivot, add_new(kept, later), k, nearest),
    ensures
        are_closest(pivot, add_new(known, later), k, nearest),
{
    let from_kept = add_new(kept, later);
    let from_known = add_new(known, later);
    lemma_add_new_members(kept, later);
    lemma_add_new_members(known, later);
    lemma_add_new(known, later);
    lemma_distinct_no_duplicates(known);
    lemma_ascending_no_duplicates(pivot, kept);
    assert forall|id: Seq<u8>| #[trigger] id_among(kept, id) implies id_among(known, id) by {
        let j = choose|j: int| 0 <= j < kept.len() && (#[trigger] kept[j]).id@ == id;
        assert(known.contains(kept[j]));
        let m = choose|m: int| 0 <= m < known.len() && known[m] == kept[j];
        assert(known[m].id@ == id);
    }
    assert forall|n: Node| #[trigger] kept.contains(n) implies known.contains(n) by {
        let j = choose|j: int| 0 <= j < kept.len() && kept[j] == n;
        assert(known.contains(kept[j]));
    }
    if known.len() <= k {
        assert forall|n: Node| #[trigger] known.contains(n) implies kept.contains(n) by {
            lemma_part_as_long(kept, known, n);
        }
        assert forall|id: Seq<u8>| #[trigger] id_among(known, id) implies id_among(kept, id) by {
            let j = choose|j: int| 0 <= j < known.len() && (#[trigger] known[j]).id@ == id;
            assert(known.contains(known[j]));
            let m = choose|m: int| 0 <= m < kept.len() && kept[m] == known[j];
            assert(kept[m].id@ == id);
        }
        assert forall|n: Node| #[trigger] from_kept.contains(n) <==> from_known.contains(n) by {}
        assert(all_wf(kept)) by {
            assert forall|i: int| 0 <= i < kept.len() implies (#[trigger] kept[i]).wf() by {
                assert(known.contains(kept[i]));
            }
        }
        lemma_ascending_distinct(pivot, kept);
        lemma_add_new(kept, later);
        lemma_distinct_no_duplicates(from_kept);
        lemma_distinct_no_duplicates(from_known);
        lemma_same_members_same_len(from_kept, from_known);
    } else {
        lemma_add_new_grows(kept, later);
        assert forall|i: int| 0 <= i < nearest.len() implies from_known.contains(
            #[trigger] nearest[i],
        ) by {
            let n = nearest[i];
            assert(from_kept.contains(n));
            if !kept.contains(n) && id_among(known, n.id@) {
                let j = choose|j: int| 0 <= j < known.len() && (#[trigger] known[j]).id@ == n.id@;
                let a = known[j];
                assert(known.contains(a));
                if kept.contains(a) {
                    let m = choose|m: int| 0 <= m < kept.len() && kept[m] == a;
                    assert(kept[m].id@ == n.id@);
                }
                lemma_dropped_are_farther(pivot, known, later, k, kept, nearest, a, i);
                let f = choose|f: int|
                    {
                        &&& 0 <= f < later.len()
                        &&& #[trigger] later[f] == n
                        &&& !id_among(later.take(f), n.id@)
                    };
                assert(later[f].wf());
                law_distances_never_tie(pivot, a, n);
            }
        }
        assert forall|c: Node, i: int|
            from_known.contains(c) && !nearest.contains(c) && 0 <= i
                < nearest.len() implies distance(pivot, #[trigger] nearest[i]) < #[trigger] distance(
            pivot,
            c,
        ) by {
            if known.contains(c) && !kept.contains(c) {
                lemma_dropped_are_farther(pivot, known, later, k, kept, nearest, c, i);
            } else {
                assert(from_kept.contains(c));
            }
        }
    }
}

/// A node paired with its XOR distance from the heap's pivot.
#[derive(Debug)]
struct HeapEntry {
    distance: LongId,
    node: Node,
}

/// A bounded set of the nodes closest to a pivot, ordered by XOR distance.
///
/// Lookups maintain the `maxsize` closest known nodes. The set is kept sorted,
/// closest first.
#[derive(Debug)]
pub struct NodeHeap {
    /// The pivot: all distances are relative to this node.
    pub node: Node,
    entries: Vec<HeapEntry>,
    /// Ids of nodes that have been marked as contacted, each at most once.
    pub contacted: Vec<[u8; ID_LEN]>,
    /// Maximum number of nodes the heap may hold.
    pub maxsize: usize,
}

/// The nodes of `entries`.
spec fn entry_nodes(entries: Seq<HeapEntry>) -> Seq<Node> {
    entries.map_values(|e: HeapEntry| e.node)
}

/// Every entry is valid and carries its distance from `pivot`.
spec fn entries_ok(pivot: Node, entries: Seq<HeapEntry>) -> bool {
    &&& all_wf(entry_nodes(entries))
    &&& forall|i: int|
        0 <= i < entries.len() ==> (#[trigger] entries[i]).distance == long_id::xor_words(
            pivot.long_id,
            entries[i].node.long_id,
        )
    &&& ascending(pivot, entry_nodes(entries))
}

/// `after` is what pushing `nodes` makes of the members `before` of a heap: if any is new,
/// the `capacity` closest of all, and otherwise what it was.
pub open spec fn is_pushed(
    pivot: Node,
    capacity: nat,
    before: Seq<Node>,
    nodes: Seq<Node>,
    after: Seq<Node>,
) -> bool {
    let candidates = add_new(before, nodes);
    if candidates.len() == before.len() {
        after == before
    } else {
        are_closest(pivot, candidates, capacity, after)
    }
}

/// A heap takes in what is pushed and gives up only what is farther than all it keeps, and
/// that only when it is full: whatever was in it or is pushed is in it by its id, or the
/// heap holds `capacity` nodes that are all closer. It holds nothing else, closest first,
/// and nodes whose ids are all there change nothing.
pub proof fn law_heap_keeps_the_closest(
    pivot: Node,
    capacity: nat,
    before: Seq<Node>,
    nodes: Seq<Node>,
    after: Seq<Node>,
    node: Node,
)
    requires
        all_wf(before),
        all_wf(nodes),
        ascending(pivot, before),
        before.len() <= capacity,
        is_pushed(pivot, capacity, before, nodes, after),
        before.contains(node) || nodes.contains(node),
    ensures
        after.len() <= capacity,
        !id_among(after, node.id@) ==> after.len() == capacity && forall|i: int|
            0 <= i < after.len() ==> distance(pivot, #[trigger] after[i]) < distance(pivot, node),
        forall|i: int|
            0 <= i < after.len() ==> before.contains(#[trigger] after[i]) || nodes.contains(
                after[i],
            ),
        forall|i: int, j: int|
            0 <= i < j < after.len() ==> distance(pivot, #[trigger] after[i]) < distance(
                pivot,
                #[trigger] after[j],
            ),
        (forall|i: int| 0 <= i < nodes.len() ==> id_among(before, (#[trigger] nodes[i]).id@))
            ==> after == before,
{
    let all = add_new(before, nodes);
    lemma_ascending_distinct(pivot, before);
    lemma_add_new(before, nodes);
    law_added_nodes_are_the_first_of_their_id(before, nodes);
    assert(node.wf() && id_among(all, node.id@)) by {
        if before.contains(node) {
            let i = choose|i: int| 0 <= i < before.len() && before[i] == node;
            assert(before[i].id@ == node.id@);
        } else {
            let i = choose|i: int| 0 <= i < nodes.len() && nodes[i] == node;
            assert(nodes[i].id@ == node.id@);
        }
    }
    let m = choose|m: int| 0 <= m < all.len() && (#[trigger] all[m]).id@ == node.id@;
    let first = all[m];
    assert(all.contains(first));
    law_distances_never_tie(pivot, first, node);
    if all.len() == before.len() {
        assert(all =~= before) by {
            assert(all.take(before.len() as int) =~= all);
        }
        assert(after[m].id@ == node.id@);
        assert forall|i: int| 0 <= i < after.len() implies before.contains(
            #[trigger] after[i],
        ) || nodes.contains(after[i]) by {
            assert(before[i] == after[i]);
        }
    } else {
        if after.contains(first) {
            let i = choose|i: int| 0 <= i < after.len() && after[i] == first;
            assert(after[i].id@ == node.id@);
        } else if after.len() != capacity {
            lemma_closest_takes_all(pivot, all, capacity, after, m);
        }
        assert forall|i: int| 0 <= i < after.len() implies before.contains(
            #[trigger] after[i],
        ) || nodes.contains(after[i]) by {
            assert(all.contains(after[i]));
        }
        if forall|i: int| 0 <= i < nodes.len() ==> id_among(before, (#[trigger] nodes[i]).id@) {
            lemma_add_known(before, nodes);
        }
    }
}

proof fn lemma_add_known(before: Seq<Node>, nodes: Seq<Node>)
    requires
        forall|i: int| 0 <= i < nodes.len() ==> id_among(before, (#[trigger] nodes[i]).id@),
    ensures
        add_new(before, nodes) == before,
    decreases nodes.len(),
{
    if nodes.len() > 0 {
        let init = nodes.drop_last();
        assert forall|i: int| 0 <= i < init.len() implies id_among(
            before,
            (#[trigger] init[i]).id@,
        ) by {
            assert(nodes[i] == init[i]);
        }
        lemma_add_known(before, init);
        assert(id_among(before, nodes[nodes.len() - 1].id@));
    }
}

proof fn lemma_closest_takes_all(
    pivot: Node,
    candidates: Seq<Node>,
    k: nat,
    nearest: Seq<Node>,
    m: int,
)
    requires
        are_closest(pivot, candidates, k, nearest),
        distinct_ids(candidates),
        nearest.len() != k,
        0 <= m < candidates.len(),
    ensures
        nearest.contains(candidates[m]),
{
    lemma_distinct_no_duplicates(candidates);
    lemma_ascending_no_duplicates(pivot, nearest);
    candidates.unique_seq_to_set();
    nearest.unique_seq_to_set();
    let a = nearest.to_set();
    let b = candidates.to_set();
    assert(a.subset_of(b)) by {
        assert forall|n: Node| a.contains(n) implies b.contains(n) by {
            let i = choose|i: int| 0 <= i < nearest.len() && nearest[i] == n;
            assert(candidates.contains(nearest[i]));
        }
    }
    vstd::set_lib::lemma_subset_equality(a, b);
    assert(b.contains(candidates[m]));
    assert(a.contains(candidates[m]));
}

proof fn lemma_filter_members(nodes: Seq<Node>, pred: spec_fn(Node) -> bool)
    ensures
        forall|n: Node| #[trigger]
            nodes.filter(pred).contains(n) <==> nodes.contains(n) && pred(n),
{
    broadcast use Seq::lemma_filter_pred, Seq::lemma_filter_contains;

    assert forall|n: Node| #[trigger] nodes.filter(pred).contains(n) <==> nodes.contains(n) && pred(
        n,
    ) by {
        if nodes.filter(pred).contains(n) {
            let i = choose|i: int| 0 <= i < nodes.filter(pred).len() && nodes.filter(pred)[i] == n;
            assert(pred(nodes.filter(pred)[i]));
            nodes.lemma_filter_contains_rev(pred, n);
        }
        if nodes.contains(n) && pred(n) {
            let i = choose|i: int| 0 <= i < nodes.len() && nodes[i] == n;
            assert(nodes.filter(pred).contains(nodes[i]));
        }
    }
}

/// Readers see the closest members, as many as the heap has room for, and of these exactly
/// those count as not contacted whose id was not marked.
pub proof fn law_readers_see_the_closest_members(heap: NodeHeap, node: Node)
    ensures
        heap.visible().len() <= heap.capacity(),
        heap.visible().len() <= heap.members().len(),
        heap.visible().len() == heap.members().len() || heap.visible().len() == heap.capacity(),
        forall|i: int|
            0 <= i < heap.visible().len() ==> #[trigger] heap.visible()[i] == heap.members()[i],
        heap.uncontacted().contains(node) <==> heap.visible().contains(node) && !(exists|i: int|
            0 <= i < heap.contacted_ids().len() && (#[trigger] heap.contacted_ids()[i])@
                == node.id@),
{
    let pred = |n: Node| !id_listed(heap.contacted_ids(), n.id@);
    broadcast use Seq::lemma_filter_pred, Seq::lemma_filter_contains;

    if heap.uncontacted().contains(node) {
        let i = choose|i: int| 0 <= i < heap.uncontacted().len() && heap.uncontacted()[i] == node;
        assert(pred(heap.visible().filter(pred)[i]));
        heap.visible().lemma_filter_contains_rev(pred, node);
    }
    if heap.visible().contains(node) && pred(node) {
        let i = choose|i: int| 0 <= i < heap.visible().len() && heap.visible()[i] == node;
        assert(heap.visible().filter(pred).contains(heap.visible()[i]));
    }
}

/// `id` is one of `ids`.
pub open spec fn id_listed(ids: Seq<[u8; ID_LEN]>, id: Seq<u8>) -> bool {
    exists|i: int| 0 <= i < ids.len() && (#[trigger] ids[i])@ == id
}

/// Heap nodes as they are written, separated by commas.
pub open spec fn joined_text(nodes: Seq<Node>) -> Seq<char>
    decreases nodes.len(),
{
    if nodes.len() == 0 {
        Seq::empty()
    } else if nodes.len() == 1 {
        node_text(nodes[0])
    } else {
        joined_text(nodes.drop_last()) + seq![',', ' '] + node_text(nodes.last())
    }
}

/// Whether `id` is one of `ids`.
fn list_contains(ids: &[[u8; ID_LEN]], id: &[u8; ID_LEN]) -> (found: bool)
    ensures
        found <==> id_listed(ids@, id@),
{
    let mut i: usize = 0;
    while i < ids.len()
        invariant
            i <= ids@.len(),
            forall|j: int| 0 <= j < i ==> (#[trigger] ids@[j])@ != id@,
        decreases ids@.len() - i,
    {
        if id_eq(&ids[i], id) {
            return true;
        }
        i = i + 1;
    }
    false
}

impl NodeHeap {
    /// The node that distances are measured from.
    pub closed spec fn pivot(&self) -> Node {
        self.node
    }

    /// How many nodes the heap may hold.
    pub closed spec fn capacity(&self) -> nat {
        self.maxsize as nat
    }

    /// The ids marked as contacted.
    pub closed spec fn contacted_ids(&self) -> Seq<[u8; ID_LEN]> {
        self.contacted@
    }

    /// All nodes held, closest first.
    pub closed spec fn members(&self) -> Seq<Node> {
        entry_nodes(self.entries@)
    }

    /// The nodes that readers see: at most `maxsize` of the members.
    pub open spec fn visible(&self) -> Seq<Node> {
        if self.capacity() < self.members().len() {
            self.members().take(self.capacity() as int)
        } else {
            self.members()
        }
    }

    /// The members are valid nodes in ascending order of distance from a valid
    /// pivot, and no contacted id is listed twice.
    pub closed spec fn wf(&self) -> bool {
        &&& self.node.wf()
        &&& entries_ok(self.node, self.entries@)
        &&& forall|i: int, j: int|
            0 <= i < j < self.contacted@.len() ==> (#[trigger] self.contacted@[i])@ != (
            #[trigger] self.contacted@[j])@
    }

    /// The visible nodes that were not contacted yet.
    pub open spec fn uncontacted(&self) -> Seq<Node> {
        self.visible().filter(|n: Node| !id_listed(self.contacted_ids(), n.id@))
    }

    /// What a valid heap says of its members.
    pub proof fn lemma_wf(&self)
        requires
            self.wf(),
        ensures
            self.pivot().wf(),
            all_wf(self.members()),
            ascending(self.pivot(), self.members()),
            distinct_ids(self.members()),
    {
        lemma_ascending_distinct(self.node, self.members());
    }

    /// Create an empty heap with the given pivot and capacity.
    pub fn new(node: Node, maxsize: usize) -> (heap: Self)
        requires
            node.wf(),
        ensures
            heap.wf(),
            heap.pivot() == node,
            heap.members() == Seq::<Node>::empty(),
            heap.contacted_ids() == Seq::<[u8; ID_LEN]>::empty(),
            heap.capacity() == maxsize,
    {
        let heap = NodeHeap { node, entries: Vec::new(), contacted: Vec::new(), maxsize };
        assert(heap.members() =~= Seq::empty());
        heap
    }

    /// Puts an entry in its place.
    fn insert_sorted(&mut self, node: Node)
        requires
            old(self).wf(),
            node.wf(),
            !id_among(old(self).members(), node.id@),
        ensures
            final(self).wf(),
            final(self).pivot() == old(self).pivot(),
            final(self).contacted_ids() == old(self).contacted_ids(),
            final(self).capacity() == old(self).capacity(),
            final(self).members().len() == old(self).members().len() + 1,
            forall|n: Node| #[trigger]
                final(self).members().contains(n) <==> old(self).members().contains(n) || n == node,
    {
        let distance = self.node.distance_to(&node);
        let mut at: usize = 0;
        while at < self.entries.len() && self.entries[at].distance.less_than(distance)
            invariant
                at <= self.entries@.len(),
                entries_ok(self.node, self.entries@),
                distance == long_id::xor_words(self.node.long_id, node.long_id),
                distance.value() == crate::node::distance(self.node, node),
                forall|j: int|
                    0 <= j < at ==> crate::node::distance(
                        self.node,
                        (#[trigger] self.entries@[j]).node,
                    ) < crate::node::distance(self.node, node),
            decreases self.entries@.len() - at,
        {
            proof {
                lemma_entry_distance(self.node, self.entries@, at as int);
            }
            at = at + 1;
        }
        let entry = HeapEntry { distance, node };
        proof {
            if at < self.entries@.len() {
                lemma_entry_distance(self.node, self.entries@, at as int);
            }
            lemma_insert_entry(self.node, self.entries@, at as int, entry);
        }
        self.entries.insert(at, entry);
    }

    /// Insert a batch of nodes, ignoring those whose id is already there.
    ///
    /// If any was new, the set is trimmed to the `maxsize` closest nodes.
    pub fn push(&mut self, nodes: Vec<Node>)
        requires
            old(self).wf(),
            all_wf(nodes@),
        ensures
            final(self).wf(),
            final(self).pivot() == old(self).pivot(),
            final(self).contacted_ids() == old(self).contacted_ids(),
            final(self).capacity() == old(self).capacity(),
            old(self).members().len() <= old(self).capacity() ==> final(self).members().len()
                <= final(self).capacity(),
            is_pushed(
                old(self).pivot(),
                old(self).capacity(),
                old(self).members(),
                nodes@,
                final(self).members(),
            ),
    {
        let ghost members = self.members();
        let mut added = false;
        let mut i: usize = 0;
        assert(nodes@.take(0) =~= Seq::<Node>::empty());
        while i < nodes.len()
            invariant
                i <= nodes@.len(),
                all_wf(nodes@),
                old(self).wf(),
                members == old(self).members(),
                self.wf(),
                self.node == old(self).node,
                self.contacted@ == old(self).contacted@,
                self.maxsize == old(self).maxsize,
                self.members().len() == add_new(members, nodes@.take(i as int)).len(),
                forall|n: Node| #[trigger]
                    self.members().contains(n) <==> add_new(
                        members,
                        nodes@.take(i as int),
                    ).contains(n),
                !added ==> self.members() == members,
                added ==> self.members().len() > members.len(),
                members.len() <= self.members().len(),
            decreases nodes@.len() - i,
        {
            let ghost grown = add_new(members, nodes@.take(i as int));
            let ghost node = nodes@[i as int];
            assert(nodes@.take(i + 1).drop_last() =~= nodes@.take(i as int));
            assert(nodes@.take(i + 1).last() == node);
            assert(id_among(grown, node.id@) <==> id_among(self.members(), node.id@)) by {
                if id_among(grown, node.id@) {
                    let j = choose|j: int| 0 <= j < grown.len() && grown[j].id@ == node.id@;
                    assert(grown.contains(grown[j]));
                    assert(self.members().contains(grown[j]));
                }
                if id_among(self.members(), node.id@) {
                    let j = choose|j: int|
                        0 <= j < self.members().len() && self.members()[j].id@ == node.id@;
                    assert(self.members().contains(self.members()[j]));
                    assert(grown.contains(self.members()[j]));
                }
            }
            if !self.contains(&nodes[i]) {
                self.insert_sorted(nodes[i].clone());
                added = true;
                proof {
                    let next = grown.push(node);
                    assert forall|n: Node| #[trigger] self.members().contains(n)
                        <==> next.contains(n) by {
                        if grown.contains(n) {
                            let j = choose|j: int| 0 <= j < grown.len() && grown[j] == n;
                            assert(next[j] == n);
                        }
                        assert(next[grown.len() as int] == node);
                        if next.contains(n) && n != node {
                            let j = choose|j: int| 0 <= j < next.len() && next[j] == n;
                            assert(grown[j] == n);
                        }
                    }
                }
            }
            i = i + 1;
        }
        assert(nodes@.take(i as int) =~= nodes@);
        if added {
            let ghost all = self.entries@;
            let ghost candidates = add_new(members, nodes@);
            self.entries.truncate(self.maxsize);
            proof {
                let nodes_all = entry_nodes(all);
                let kept = entry_nodes(self.entries@);
                let k = if self.maxsize < nodes_all.len() {
                    self.maxsize as int
                } else {
                    nodes_all.len() as int
                };
                assert(kept =~= nodes_all.take(k));
                assert forall|i: int, j: int|
                    0 <= i < j < kept.len() implies distance(self.node, #[trigger] kept[i])
                    < distance(self.node, #[trigger] kept[j]) by {
                    assert(distance(self.node, nodes_all[i]) < distance(self.node, nodes_all[j]));
                }
                assert forall|i: int| 0 <= i < kept.len() implies (#[trigger] kept[i]).wf() by {
                    assert(nodes_all[i].wf());
                }
                assert forall|i: int| 0 <= i < kept.len() implies candidates.contains(
                    #[trigger] kept[i],
                ) by {
                    assert(nodes_all.contains(nodes_all[i]));
                }
                assert forall|c: Node, i: int|
                    candidates.contains(c) && !kept.contains(c) && 0 <= i < kept.len() implies distance(
                    self.node,
                    #[trigger] kept[i],
                ) < #[trigger] distance(self.node, c) by {
                    assert(nodes_all.contains(c));
                    let j = choose|j: int| 0 <= j < nodes_all.len() && nodes_all[j] == c;
                    if j < k {
                        assert(kept[j] == c);
                    }
                    assert(distance(self.node, nodes_all[i]) < distance(self.node, nodes_all[j]));
                }
            }
        }
    }

    /// Insert a single node.
    pub fn push_one(&mut self, node: Node)
        requires
            old(self).wf(),
            node.wf(),
        ensures
            final(self).wf(),
            final(self).pivot() == old(self).pivot(),
            final(self).contacted_ids() == old(self).contacted_ids(),
            final(self).capacity() == old(self).capacity(),
            old(self).members().len() <= old(self).capacity() ==> final(self).members().len()
                <= final(self).capacity(),
            if id_among(old(self).members(), node.id@) {
                final(self).members() == old(self).members()
            } else {
                are_closest(
                    old(self).pivot(),
                    old(self).members().push(node),
                    old(self).capacity(),
                    final(self).members(),
                )
            },
    {
        let mut nodes: Vec<Node> = Vec::new();
        nodes.push(node);
        proof {
            reveal_with_fuel(add_new, 2);
            assert(nodes@.drop_last() =~= Seq::<Node>::empty());
        }
        self.push(nodes);
    }

    /// Remove nodes by id. Preserves the order of the others.
    pub fn remove(&mut self, peers: &[[u8; ID_LEN]])
        requires
            old(self).wf(),
        ensures
            final(self).wf(),
            final(self).pivot() == old(self).pivot(),
            final(self).contacted_ids() == old(self).contacted_ids(),
            final(self).capacity() == old(self).capacity(),
            final(self).members() == old(self).members().filter(
                |n: Node| !id_listed(peers@, n.id@),
            ),
            forall|n: Node| #[trigger]
                final(self).members().contains(n) <==> old(self).members().contains(n)
                    && forall|i: int| 0 <= i < peers@.len() ==> (#[trigger] peers@[i])@ != n.id@,
    {
        let ghost pred = |n: Node| !id_listed(peers@, n.id@);
        let ghost before = self.entries@;
        let ghost nodes = entry_nodes(before);
        let ghost mut seen: int = 0;
        let mut i: usize = 0;
        assert(nodes.take(0) =~= Seq::<Node>::empty());
        assert(nodes.take(0).filter(pred) =~= Seq::<Node>::empty()) by {
            reveal(Seq::filter);
        }
        while i < self.entries.len()
            invariant
                0 <= seen <= before.len(),
                i <= self.entries@.len(),
                self.entries@.len() - i == before.len() - seen,
                self.entries@.skip(i as int) == before.skip(seen),
                nodes == entry_nodes(before),
                pred == (|n: Node| !id_listed(peers@, n.id@)),
                entry_nodes(self.entries@.take(i as int)) == nodes.take(seen).filter(pred),
                entries_ok(self.node, before),
                entries_ok(self.node, self.entries@),
                self.node == old(self).node,
                self.contacted == old(self).contacted,
                self.maxsize == old(self).maxsize,
            decreases self.entries@.len() - i,
        {
            let ghost current = self.entries@;
            proof {
                assert(current[i as int] == current.skip(i as int)[0]);
                assert(before[seen] == before.skip(seen)[0]);
                assert(current[i as int] == before[seen]);
                assert(nodes.take(seen + 1).drop_last() =~= nodes.take(seen));
                assert(nodes.take(seen + 1).last() == before[seen].node);
                reveal(Seq::filter);
                assert(current.skip(i as int).skip(1) =~= current.skip(i + 1));
                assert(before.skip(seen).skip(1) =~= before.skip(seen + 1));
            }
            if list_contains(peers, &self.entries[i].node.id) {
                let _ = self.entries.remove(i);
                proof {
                    assert(self.entries@ =~= current.remove(i as int));
                    assert(self.entries@.skip(i as int) =~= current.skip(i + 1));
                    assert(self.entries@.take(i as int) =~= current.take(i as int));
                    lemma_remove_entry(self.node, current, i as int);
                    seen = seen + 1;
                }
            } else {
                proof {
                    assert(entry_nodes(current.take(i + 1)) =~= entry_nodes(
                        current.take(i as int),
                    ).push(current[i as int].node));
                    seen = seen + 1;
                }
                i = i + 1;
            }
        }
        proof {
            assert(self.entries@.take(i as int) =~= self.entries@);
            assert(nodes.take(seen) =~= nodes);
            lemma_filter_members(nodes, pred);
        }
    }

    /// Pop and return the single closest node.
    pub fn popleft(&mut self) -> (node: Option<Node>)
        requires
            old(self).wf(),
        ensures
            final(self).wf(),
            final(self).pivot() == old(self).pivot(),
            final(self).contacted_ids() == old(self).contacted_ids(),
            final(self).capacity() == old(self).capacity(),
            match node {
                Some(node) => old(self).members().len() > 0 && node == old(self).members()[0]
                    && final(self).members() == old(self).members().skip(1),
                None => old(self).members().len() == 0 && final(self).members() == old(
                    self,
                ).members(),
            },
            node matches Some(node) ==> forall|i: int|
                0 <= i < final(self).members().len() ==> distance(old(self).pivot(), node)
                    < distance(old(self).pivot(), #[trigger] final(self).members()[i]),
    {
        if self.entries.is_empty() {
            None
        } else {
            let ghost before = self.entries@;
            proof {
                self.lemma_wf();
            }
            proof {
                lemma_remove_entry(self.node, before, 0);
            }
            let entry = self.entries.remove(0);
            assert(self.entries@ =~= before.remove(0));
            assert(entry_nodes(before.remove(0)) =~= entry_nodes(before).skip(1));
            Some(entry.node)
        }
    }

    /// Return `true` if a node with the same id is already in the heap.
    pub fn contains(&self, node: &Node) -> (found: bool)
        ensures
            found <==> id_among(self.members(), node.id@),
    {
        self.position(&node.id).is_some()
    }

    fn position(&self, id: &[u8; ID_LEN]) -> (found: Option<usize>)
        ensures
            match found {
                Some(i) => i < self.members().len() && self.members()[i as int].id@ == id@
                    && self.entries@.len() == self.members().len() && (forall|j: int|
                    0 <= j < i ==> (#[trigger] self.members()[j]).id@ != id@),
                None => !id_among(self.members(), id@),
            },
    {
        let mut i: usize = 0;
        while i < self.entries.len()
            invariant
                i <= self.entries@.len(),
                forall|j: int| 0 <= j < i ==> (#[trigger] self.members()[j]).id@ != id@,
            decreases self.entries@.len() - i,
        {
            if id_eq(&self.entries[i].node.id, id) {
                return Some(i);
            }
            i = i + 1;
        }
        None
    }

    /// Look up a node by its raw id.
    pub fn get_node(&self, node_id: &[u8; ID_LEN]) -> (node: Option<Node>)
        ensures
            match node {
                Some(node) => self.members().contains(node) && node.id@ == node_id@,
                None => !id_among(self.members(), node_id@),
            },
    {
        match self.position(node_id) {
            Some(i) => {
                let node = self.entries[i].node.clone();
                assert(self.members()[i as int] == node);
                Some(node)
            },
            None => None,
        }
    }

    /// Return `true` if every node in the heap has been contacted.
    pub fn have_contacted_all(&self) -> (all: bool)
        ensures
            all <==> forall|i: int|
                0 <= i < self.visible().len() ==> id_listed(
                    self.contacted_ids(),
                    (#[trigger] self.visible()[i]).id@,
                ),
            all <==> self.uncontacted().len() == 0,
    {
        let rest = self.get_uncontacted();
        proof {
            let pred = |n: Node| !id_listed(self.contacted_ids(), n.id@);
            broadcast use Seq::lemma_filter_pred, Seq::lemma_filter_contains;
            if rest@.len() > 0 {
                let n = rest@[0];
                assert(pred(n));
                self.visible().lemma_filter_contains_rev(pred, n);
            } else {
                assert forall|i: int| 0 <= i < self.visible().len() implies id_listed(
                    self.contacted@,
                    (#[trigger] self.visible()[i]).id@,
                ) by {
                    if pred(self.visible()[i]) {
                        assert(self.visible().filter(pred).contains(self.visible()[i]));
                    }
                }
            }
        }
        rest.is_empty()
    }

    /// Return the ids of all nodes currently in the heap (closest first).
    pub fn get_ids(&self) -> (ids: Vec<[u8; ID_LEN]>)
        ensures
            ids@ == self.visible().map_values(|n: Node| n.id),
    {
        let mut ids: Vec<[u8; ID_LEN]> = Vec::new();
        let len: usize = self.len();
        let mut i: usize = 0;
        while i < len
            invariant
                i <= len,
                len == self.visible().len(),
                len <= self.entries@.len(),
                ids@ == self.visible().take(i as int).map_values(|n: Node| n.id),
            decreases len - i,
        {
            assert(self.visible()[i as int] == self.entries@[i as int].node);
            ids.push(self.entries[i].node.id);
            i = i + 1;
            assert(ids@ =~= self.visible().take(i as int).map_values(|n: Node| n.id));
        }
        assert(self.visible().take(i as int) =~= self.visible());
        ids
    }

    /// Number of nodes in the heap (capped at `maxsize`).
    pub fn len(&self) -> (len: usize)
        ensures
            len == self.visible().len(),
            len <= self.members().len(),
    {
        if self.entries.len() < self.maxsize {
            self.entries.len()
        } else {
            self.maxsize
        }
    }

    pub fn is_empty(&self) -> (empty: bool)
        ensures
            empty <==> self.members().len() == 0,
    {
        self.entries.is_empty()
    }

    /// Mark a node as contacted so it is excluded from future crawl rounds.
    pub fn mark_contacted(&mut self, node: &Node)
        requires
            old(self).wf(),
        ensures
            final(self).wf(),
            final(self).pivot() == old(self).pivot(),
            final(self).members() == old(self).members(),
            final(self).capacity() == old(self).capacity(),
            forall|id: Seq<u8>| #[trigger]
                id_listed(final(self).contacted_ids(), id) <==> id_listed(old(self).contacted_ids(), id) || id
                    == node.id@,
    {
        if !list_contains(self.contacted.as_slice(), &node.id) {
            let ghost before = self.contacted@;
            self.contacted.push(node.id);
            proof {
                assert forall|id: Seq<u8>| #[trigger] id_listed(self.contacted@, id) <==> id_listed(
                    before,
                    id,
                ) || id == node.id@ by {
                    if id_listed(before, id) {
                        let i = choose|i: int| 0 <= i < before.len() && (#[trigger] before[i])@ == id;
                        assert(self.contacted@[i]@ == id);
                    }
                    assert(self.contacted@[before.len() as int]@ == node.id@);
                    if id_listed(self.contacted@, id) && id != node.id@ {
                        let i = choose|i: int|
                            0 <= i < self.contacted@.len() && (#[trigger] self.contacted@[i])@ == id;
                        assert(before[i]@ == id);
                    }
                }
                assert forall|i: int, j: int|
                    0 <= i < j < self.contacted@.len() implies (#[trigger] self.contacted@[i])@ != (
                #[trigger] self.contacted@[j])@ by {
                    assert(before[i] == self.contacted@[i]);
                    if j < before.len() {
                        assert(before[j] == self.contacted@[j]);
                    }
                }
            }
        }
    }

    /// Return nodes that have not yet been contacted, in ascending distance order.
    pub fn get_uncontacted(&self) -> (nodes: Vec<Node>)
        ensures
            nodes@ == self.uncontacted(),
    {
        let ghost pred = |n: Node| !id_listed(self.contacted_ids(), n.id@);
        let mut nodes: Vec<Node> = Vec::new();
        let len: usize = self.len();
        let mut i: usize = 0;
        assert(self.visible().take(0).filter(pred) =~= Seq::<Node>::empty()) by {
            reveal(Seq::filter);
        }
        while i < len
            invariant
                i <= len,
                len == self.visible().len(),
                len <= self.entries@.len(),
                pred == (|n: Node| !id_listed(self.contacted_ids(), n.id@)),
                nodes@ == self.visible().take(i as int).filter(pred),
            decreases len - i,
        {
            proof {
                assert(self.visible()[i as int] == self.entries@[i as int].node);
                assert(self.visible().take(i + 1).drop_last() =~= self.visible().take(i as int));
                reveal(Seq::filter);
            }
            if !list_contains(self.contacted.as_slice(), &self.entries[i].node.id) {
                nodes.push(self.entries[i].node.clone());
            }
            i = i + 1;
        }
        assert(self.visible().take(i as int) =~= self.visible());
        nodes
    }

    /// The nodes in ascending XOR-distance order, limited to `maxsize`.
    pub fn iter(&self) -> (nodes: Vec<Node>)
        ensures
            nodes@ == self.visible(),
    {
        let mut nodes: Vec<Node> = Vec::new();
        let len: usize = self.len();
        let mut i: usize = 0;
        while i < len
            invariant
                i <= len,
                len == self.visible().len(),
                len <= self.entries@.len(),
                nodes@ == self.visible().take(i as int),
            decreases len - i,
        {
            assert(self.visible()[i as int] == self.entries@[i as int].node);
            nodes.push(self.entries[i].node.clone());
            i = i + 1;
            assert(nodes@ =~= self.visible().take(i as int));
        }
        assert(self.visible().take(i as int) =~= self.visible());
        nodes
    }

    /// Collect all nodes into a `Vec` (closest first).
    pub fn to_vec(&self) -> (nodes: Vec<Node>)
        ensures
            nodes@ == self.visible(),
    {
        self.iter()
    }

    /// The nodes as text, `[a, b, ..]`.
    pub fn to_string(&self) -> (text: String)
        ensures
            text@ == seq!['['] + joined_text(self.visible()) + seq![']'],
    {
        proof {
            reveal_strlit("[");
            reveal_strlit("]");
            reveal_strlit(", ");
        }
        let nodes = self.iter();
        let mut text = "[".to_owned();
        let mut i: usize = 0;
        assert(text@ =~= seq!['['] + joined_text(nodes@.take(0)));
        while i < nodes.len()
            invariant
                i <= nodes@.len(),
                ", "@ == seq![',', ' '],
                text@ == seq!['['] + joined_text(nodes@.take(i as int)),
            decreases nodes@.len() - i,
        {
            if i > 0 {
                text.append(", ");
            }
            text.append(nodes[i].to_string().as_str());
            assert(nodes@.take(i + 1).drop_last() =~= nodes@.take(i as int));
            i = i + 1;
            assert(text@ =~= seq!['['] + joined_text(nodes@.take(i as int)));
        }
        assert(nodes@.take(i as int) =~= nodes@);
        text.append("]");
        text
    }
}

impl Clone for NodeHeap {
    fn clone(&self) -> (copy: Self)
        ensures
            self.wf() ==> copy.wf(),
            copy.pivot() == self.pivot(),
            copy.members() == self.members(),
            copy.contacted_ids() == self.contacted_ids(),
            copy.capacity() == self.capacity(),
    {
        let mut entries: Vec<HeapEntry> = Vec::new();
        let mut i: usize = 0;
        while i < self.entries.len()
            invariant
                i <= self.entries@.len(),
                entries@ == self.entries@.take(i as int),
            decreases self.entries@.len() - i,
        {
            let entry = &self.entries[i];
            entries.push(HeapEntry { distance: entry.distance, node: entry.node.clone() });
            i = i + 1;
            assert(entries@ =~= self.entries@.take(i as int));
        }
        assert(entries@ =~= self.entries@);
        let mut contacted: Vec<[u8; ID_LEN]> = Vec::new();
        let mut j: usize = 0;
        while j < self.contacted.len()
            invariant
                j <= self.contacted@.len(),
                contacted@ == self.contacted@.take(j as int),
            decreases self.contacted@.len() - j,
        {
            contacted.push(self.contacted[j]);
            j = j + 1;
            assert(contacted@ =~= self.contacted@.take(j as int));
        }
        assert(contacted@ =~= self.contacted@);
        NodeHeap { node: self.node.clone(), entries, contacted, maxsize: self.maxsize }
    }
}

/// Adding nodes to nothing leaves at least one if there is one.
pub proof fn lemma_add_new_grows(members: Seq<Node>, nodes: Seq<Node>)
    ensures
        add_new(members, nodes).len() >= members.len(),
        members.len() == 0 && nodes.len() > 0 ==> add_new(members, nodes).len() > 0,
    decreases nodes.len(),
{
    if nodes.len() > 0 {
        lemma_add_new_grows(members, nodes.drop_last());
    }
}

proof fn lemma_entry_distance(pivot: Node, entries: Seq<HeapEntry>, i: int)
    requires
        entries_ok(pivot, entries),
        0 <= i < entries.len(),
    ensures
        entries[i].distance.value() == distance(pivot, entries[i].node),
{
    reveal(distance);
}

proof fn lemma_insert_entry(pivot: Node, entries: Seq<HeapEntry>, at: int, entry: HeapEntry)
    requires
        entries_ok(pivot, entries),
        entry.node.wf(),
        entry.distance == long_id::xor_words(pivot.long_id, entry.node.long_id),
        !id_among(entry_nodes(entries), entry.node.id@),
        0 <= at <= entries.len(),
        forall|j: int|
            0 <= j < at ==> distance(pivot, (#[trigger] entries[j]).node) < distance(
                pivot,
                entry.node,
            ),
        at < entries.len() ==> distance(pivot, entries[at].node) >= distance(pivot, entry.node),
    ensures
        entries_ok(pivot, entries.insert(at, entry)),
        entry_nodes(entries.insert(at, entry)).len() == entries.len() + 1,
        forall|n: Node| #[trigger]
            entry_nodes(entries.insert(at, entry)).contains(n) <==> entry_nodes(entries).contains(n)
                || n == entry.node,
{
    let nodes = entry_nodes(entries);
    let more = entries.insert(at, entry);
    let after = entry_nodes(more);
    let node = entry.node;
    assert(after =~= nodes.insert(at, node));
    assert forall|i: int| at <= i < nodes.len() implies distance(pivot, node) < #[trigger] distance(
        pivot,
        nodes[i],
    ) by {
        assert(nodes[i] == entries[i].node && nodes[at] == entries[at].node);
        law_distances_never_tie(pivot, nodes[at], node);
        assert(nodes[at].id@ != node.id@);
        assert(distance(pivot, node) < distance(pivot, nodes[at]));
        if i > at {
            assert(distance(pivot, nodes[at]) < distance(pivot, nodes[i]));
        }
    }
    assert forall|i: int, j: int| 0 <= i < j < after.len() implies distance(
        pivot,
        #[trigger] after[i],
    ) < distance(pivot, #[trigger] after[j]) by {
        let i0 = if i < at { i } else { i - 1 };
        let j0 = if j < at { j } else { j - 1 };
        if i == at {
            assert(after[j] == nodes[j0]);
            assert(distance(pivot, node) < distance(pivot, nodes[j0]));
        } else if j == at {
            assert(after[i] == nodes[i0] && nodes[i0] == entries[i0].node);
        } else {
            assert(after[i] == nodes[i0] && after[j] == nodes[j0]);
        }
    }
    assert forall|i: int| 0 <= i < after.len() implies (#[trigger] after[i]).wf() by {
        let i0 = if i < at { i } else { i - 1 };
        if i != at {
            assert(after[i] == nodes[i0]);
        }
    }
    assert forall|i: int| 0 <= i < more.len() implies (#[trigger] more[i]).distance
        == long_id::xor_words(pivot.long_id, more[i].node.long_id) by {
        let i0 = if i < at { i } else { i - 1 };
        if i != at {
            assert(more[i] == entries[i0]);
        }
    }
    assert forall|n: Node| #[trigger] after.contains(n) <==> nodes.contains(n) || n == node by {
        if after.contains(n) && n != node {
            let i = choose|i: int| 0 <= i < after.len() && after[i] == n;
            let i0 = if i < at { i } else { i - 1 };
            assert(nodes[i0] == n);
        }
        if nodes.contains(n) {
            let i0 = choose|i0: int| 0 <= i0 < nodes.len() && nodes[i0] == n;
            let i = if i0 < at { i0 } else { i0 + 1 };
            assert(after[i] == n);
        }
        assert(after[at] == node);
    }
}

proof fn lemma_remove_entry(pivot: Node, entries: Seq<HeapEntry>, at: int)
    requires
        entries_ok(pivot, entries),
        0 <= at < entries.len(),
    ensures
        entries_ok(pivot, entries.remove(at)),
{
    let rest = entries.remove(at);
    let nodes = entry_nodes(entries);
    let left = entry_nodes(rest);
    assert forall|i: int| 0 <= i < left.len() implies (#[trigger] left[i]).wf() by {
        let i0 = if i < at { i } else { i + 1 };
        assert(left[i] == nodes[i0]);
    }
    assert forall|i: int| 0 <= i < rest.len() implies (#[trigger] rest[i]).distance
        == long_id::xor_words(pivot.long_id, rest[i].node.long_id) by {
        let i0 = if i < at { i } else { i + 1 };
        assert(rest[i] == entries[i0]);
    }
    assert forall|i: int, j: int| 0 <= i < j < left.len() implies distance(
        pivot,
        #[trigger] left[i],
    ) < distance(pivot, #[trigger] left[j]) by {
        let i0 = if i < at { i } else { i + 1 };
        let j0 = if j < at { j } else { j + 1 };
        assert(left[i] == nodes[i0] && left[j] == nodes[j0]);
    }
}

} // verus!
