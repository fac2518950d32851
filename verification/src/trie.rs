//! The path index: a ternary trie over UTF-16 code units, stored as a flat
//! node array with 16-bit child indices.
//!
//! Node 0 is the root.  A key is looked up unit by unit: a unit smaller than
//! a node's `ch` moves to `lokid`, a greater one to `hikid`, an equal one to
//! `eqkid` and consumes the unit.  Keys are terminated by an implicit NUL
//! unit; the node holding that NUL is a terminal whose `eqkid` is the stored
//! value rather than a child index.
//!
//! The model of a node array is a map from unit sequences (without the
//! terminator) to values, `trie_view_at`.

use vstd::prelude::*;
use vstd::pervasive::VecAdditionalExecFns;
use crate::text::decode_utf16_string;
use crate::text::encode_utf16_units;
use crate::text::utf16_of;
use crate::file_format::ArchiveError;
use crate::file_format::MAX_NODES;
use crate::file_format::NO_CHILD;
use crate::file_format::Node;

verus! {

/// The child slot `b` of a node: 0 is `lokid`, 1 is `eqkid`, 2 is `hikid`.
pub open spec fn child_of(n: Node, b: int) -> u16 {
    if b == 0 {
        n.lokid
    } else if b == 1 {
        n.eqkid
    } else {
        n.hikid
    }
}

/// Whether slot `b` of node `i` holds a reference to another node.
///
/// The `eqkid` of a terminal (`ch == 0`) holds a value, not a reference.
pub open spec fn has_ref(ns: Seq<Node>, i: int, b: int) -> bool {
    &&& 0 <= i < ns.len()
    &&& 0 <= b < 3
    &&& child_of(ns[i], b) != NO_CHILD
    &&& !(b == 1 && ns[i].ch == 0)
}

/// The node that slot `b` of node `i` references.
pub open spec fn ref_target(ns: Seq<Node>, i: int, b: int) -> int {
    child_of(ns[i], b) as int
}

/// Structural well-formedness: the table is small enough for 16-bit indices
/// and every reference points forward, at a node of the table.
pub open spec fn wf_struct(ns: Seq<Node>) -> bool {
    &&& ns.len() <= MAX_NODES
    &&& forall|i: int, b: int| #[trigger]
        has_ref(ns, i, b) ==> i < ref_target(ns, i, b) < ns.len()
}

/// No two slots reference the same node, and nothing references the root.
///
/// Arrays built by `insert` have this shape; it makes every node reachable
/// along at most one path.
pub open spec fn no_sharing(ns: Seq<Node>) -> bool {
    &&& forall|i1: int, b1: int, i2: int, b2: int|
        #![trigger has_ref(ns, i1, b1), has_ref(ns, i2, b2)]
        has_ref(ns, i1, b1) && has_ref(ns, i2, b2) && !(i1 == i2 && b1 == b2) ==> ref_target(
            ns,
            i1,
            b1,
        ) != ref_target(ns, i2, b2)
    &&& forall|i: int, b: int| #[trigger] has_ref(ns, i, b) ==> ref_target(ns, i, b) != 0
}

/// Prefixes every key of a map with one unit.
pub open spec fn prepend_unit(c: u16, m: Map<Seq<u16>, u16>) -> Map<Seq<u16>, u16> {
    Map::new(
        |k: Seq<u16>| k.len() > 0 && k[0] == c && m.contains_key(k.skip(1)),
        |k: Seq<u16>| m[k.skip(1)],
    )
}

/// The map stored in the subtree rooted at node `i`.
pub open spec fn trie_view_at(ns: Seq<Node>, i: int) -> Map<Seq<u16>, u16>
    decreases ns.len() - i,
    when wf_struct(ns) && 0 <= i
    via trie_view_at_decreases
{
    if i >= ns.len() {
        Map::empty()
    } else {
        let n = ns[i];
        let lo = if n.lokid != NO_CHILD {
            trie_view_at(ns, n.lokid as int)
        } else {
            Map::empty()
        };
        let hi = if n.hikid != NO_CHILD {
            trie_view_at(ns, n.hikid as int)
        } else {
            Map::empty()
        };
        let eq = if n.ch == 0 {
            Map::empty().insert(Seq::empty(), n.eqkid)
        } else if n.eqkid != NO_CHILD {
            prepend_unit(n.ch, trie_view_at(ns, n.eqkid as int))
        } else {
            Map::empty()
        };
        lo.union_prefer_right(eq).union_prefer_right(hi)
    }
}

#[via_fn]
proof fn trie_view_at_decreases(ns: Seq<Node>, i: int) {
    if i < ns.len() {
        assert(has_ref(ns, i, 0) ==> i < ref_target(ns, i, 0) < ns.len());
        assert(has_ref(ns, i, 1) ==> i < ref_target(ns, i, 1) < ns.len());
        assert(has_ref(ns, i, 2) ==> i < ref_target(ns, i, 2) < ns.len());
    }
}

/// The map of the whole table: the subtree of the root.
pub open spec fn table_view(ns: Seq<Node>) -> Map<Seq<u16>, u16> {
    trie_view_at(ns, 0)
}

/// The first unit of a key, with the implicit terminator for the empty key.
pub open spec fn first_unit(k: Seq<u16>) -> int {
    if k.len() == 0 {
        0
    } else {
        k[0] as int
    }
}

/// Ordering well-formedness below node `i`: every key in a `lokid` subtree
/// starts below the node's unit, every key in a `hikid` subtree above it.
pub open spec fn wf_at(ns: Seq<Node>, i: int) -> bool
    decreases ns.len() - i,
    when wf_struct(ns) && 0 <= i
    via wf_at_decreases
{
    if i >= ns.len() {
        true
    } else {
        let n = ns[i];
        &&& (n.lokid != NO_CHILD ==> {
            &&& wf_at(ns, n.lokid as int)
            &&& forall|k: Seq<u16>|
                trie_view_at(ns, n.lokid as int).contains_key(k) ==> #[trigger] first_unit(k)
                    < n.ch
        })
        &&& (n.hikid != NO_CHILD ==> {
            &&& wf_at(ns, n.hikid as int)
            &&& forall|k: Seq<u16>|
                trie_view_at(ns, n.hikid as int).contains_key(k) ==> #[trigger] first_unit(k)
                    > n.ch
        })
        &&& (n.ch != 0 && n.eqkid != NO_CHILD ==> wf_at(ns, n.eqkid as int))
    }
}

#[via_fn]
proof fn wf_at_decreases(ns: Seq<Node>, i: int) {
    if i < ns.len() {
        assert(has_ref(ns, i, 0) ==> i < ref_target(ns, i, 0) < ns.len());
        assert(has_ref(ns, i, 1) ==> i < ref_target(ns, i, 1) < ns.len());
        assert(has_ref(ns, i, 2) ==> i < ref_target(ns, i, 2) < ns.len());
    }
}

/// Full well-formedness of a node array built by `insert`.
pub open spec fn wf(ns: Seq<Node>) -> bool {
    &&& wf_struct(ns)
    &&& no_sharing(ns)
    &&& wf_at(ns, 0)
}

/// Whether node `t` lies in the subtree rooted at node `q`.
pub open spec fn in_subtree(ns: Seq<Node>, q: int, t: int) -> bool
    decreases ns.len() - q,
    when wf_struct(ns) && 0 <= q
    via in_subtree_decreases
{
    if q >= ns.len() {
        false
    } else if q == t {
        true
    } else {
        let n = ns[q];
        ||| (has_ref(ns, q, 0) && in_subtree(ns, n.lokid as int, t))
        ||| (has_ref(ns, q, 1) && in_subtree(ns, n.eqkid as int, t))
        ||| (has_ref(ns, q, 2) && in_subtree(ns, n.hikid as int, t))
    }
}

#[via_fn]
proof fn in_subtree_decreases(ns: Seq<Node>, q: int, t: int) {
    if q < ns.len() && q != t {
        assert(has_ref(ns, q, 0) ==> q < ref_target(ns, q, 0) < ns.len());
        assert(has_ref(ns, q, 1) ==> q < ref_target(ns, q, 1) < ns.len());
        assert(has_ref(ns, q, 2) ==> q < ref_target(ns, q, 2) < ns.len());
    }
}

/// The map stored under child slot `b` of node `i`, empty when the slot
/// holds no reference.
pub open spec fn child_view(ns: Seq<Node>, i: int, b: int) -> Map<Seq<u16>, u16> {
    if has_ref(ns, i, b) {
        trie_view_at(ns, ref_target(ns, i, b))
    } else {
        Map::empty()
    }
}

/// How a node's map decomposes over its three children, guided by the first
/// unit of the key.
pub proof fn lemma_view_decompose(ns: Seq<Node>, i: int)
    requires
        wf_struct(ns),
        0 <= i < ns.len(),
        wf_at(ns, i),
    ensures
        forall|k: Seq<u16>|
            #[trigger] trie_view_at(ns, i).contains_key(k) <==> (if first_unit(k) < ns[i].ch {
                child_view(ns, i, 0).contains_key(k)
            } else if first_unit(k) > ns[i].ch {
                child_view(ns, i, 2).contains_key(k)
            } else if ns[i].ch == 0 {
                k.len() == 0
            } else {
                k.len() > 0 && child_view(ns, i, 1).contains_key(k.skip(1))
            }),
        forall|k: Seq<u16>|
            #[trigger] trie_view_at(ns, i).contains_key(k) ==> trie_view_at(ns, i)[k] == (
            if first_unit(k) < ns[i].ch {
                child_view(ns, i, 0)[k]
            } else if first_unit(k) > ns[i].ch {
                child_view(ns, i, 2)[k]
            } else if ns[i].ch == 0 {
                ns[i].eqkid
            } else {
                child_view(ns, i, 1)[k.skip(1)]
            }),
{
    let n = ns[i];
    let vw = trie_view_at(ns, i);
    let lo = child_view(ns, i, 0);
    let hi = child_view(ns, i, 2);
    let eq = if n.ch == 0 {
        Map::<Seq<u16>, u16>::empty().insert(Seq::empty(), n.eqkid)
    } else if n.eqkid != NO_CHILD {
        prepend_unit(n.ch, trie_view_at(ns, n.eqkid as int))
    } else {
        Map::<Seq<u16>, u16>::empty()
    };
    assert(vw == lo.union_prefer_right(eq).union_prefer_right(hi));
    assert forall|k: Seq<u16>| #[trigger] eq.contains_key(k) implies first_unit(k) == n.ch by {
        if n.ch == 0 {
            assert(k =~= Seq::<u16>::empty());
        }
    }
    assert forall|k: Seq<u16>| #[trigger] lo.contains_key(k) implies first_unit(k) < n.ch by {}
    assert forall|k: Seq<u16>| #[trigger] hi.contains_key(k) implies first_unit(k) > n.ch by {}
    assert forall|k: Seq<u16>| #[trigger]
        trie_view_at(ns, i).contains_key(k) implies (if first_unit(k) < ns[i].ch {
        child_view(ns, i, 0).contains_key(k)
    } else if first_unit(k) > ns[i].ch {
        child_view(ns, i, 2).contains_key(k)
    } else if ns[i].ch == 0 {
        k.len() == 0
    } else {
        k.len() > 0 && child_view(ns, i, 1).contains_key(k.skip(1))
    }) by {
        assert(lo.contains_key(k) || eq.contains_key(k) || hi.contains_key(k));
        if first_unit(k) == n.ch && n.ch == 0 {
            assert(eq.contains_key(k));
            assert(k =~= Seq::<u16>::empty());
        }
        if first_unit(k) == n.ch && n.ch != 0 {
            assert(eq.contains_key(k));
            assert(n.eqkid != NO_CHILD);
            assert(has_ref(ns, i, 1));
        }
    }
    assert forall|k: Seq<u16>|
        (if first_unit(k) < ns[i].ch {
            child_view(ns, i, 0).contains_key(k)
        } else if first_unit(k) > ns[i].ch {
            child_view(ns, i, 2).contains_key(k)
        } else if ns[i].ch == 0 {
            k.len() == 0
        } else {
            k.len() > 0 && child_view(ns, i, 1).contains_key(k.skip(1))
        }) implies #[trigger] trie_view_at(ns, i).contains_key(k) by {
        if first_unit(k) < n.ch {
            assert(lo.contains_key(k));
        } else if first_unit(k) > n.ch {
            assert(hi.contains_key(k));
        } else if n.ch == 0 {
            assert(k =~= Seq::<u16>::empty());
            assert(eq.contains_key(k));
        } else {
            assert(has_ref(ns, i, 1));
            assert(eq =~= prepend_unit(n.ch, trie_view_at(ns, n.eqkid as int)));
            assert(k.len() > 0 && k[0] == n.ch);
            assert(eq.contains_key(k));
        }
    }
    assert forall|k: Seq<u16>| #[trigger]
        trie_view_at(ns, i).contains_key(k) implies trie_view_at(ns, i)[k] == (if first_unit(k)
            < ns[i].ch {
        child_view(ns, i, 0)[k]
    } else if first_unit(k) > ns[i].ch {
        child_view(ns, i, 2)[k]
    } else if ns[i].ch == 0 {
        ns[i].eqkid
    } else {
        child_view(ns, i, 1)[k.skip(1)]
    }) by {
        if first_unit(k) < n.ch {
            assert(lo.contains_key(k) && !eq.contains_key(k) && !hi.contains_key(k));
            assert(trie_view_at(ns, i)[k] == lo[k]);
        } else if first_unit(k) > n.ch {
            assert(hi.contains_key(k));
            assert(trie_view_at(ns, i)[k] == hi[k]);
        } else if n.ch == 0 {
            assert(eq.contains_key(k) && !hi.contains_key(k));
            assert(k =~= Seq::<u16>::empty());
            assert(trie_view_at(ns, i)[k] == eq[k]);
            assert(eq[k] == n.eqkid);
        } else {
            assert(eq.contains_key(k) && !hi.contains_key(k));
            assert(trie_view_at(ns, i)[k] == eq[k]);
            assert(has_ref(ns, i, 1));
            assert(eq[k] == trie_view_at(ns, n.eqkid as int)[k.skip(1)]);
        }
    }
}

/// Replacing one node outside a subtree leaves the subtree's map unchanged,
/// even if the table also grows at the end.
pub proof fn lemma_view_frame(ns1: Seq<Node>, ns2: Seq<Node>, p: int, q: int)
    requires
        wf_struct(ns1),
        wf_struct(ns2),
        ns1.len() <= ns2.len(),
        forall|j: int| 0 <= j < ns1.len() && j != p ==> ns2[j] == ns1[j],
        0 <= q < ns1.len(),
        !in_subtree(ns1, q, p),
    ensures
        trie_view_at(ns2, q) == trie_view_at(ns1, q),
        wf_at(ns1, q) ==> wf_at(ns2, q),
    decreases ns1.len() - q,
{
    assert(in_subtree(ns1, q, q));
    assert(q != p);
    let n = ns1[q];
    assert(ns2[q] == n);
    if n.lokid != NO_CHILD {
        assert(has_ref(ns1, q, 0));
        assert(in_subtree(ns1, n.lokid as int, p) ==> in_subtree(ns1, q, p));
        lemma_view_frame(ns1, ns2, p, n.lokid as int);
    }
    if n.hikid != NO_CHILD {
        assert(has_ref(ns1, q, 2));
        assert(in_subtree(ns1, n.hikid as int, p) ==> in_subtree(ns1, q, p));
        lemma_view_frame(ns1, ns2, p, n.hikid as int);
    }
    if n.ch != 0 && n.eqkid != NO_CHILD {
        assert(has_ref(ns1, q, 1));
        assert(in_subtree(ns1, n.eqkid as int, p) ==> in_subtree(ns1, q, p));
        lemma_view_frame(ns1, ns2, p, n.eqkid as int);
    }
    assert(trie_view_at(ns2, q) == trie_view_at(ns1, q));
}

/// The map and well-formedness of a terminator-ended chain of fresh nodes at
/// the end of the table: each chain suffix holds exactly one key.
pub proof fn lemma_chain_view(ns: Seq<Node>, start: int, u: Seq<u16>, v: u16, j: int)
    requires
        wf_struct(ns),
        u.len() >= 1,
        u[u.len() - 1] == 0,
        forall|t: int| 0 <= t < u.len() - 1 ==> u[t] != 0,
        0 <= start,
        start + u.len() == ns.len(),
        forall|t: int|
            0 <= t < u.len() - 1 ==> ns[start + t] == (Node {
                ch: u[t],
                lokid: NO_CHILD,
                eqkid: (start + t + 1) as u16,
                hikid: NO_CHILD,
            }),
        ns[ns.len() - 1] == (Node { ch: 0u16, lokid: NO_CHILD, eqkid: v, hikid: NO_CHILD }),
        0 <= j < u.len(),
    ensures
        trie_view_at(ns, start + j) == Map::<Seq<u16>, u16>::empty().insert(
            u.subrange(j, u.len() - 1),
            v,
        ),
        wf_at(ns, start + j),
    decreases u.len() - j,
{
    let key = u.subrange(j, u.len() - 1);
    if j == u.len() - 1 {
        assert(ns[start + j].ch == 0);
        assert(key =~= Seq::<u16>::empty());
        assert(trie_view_at(ns, start + j) =~= Map::<Seq<u16>, u16>::empty().insert(key, v));
    } else {
        lemma_chain_view(ns, start, u, v, j + 1);
        let n = ns[start + j];
        assert(n.ch == u[j] && u[j] != 0);
        assert(start + j + 1 <= ns.len() - 1 <= MAX_NODES - 1);
        assert(n.eqkid == (start + j + 1) as u16 && n.eqkid != NO_CHILD);
        let sub = trie_view_at(ns, start + j + 1);
        let subkey = u.subrange(j + 1, u.len() - 1);
        assert(trie_view_at(ns, start + j) == Map::<Seq<u16>, u16>::empty().union_prefer_right(
            prepend_unit(n.ch, sub),
        ).union_prefer_right(Map::empty()));
        assert forall|k: Seq<u16>| #[trigger]
            prepend_unit(n.ch, sub).contains_key(k) implies k == key by {
            assert(k.skip(1) == subkey);
            assert(k =~= seq![n.ch] + k.skip(1));
            assert(key =~= seq![n.ch] + subkey);
        }
        assert(key.len() > 0 && key[0] == n.ch);
        assert(key.skip(1) =~= subkey);
        assert(prepend_unit(n.ch, sub).contains_key(key));
        assert(prepend_unit(n.ch, sub)[key] == v);
        assert(trie_view_at(ns, start + j) =~= Map::<Seq<u16>, u16>::empty().insert(key, v));
    }
}

/// Any node reached from elsewhere is reached through some referencing slot.
pub proof fn lemma_reach_parent(ns: Seq<Node>, q: int, t: int)
    requires
        wf_struct(ns),
        0 <= q,
        in_subtree(ns, q, t),
        q != t,
    ensures
        exists|r: int, b: int|
            #![trigger has_ref(ns, r, b)]
            has_ref(ns, r, b) && ref_target(ns, r, b) == t && in_subtree(ns, q, r),
    decreases ns.len() - q,
{
    let n = ns[q];
    if has_ref(ns, q, 0) && in_subtree(ns, n.lokid as int, t) {
        if n.lokid as int == t {
            assert(has_ref(ns, q, 0) && ref_target(ns, q, 0) == t && in_subtree(ns, q, q));
        } else {
            lemma_reach_parent(ns, n.lokid as int, t);
            let (r, b) = choose|r: int, b: int|
                #![trigger has_ref(ns, r, b)]
                has_ref(ns, r, b) && ref_target(ns, r, b) == t && in_subtree(ns, n.lokid as int, r);
            assert(has_ref(ns, r, b) && ref_target(ns, r, b) == t && in_subtree(ns, q, r));
        }
    } else if has_ref(ns, q, 1) && in_subtree(ns, n.eqkid as int, t) {
        if n.eqkid as int == t {
            assert(has_ref(ns, q, 1) && ref_target(ns, q, 1) == t && in_subtree(ns, q, q));
        } else {
            lemma_reach_parent(ns, n.eqkid as int, t);
            let (r, b) = choose|r: int, b: int|
                #![trigger has_ref(ns, r, b)]
                has_ref(ns, r, b) && ref_target(ns, r, b) == t && in_subtree(ns, n.eqkid as int, r);
            assert(has_ref(ns, r, b) && ref_target(ns, r, b) == t && in_subtree(ns, q, r));
        }
    } else {
        assert(has_ref(ns, q, 2) && in_subtree(ns, n.hikid as int, t));
        if n.hikid as int == t {
            assert(has_ref(ns, q, 2) && ref_target(ns, q, 2) == t && in_subtree(ns, q, q));
        } else {
            lemma_reach_parent(ns, n.hikid as int, t);
            let (r, b) = choose|r: int, b: int|
                #![trigger has_ref(ns, r, b)]
                has_ref(ns, r, b) && ref_target(ns, r, b) == t && in_subtree(ns, n.hikid as int, r);
            assert(has_ref(ns, r, b) && ref_target(ns, r, b) == t && in_subtree(ns, q, r));
        }
    }
}

/// One visited node of an insert walk: the node, the child slot taken, and
/// how many key units were consumed before reaching it.
pub ghost struct Visit {
    /// Index of the visited node.
    pub node: int,
    /// Child slot taken at this node: 0 low, 1 equal, 2 high.
    pub branch: int,
    /// Number of key units consumed before this visit.
    pub depth: int,
}

/// The visits form a chain of child references starting at the root.
///
/// The last visit's slot may be empty; every earlier one references the next
/// visited node.
pub open spec fn visits_linked(ns: Seq<Node>, vs: Seq<Visit>) -> bool {
    &&& vs.len() > 0
    &&& vs[0].node == 0
    &&& forall|j: int|
        0 <= j < vs.len() ==> {
            &&& 0 <= (#[trigger] vs[j]).node < ns.len()
            &&& 0 <= vs[j].branch < 3
            &&& !(vs[j].branch == 1 && ns[vs[j].node].ch == 0)
        }
    &&& forall|j: int|
        0 <= j < vs.len() - 1 ==> child_of(ns[(#[trigger] vs[j]).node], vs[j].branch) != NO_CHILD
            && ref_target(ns, vs[j].node, vs[j].branch) == vs[j + 1].node
}

/// Visited nodes strictly increase along the walk.
pub proof fn lemma_visits_increasing(ns: Seq<Node>, vs: Seq<Visit>, j1: int, j2: int)
    requires
        wf_struct(ns),
        visits_linked(ns, vs),
        0 <= j1 < j2 < vs.len(),
    ensures
        vs[j1].node < vs[j2].node,
    decreases j2 - j1,
{
    assert(has_ref(ns, vs[j2 - 1].node, vs[j2 - 1].branch));
    assert(vs[j2 - 1].node < vs[j2].node);
    if j1 < j2 - 1 {
        lemma_visits_increasing(ns, vs, j1, j2 - 1);
    }
}

/// In a table without sharing, only the walk's own nodes can reach a node
/// of the walk.
pub proof fn lemma_reach_only_path(ns: Seq<Node>, vs: Seq<Visit>, j: int, x: int)
    requires
        wf_struct(ns),
        no_sharing(ns),
        visits_linked(ns, vs),
        0 <= j < vs.len(),
        0 <= x < ns.len(),
        in_subtree(ns, x, vs[j].node),
    ensures
        exists|i: int| 0 <= i <= j && (#[trigger] vs[i]).node == x,
    decreases j,
{
    if x == vs[j].node {
        assert(0 <= j <= j && vs[j].node == x);
    } else if j == 0 {
        lemma_reach_parent(ns, x, 0);
        let (r, b) = choose|r: int, b: int|
            #![trigger has_ref(ns, r, b)]
            has_ref(ns, r, b) && ref_target(ns, r, b) == 0 && in_subtree(ns, x, r);
        assert(false);
    } else {
        lemma_reach_parent(ns, x, vs[j].node);
        let (r, b) = choose|r: int, b: int|
            #![trigger has_ref(ns, r, b)]
            has_ref(ns, r, b) && ref_target(ns, r, b) == vs[j].node && in_subtree(ns, x, r);
        assert(has_ref(ns, vs[j - 1].node, vs[j - 1].branch));
        assert(ref_target(ns, vs[j - 1].node, vs[j - 1].branch) == vs[j].node);
        assert(r == vs[j - 1].node && b == vs[j - 1].branch);
        lemma_reach_only_path(ns, vs, j - 1, x);
        let i = choose|i: int| 0 <= i <= j - 1 && (#[trigger] vs[i]).node == x;
        assert(0 <= i <= j && vs[i].node == x);
    }
}

/// A slot of a visited node that is not the slot the walk took cannot reach
/// the walk's final node.
pub proof fn lemma_other_children_unreach(ns: Seq<Node>, vs: Seq<Visit>, j: int, b2: int)
    requires
        wf_struct(ns),
        no_sharing(ns),
        visits_linked(ns, vs),
        0 <= j < vs.len(),
        has_ref(ns, vs[j].node, b2),
        !(j < vs.len() - 1 && b2 == vs[j].branch),
    ensures
        !in_subtree(ns, ref_target(ns, vs[j].node, b2), vs[vs.len() - 1].node),
{
    let c = ref_target(ns, vs[j].node, b2);
    let p = vs[vs.len() - 1].node;
    if in_subtree(ns, c, p) {
        assert(0 <= c < ns.len());
        lemma_reach_only_path(ns, vs, vs.len() - 1, c);
        let i = choose|i: int| 0 <= i <= vs.len() - 1 && (#[trigger] vs[i]).node == c;
        if i == 0 {
            assert(c == 0);
            assert(false);
        } else {
            assert(has_ref(ns, vs[i - 1].node, vs[i - 1].branch));
            assert(ref_target(ns, vs[i - 1].node, vs[i - 1].branch) == c);
            assert(vs[i - 1].node == vs[j].node && vs[i - 1].branch == b2);
            if i - 1 != j {
                lemma_visits_increasing(
                    ns,
                    vs,
                    if i - 1 < j {
                        i - 1
                    } else {
                        j
                    },
                    if i - 1 < j {
                        j
                    } else {
                        i - 1
                    },
                );
                assert(false);
            }
            assert(false);
        }
    }
}

/// How a node's map changes when exactly one child slot's map gains one key
/// and everything else stays as it was.
#[verifier::rlimit(60)]
pub proof fn lemma_node_update(
    old_ns: Seq<Node>,
    new_ns: Seq<Node>,
    q: int,
    b_star: int,
    rel: Seq<u16>,
    rel_star: Seq<u16>,
    v: u16,
)
    requires
        wf_struct(old_ns),
        wf_struct(new_ns),
        0 <= q < old_ns.len(),
        q < new_ns.len(),
        0 <= b_star < 3,
        new_ns[q].ch == old_ns[q].ch,
        forall|b: int| 0 <= b < 3 && b != b_star ==> child_of(new_ns[q], b) == child_of(old_ns[q], b),
        child_view(new_ns, q, b_star) == child_view(old_ns, q, b_star).insert(rel_star, v),
        forall|b: int|
            0 <= b < 3 && b != b_star ==> #[trigger] child_view(new_ns, q, b) == child_view(
                old_ns,
                q,
                b,
            ),
        forall|b: int|
            0 <= b < 3 && has_ref(new_ns, q, b) ==> wf_at(
                new_ns,
                #[trigger] ref_target(new_ns, q, b),
            ),
        wf_at(old_ns, q),
        b_star == 0 ==> first_unit(rel) < old_ns[q].ch && rel_star == rel,
        b_star == 2 ==> first_unit(rel) > old_ns[q].ch && rel_star == rel,
        b_star == 1 ==> old_ns[q].ch != 0 && first_unit(rel) == old_ns[q].ch && rel.len() > 0
            && rel_star == rel.skip(1),
    ensures
        trie_view_at(new_ns, q) == trie_view_at(old_ns, q).insert(rel, v),
        wf_at(new_ns, q),
{
    let ch = old_ns[q].ch;
    let no = old_ns[q];
    let nn = new_ns[q];
    let lo_o = child_view(old_ns, q, 0);
    let eq_o = child_view(old_ns, q, 1);
    let hi_o = child_view(old_ns, q, 2);
    let lo_n = child_view(new_ns, q, 0);
    let eq_n = child_view(new_ns, q, 1);
    let hi_n = child_view(new_ns, q, 2);
    let eqpart_o = if ch == 0 {
        Map::<Seq<u16>, u16>::empty().insert(Seq::empty(), no.eqkid)
    } else {
        prepend_unit(ch, eq_o)
    };
    let eqpart_n = if ch == 0 {
        Map::<Seq<u16>, u16>::empty().insert(Seq::empty(), nn.eqkid)
    } else {
        prepend_unit(ch, eq_n)
    };
    assert(ch != 0 ==> prepend_unit(ch, Map::<Seq<u16>, u16>::empty()) =~= Map::<
        Seq<u16>,
        u16,
    >::empty());
    assert(trie_view_at(old_ns, q) == lo_o.union_prefer_right(eqpart_o).union_prefer_right(hi_o))
        by {
        if ch != 0 && !has_ref(old_ns, q, 1) {
            assert(eqpart_o =~= Map::<Seq<u16>, u16>::empty());
        }
    }
    assert(trie_view_at(new_ns, q) == lo_n.union_prefer_right(eqpart_n).union_prefer_right(hi_n))
        by {
        if ch != 0 && !has_ref(new_ns, q, 1) {
            assert(eqpart_n =~= Map::<Seq<u16>, u16>::empty());
        }
    }
    if b_star != 1 {
        assert(child_of(new_ns[q], 1) == child_of(old_ns[q], 1));
        assert(nn.eqkid == no.eqkid);
        assert(child_view(new_ns, q, 1) == child_view(old_ns, q, 1));
        assert(eqpart_n == eqpart_o);
    }
    // ordering facts, old side from wf_at, new side from the inserted key
    assert(forall|k: Seq<u16>| #[trigger] lo_o.contains_key(k) ==> first_unit(k) < ch);
    assert(forall|k: Seq<u16>| #[trigger] hi_o.contains_key(k) ==> first_unit(k) > ch);
    assert forall|k: Seq<u16>| #[trigger] lo_n.contains_key(k) implies first_unit(k) < ch by {
        if b_star == 0 {
            assert(lo_n == lo_o.insert(rel, v));
            if k != rel {
                assert(lo_o.contains_key(k));
            }
        }
    }
    assert forall|k: Seq<u16>| #[trigger] hi_n.contains_key(k) implies first_unit(k) > ch by {
        if b_star == 2 {
            assert(hi_n == hi_o.insert(rel, v));
            if k != rel {
                assert(hi_o.contains_key(k));
            }
        }
    }
    assert forall|k: Seq<u16>| #[trigger] eqpart_o.contains_key(k) implies first_unit(k)
        == ch by {
        if ch == 0 {
            assert(k =~= Seq::<u16>::empty());
        }
    }
    assert forall|k: Seq<u16>| #[trigger] eqpart_n.contains_key(k) implies first_unit(k)
        == ch by {
        if ch == 0 {
            assert(k =~= Seq::<u16>::empty());
        }
    }
    if b_star == 1 {
        assert(eq_n == eq_o.insert(rel.skip(1), v));
        assert forall|k: Seq<u16>| #[trigger]
            eqpart_n.contains_key(k) implies (eqpart_o.contains_key(k) || k == rel) by {
            if k.skip(1) != rel.skip(1) {
                assert(eq_o.contains_key(k.skip(1)));
            } else {
                if k != rel {
                    assert(k =~= seq![ch] + k.skip(1));
                    assert(rel =~= seq![ch] + rel.skip(1));
                }
            }
        }
        assert(eqpart_n.contains_key(rel));
        assert(eqpart_n[rel] == v);
        assert forall|k: Seq<u16>|
            #![trigger eqpart_o.contains_key(k)]
            eqpart_o.contains_key(k) && k != rel implies eqpart_n.contains_key(k) && eqpart_n[k]
            == eqpart_o[k] by {
            if k.skip(1) == rel.skip(1) {
                assert(k =~= seq![ch] + k.skip(1));
                assert(rel =~= seq![ch] + rel.skip(1));
                assert(false);
            }
        }
    }
    let vo = trie_view_at(old_ns, q);
    let vn = trie_view_at(new_ns, q);
    assert forall|k: Seq<u16>| #[trigger]
        vn.contains_key(k) implies vo.insert(rel, v).contains_key(k) && vn[k] == vo.insert(
        rel,
        v,
    )[k] by {
        if k == rel {
        } else {
            if first_unit(k) < ch {
                assert(lo_n.contains_key(k) && vn[k] == lo_n[k]);
                if b_star == 0 {
                    assert(lo_o.contains_key(k) && lo_o[k] == lo_n[k]);
                } else {
                    assert(lo_o == lo_n);
                }
                assert(vo.contains_key(k) && vo[k] == lo_o[k]);
            } else if first_unit(k) > ch {
                assert(hi_n.contains_key(k) && vn[k] == hi_n[k]);
                if b_star == 2 {
                    assert(hi_o.contains_key(k) && hi_o[k] == hi_n[k]);
                } else {
                    assert(hi_o == hi_n);
                }
                assert(vo.contains_key(k) && vo[k] == hi_o[k]);
            } else {
                assert(eqpart_n.contains_key(k) && vn[k] == eqpart_n[k]);
                if b_star == 1 {
                    assert(eqpart_o.contains_key(k) && eqpart_o[k] == eqpart_n[k]);
                } else {
                    assert(eqpart_o == eqpart_n);
                }
                assert(vo.contains_key(k) && vo[k] == eqpart_o[k]);
            }
        }
        if k == rel {
            if b_star == 0 {
                assert(lo_n.contains_key(rel) && lo_n[rel] == v);
                assert(vn.contains_key(rel));
                assert(!eqpart_n.contains_key(rel) && !hi_n.contains_key(rel));
                assert(vn[rel] == v);
            } else if b_star == 2 {
                assert(hi_n.contains_key(rel) && hi_n[rel] == v);
                assert(vn[rel] == v);
            } else {
                assert(eqpart_n.contains_key(rel) && eqpart_n[rel] == v);
                assert(!hi_n.contains_key(rel));
                assert(vn[rel] == v);
            }
        }
    }
    assert forall|k: Seq<u16>| #[trigger]
        vo.insert(rel, v).contains_key(k) implies vn.contains_key(k) by {
        if k == rel {
            if b_star == 0 {
                assert(lo_n.contains_key(rel));
            } else if b_star == 2 {
                assert(hi_n.contains_key(rel));
            } else {
                assert(eqpart_n.contains_key(rel));
            }
        } else {
            assert(vo.contains_key(k));
            if first_unit(k) < ch {
                assert(lo_o.contains_key(k));
                if b_star == 0 {
                    assert(lo_n.contains_key(k));
                } else {
                    assert(lo_o == lo_n);
                }
            } else if first_unit(k) > ch {
                assert(hi_o.contains_key(k));
                if b_star == 2 {
                    assert(hi_n.contains_key(k));
                } else {
                    assert(hi_o == hi_n);
                }
            } else {
                assert(eqpart_o.contains_key(k));
            }
        }
    }
    assert(vn =~= vo.insert(rel, v));
}

/// The whole situation after an unsuccessful walk appended a chain:
/// `old_ns` is the table before, `new_ns` after, `vs` the walk, `kk` the
/// terminated key, `start` the chain's first index and `sidx` how many key
/// units the walk consumed.
pub open spec fn insert_shape(
    old_ns: Seq<Node>,
    new_ns: Seq<Node>,
    vs: Seq<Visit>,
    kk: Seq<u16>,
    v: u16,
    start: int,
    sidx: int,
) -> bool {
    let p = vs[vs.len() - 1].node;
    let b_att = vs[vs.len() - 1].branch;
    &&& visits_linked(old_ns, vs)
    &&& kk.len() >= 1
    &&& kk[kk.len() - 1] == 0
    &&& (forall|t: int| 0 <= t < kk.len() - 1 ==> kk[t] != 0)
    &&& (forall|j: int|
        0 <= j < vs.len() ==> {
            let vj = #[trigger] vs[j];
            &&& 0 <= vj.depth < kk.len()
            &&& (vj.branch == 0 ==> kk[vj.depth] < old_ns[vj.node].ch)
            &&& (vj.branch == 2 ==> kk[vj.depth] > old_ns[vj.node].ch)
            &&& (vj.branch == 1 ==> kk[vj.depth] == old_ns[vj.node].ch && old_ns[vj.node].ch != 0)
        })
    &&& vs[0].depth == 0
    &&& (forall|j: int|
        0 <= j < vs.len() - 1 ==> (#[trigger] vs[j + 1]).depth == vs[j].depth + (if vs[j].branch
            == 1 {
            1int
        } else {
            0int
        }))
    &&& child_of(old_ns[p], b_att) == NO_CHILD
    &&& sidx == vs[vs.len() - 1].depth + (if b_att == 1 {
        1int
    } else {
        0int
    })
    &&& 0 <= sidx <= kk.len() - 1
    &&& start == old_ns.len()
    &&& new_ns.len() == start + (kk.len() - sidx)
    &&& new_ns.len() <= MAX_NODES
    &&& new_ns[p].ch == old_ns[p].ch
    &&& child_of(new_ns[p], b_att) == start as u16
    &&& (forall|b: int| 0 <= b < 3 && b != b_att ==> child_of(#[trigger] new_ns[p], b) == child_of(
        old_ns[p],
        b,
    ))
    &&& (forall|i: int| 0 <= i < start && i != p ==> #[trigger] new_ns[i] == old_ns[i])
    &&& (forall|t: int|
        0 <= t < kk.len() - sidx - 1 ==> #[trigger] new_ns[start + t] == (Node {
            ch: kk[sidx + t],
            lokid: NO_CHILD,
            eqkid: (start + t + 1) as u16,
            hikid: NO_CHILD,
        }))
    &&& new_ns[new_ns.len() - 1] == (Node { ch: 0u16, lokid: NO_CHILD, eqkid: v, hikid: NO_CHILD })
}

/// After the chain is attached, every visited node's map has gained exactly
/// the one key the walk was looking for, relative to its own depth.
#[verifier::rlimit(100)]
pub proof fn lemma_insert_update(
    old_ns: Seq<Node>,
    new_ns: Seq<Node>,
    vs: Seq<Visit>,
    kk: Seq<u16>,
    v: u16,
    start: int,
    sidx: int,
    j: int,
)
    requires
        wf_struct(old_ns),
        no_sharing(old_ns),
        wf_struct(new_ns),
        insert_shape(old_ns, new_ns, vs, kk, v, start, sidx),
        0 <= j < vs.len(),
        wf_at(old_ns, vs[j].node),
    ensures
        trie_view_at(new_ns, vs[j].node) == trie_view_at(old_ns, vs[j].node).insert(
            kk.subrange(vs[j].depth, kk.len() - 1),
            v,
        ),
        wf_at(new_ns, vs[j].node),
    decreases vs.len() - j,
{
    let q = vs[j].node;
    let bj = vs[j].branch;
    let dj = vs[j].depth;
    let p = vs[vs.len() - 1].node;
    let b_att = vs[vs.len() - 1].branch;
    let rel = kk.subrange(dj, kk.len() - 1);
    let ch = old_ns[q].ch;
    let u = kk.subrange(sidx, kk.len() as int);
    assert(u.len() == new_ns.len() - start);
    assert(u[u.len() - 1] == 0);

    // the appended chain holds exactly the remaining key
    assert forall|t: int| 0 <= t < u.len() - 1 implies new_ns[start + t] == (Node {
        ch: u[t],
        lokid: NO_CHILD,
        eqkid: (start + t + 1) as u16,
        hikid: NO_CHILD,
    }) by {
        assert(u[t] == kk[sidx + t]);
    }
    lemma_chain_view(new_ns, start, u, v, 0);
    let chain_key = u.subrange(0, u.len() - 1);
    assert(chain_key =~= kk.subrange(sidx, kk.len() - 1));
    assert(trie_view_at(new_ns, start) == Map::<Seq<u16>, u16>::empty().insert(chain_key, v));

    // the first unit of the remaining key matches the recorded comparison
    assert(first_unit(rel) == kk[dj] as int) by {
        if dj < kk.len() - 1 {
            assert(rel[0] == kk[dj]);
        }
    }

    if j == vs.len() - 1 {
        // the attach node: its empty slot now holds the chain
        assert(q == p && bj == b_att);
        assert(!has_ref(old_ns, q, bj));
        assert(child_view(old_ns, q, bj) == Map::<Seq<u16>, u16>::empty());
        assert(start < new_ns.len() <= MAX_NODES);
        assert((start as u16) != NO_CHILD && (start as u16) as int == start);
        assert(has_ref(new_ns, q, bj));
        assert(ref_target(new_ns, q, bj) == start);
        assert(child_view(new_ns, q, bj) == child_view(old_ns, q, bj).insert(chain_key, v));
        let rel_star = if bj == 1 {
            rel.skip(1)
        } else {
            rel
        };
        assert(rel_star =~= chain_key);
        assert forall|b: int|
            0 <= b < 3 && b != bj implies #[trigger] child_view(new_ns, q, b) == child_view(
            old_ns,
            q,
            b,
        ) && (has_ref(new_ns, q, b) ==> wf_at(new_ns, ref_target(new_ns, q, b))) by {
            assert(child_of(new_ns[q], b) == child_of(old_ns[q], b));
            if has_ref(old_ns, q, b) {
                lemma_other_children_unreach(old_ns, vs, j, b);
                let c = ref_target(old_ns, q, b);
                assert(0 <= c < old_ns.len());
                assert(wf_at(old_ns, c));
                lemma_view_frame(old_ns, new_ns, p, c);
            }
        }
        assert(has_ref(new_ns, q, bj) ==> wf_at(new_ns, ref_target(new_ns, q, bj)));
        assert forall|b: int| 0 <= b < 3 && has_ref(new_ns, q, b) implies wf_at(
            new_ns,
            #[trigger] ref_target(new_ns, q, b),
        ) by {
            if b != bj {
                assert(child_view(new_ns, q, b) == child_view(old_ns, q, b));
            }
        }
        if bj == 1 {
            assert(ch != 0 && kk[dj] == ch);
            assert(rel.len() > 0);
        }
        lemma_node_update(old_ns, new_ns, q, bj, rel, rel_star, v);
    } else {
        // an inner node of the walk: its taken slot leads to the next one
        let c = vs[j + 1].node;
        assert(has_ref(old_ns, q, bj));
        assert(ref_target(old_ns, q, bj) == c);
        assert(wf_at(old_ns, c)) by {
            if bj == 0 {
                assert(old_ns[q].lokid != NO_CHILD);
            } else if bj == 2 {
                assert(old_ns[q].hikid != NO_CHILD);
            } else {
                assert(ch != 0 && old_ns[q].eqkid != NO_CHILD);
            }
        }
        lemma_insert_update(old_ns, new_ns, vs, kk, v, start, sidx, j + 1);
        let dj1 = vs[j + 1].depth;
        let rel_child = kk.subrange(dj1, kk.len() - 1);
        lemma_visits_increasing(old_ns, vs, j, vs.len() - 1);
        assert(q < p);
        assert(new_ns[q] == old_ns[q]);
        assert(has_ref(new_ns, q, bj) && ref_target(new_ns, q, bj) == c);
        assert(child_view(old_ns, q, bj) == trie_view_at(old_ns, c));
        assert(child_view(new_ns, q, bj) == trie_view_at(new_ns, c));
        let rel_star = if bj == 1 {
            rel.skip(1)
        } else {
            rel
        };
        assert(rel_star =~= rel_child) by {
            if bj == 1 {
                assert(dj1 == dj + 1);
            } else {
                assert(dj1 == dj);
            }
        }
        assert(child_view(new_ns, q, bj) == child_view(old_ns, q, bj).insert(rel_star, v));
        assert forall|b: int|
            0 <= b < 3 && b != bj implies #[trigger] child_view(new_ns, q, b) == child_view(
            old_ns,
            q,
            b,
        ) && (has_ref(new_ns, q, b) ==> wf_at(new_ns, ref_target(new_ns, q, b))) by {
            assert(child_of(new_ns[q], b) == child_of(old_ns[q], b));
            if has_ref(old_ns, q, b) {
                lemma_other_children_unreach(old_ns, vs, j, b);
                let cc = ref_target(old_ns, q, b);
                assert(0 <= cc < old_ns.len());
                assert(wf_at(old_ns, cc));
                lemma_view_frame(old_ns, new_ns, p, cc);
            }
        }
        assert(has_ref(new_ns, q, bj) ==> wf_at(new_ns, ref_target(new_ns, q, bj)));
        assert forall|b: int| 0 <= b < 3 && has_ref(new_ns, q, b) implies wf_at(
            new_ns,
            #[trigger] ref_target(new_ns, q, b),
        ) by {
            if b != bj {
                assert(child_view(new_ns, q, b) == child_view(old_ns, q, b));
            }
        }
        if bj == 1 {
            assert(ch != 0 && kk[dj] == ch);
            assert(rel.len() > 0);
        }
        lemma_node_update(old_ns, new_ns, q, bj, rel, rel_star, v);
    }
}

// ---------------------------------------------------------------------------
// Depth-first enumeration
// ---------------------------------------------------------------------------

/// The entries a depth-first walk emits below node `i`, each key prefixed by
/// `base`: the node's own terminal first, then the low subtree, the equal
/// subtree (one unit deeper), and the high subtree.
pub open spec fn dfs_entries(ns: Seq<Node>, i: int, base: Seq<u16>) -> Seq<(Seq<u16>, u16)>
    decreases ns.len() - i,
    when wf_struct(ns) && 0 <= i
    via dfs_entries_decreases
{
    if i >= ns.len() {
        Seq::empty()
    } else {
        let n = ns[i];
        let self_part: Seq<(Seq<u16>, u16)> = if n.ch == 0 {
            seq![(base, n.eqkid)]
        } else {
            Seq::empty()
        };
        let lo_part: Seq<(Seq<u16>, u16)> = if n.lokid != NO_CHILD {
            dfs_entries(ns, n.lokid as int, base)
        } else {
            Seq::empty()
        };
        let eq_part: Seq<(Seq<u16>, u16)> = if n.ch != 0 && n.eqkid != NO_CHILD {
            dfs_entries(ns, n.eqkid as int, base.push(n.ch))
        } else {
            Seq::empty()
        };
        let hi_part: Seq<(Seq<u16>, u16)> = if n.hikid != NO_CHILD {
            dfs_entries(ns, n.hikid as int, base)
        } else {
            Seq::empty()
        };
        self_part + lo_part + eq_part + hi_part
    }
}

#[via_fn]
proof fn dfs_entries_decreases(ns: Seq<Node>, i: int, base: Seq<u16>) {
    if i < ns.len() {
        assert(has_ref(ns, i, 0) ==> i < ref_target(ns, i, 0) < ns.len());
        assert(has_ref(ns, i, 1) ==> i < ref_target(ns, i, 1) < ns.len());
        assert(has_ref(ns, i, 2) ==> i < ref_target(ns, i, 2) < ns.len());
    }
}

/// Number of nodes in the subtree of node `i`.
pub open spec fn subtree_size(ns: Seq<Node>, i: int) -> int
    decreases ns.len() - i,
    when wf_struct(ns) && 0 <= i
    via subtree_size_decreases
{
    if i >= ns.len() {
        0
    } else {
        let n = ns[i];
        let lo = if n.lokid != NO_CHILD {
            subtree_size(ns, n.lokid as int)
        } else {
            0
        };
        let eq = if n.ch != 0 && n.eqkid != NO_CHILD {
            subtree_size(ns, n.eqkid as int)
        } else {
            0
        };
        let hi = if n.hikid != NO_CHILD {
            subtree_size(ns, n.hikid as int)
        } else {
            0
        };
        1 + lo + eq + hi
    }
}

#[via_fn]
proof fn subtree_size_decreases(ns: Seq<Node>, i: int) {
    if i < ns.len() {
        assert(has_ref(ns, i, 0) ==> i < ref_target(ns, i, 0) < ns.len());
        assert(has_ref(ns, i, 1) ==> i < ref_target(ns, i, 1) < ns.len());
        assert(has_ref(ns, i, 2) ==> i < ref_target(ns, i, 2) < ns.len());
    }
}

/// Subtree sizes are not negative.
pub proof fn lemma_subtree_size_nonneg(ns: Seq<Node>, i: int)
    requires
        wf_struct(ns),
        0 <= i,
    ensures
        subtree_size(ns, i) >= 0,
        i < ns.len() ==> subtree_size(ns, i) >= 1,
    decreases ns.len() - i,
{
    if i < ns.len() {
        let n = ns[i];
        if n.lokid != NO_CHILD {
            assert(has_ref(ns, i, 0));
            lemma_subtree_size_nonneg(ns, n.lokid as int);
        }
        if n.ch != 0 && n.eqkid != NO_CHILD {
            assert(has_ref(ns, i, 1));
            lemma_subtree_size_nonneg(ns, n.eqkid as int);
        }
        if n.hikid != NO_CHILD {
            assert(has_ref(ns, i, 2));
            lemma_subtree_size_nonneg(ns, n.hikid as int);
        }
    }
}

/// Where the depth-first traversal stands with respect to one node.
#[derive(Clone, Copy, PartialEq, Eq, Structural, Debug)]
pub enum Stage {
    /// The node has not been worked on yet.
    Start,
    /// Its terminal and low subtree are done.
    AfterLo,
    /// Its equal subtree is done too.
    AfterEq,
}

/// One suspended node of the traversal.
#[derive(Clone, Copy, PartialEq, Eq, Structural, Debug)]
pub struct Frame {
    /// The node's index.
    pub nid: u16,
    /// How far the node has been processed.
    pub stage: Stage,
}

/// The units a frame contributes to the prefix of everything above it.
pub open spec fn frame_prefix(ns: Seq<Node>, f: Frame) -> Seq<u16> {
    if f.stage == Stage::AfterEq && ns[f.nid as int].ch != 0 {
        seq![ns[f.nid as int].ch]
    } else {
        Seq::empty()
    }
}

/// The prefix accumulated by the first `j` frames of the stack.
pub open spec fn base_of(ns: Seq<Node>, fs: Seq<Frame>, j: int) -> Seq<u16>
    decreases j,
{
    if j <= 0 {
        Seq::empty()
    } else {
        base_of(ns, fs, j - 1) + frame_prefix(ns, fs[j - 1])
    }
}

/// The entries a frame still has to emit, given its prefix.
pub open spec fn pend(ns: Seq<Node>, f: Frame, base: Seq<u16>) -> Seq<(Seq<u16>, u16)> {
    let i = f.nid as int;
    let n = ns[i];
    let lo_part: Seq<(Seq<u16>, u16)> = if n.lokid != NO_CHILD {
        dfs_entries(ns, n.lokid as int, base)
    } else {
        Seq::empty()
    };
    let eq_part: Seq<(Seq<u16>, u16)> = if n.ch != 0 && n.eqkid != NO_CHILD {
        dfs_entries(ns, n.eqkid as int, base.push(n.ch))
    } else {
        Seq::empty()
    };
    let hi_part: Seq<(Seq<u16>, u16)> = if n.hikid != NO_CHILD {
        dfs_entries(ns, n.hikid as int, base)
    } else {
        Seq::empty()
    };
    match f.stage {
        Stage::Start => dfs_entries(ns, i, base),
        Stage::AfterLo => eq_part + hi_part,
        Stage::AfterEq => hi_part,
    }
}

/// What the first `j` frames, processed top first, still have to emit.
pub open spec fn todo(ns: Seq<Node>, fs: Seq<Frame>, j: int) -> Seq<(Seq<u16>, u16)>
    decreases j,
{
    if j <= 0 {
        Seq::empty()
    } else {
        pend(ns, fs[j - 1], base_of(ns, fs, j - 1)) + todo(ns, fs, j - 1)
    }
}

/// The termination weight of one frame.
pub open spec fn fmeasure(ns: Seq<Node>, f: Frame) -> int {
    let i = f.nid as int;
    let n = ns[i];
    let s_eq = if n.ch != 0 && n.eqkid != NO_CHILD {
        subtree_size(ns, n.eqkid as int)
    } else {
        0
    };
    let s_hi = if n.hikid != NO_CHILD {
        subtree_size(ns, n.hikid as int)
    } else {
        0
    };
    match f.stage {
        Stage::Start => 3 * subtree_size(ns, i),
        Stage::AfterLo => 2 + 3 * (s_eq + s_hi),
        Stage::AfterEq => 1 + 3 * s_hi,
    }
}

/// The termination weight of the whole stack.
pub open spec fn stack_measure(ns: Seq<Node>, fs: Seq<Frame>) -> int
    decreases fs.len(),
{
    if fs.len() == 0 {
        0
    } else {
        stack_measure(ns, fs.drop_last()) + fmeasure(ns, fs.last())
    }
}

/// Pushing a frame adds its weight.
pub proof fn lemma_measure_push(ns: Seq<Node>, fs: Seq<Frame>, f: Frame)
    ensures
        stack_measure(ns, fs.push(f)) == stack_measure(ns, fs) + fmeasure(ns, f),
{
    assert(fs.push(f).drop_last() =~= fs);
    assert(fs.push(f).last() == f);
}

/// Frame weights are positive for frames on nodes of the table.
pub proof fn lemma_fmeasure_pos(ns: Seq<Node>, f: Frame)
    requires
        wf_struct(ns),
        f.nid < ns.len(),
    ensures
        fmeasure(ns, f) >= 1,
{
    let i = f.nid as int;
    let n = ns[i];
    lemma_subtree_size_nonneg(ns, i);
    if n.ch != 0 && n.eqkid != NO_CHILD {
        assert(has_ref(ns, i, 1));
        lemma_subtree_size_nonneg(ns, n.eqkid as int);
    }
    if n.hikid != NO_CHILD {
        assert(has_ref(ns, i, 2));
        lemma_subtree_size_nonneg(ns, n.hikid as int);
    }
    if n.lokid != NO_CHILD {
        assert(has_ref(ns, i, 0));
        lemma_subtree_size_nonneg(ns, n.lokid as int);
    }
}

/// A stack of valid frames has a non-negative weight.
pub proof fn lemma_stack_measure_nonneg(ns: Seq<Node>, fs: Seq<Frame>)
    requires
        wf_struct(ns),
        forall|j: int| 0 <= j < fs.len() ==> (#[trigger] fs[j]).nid < ns.len(),
    ensures
        stack_measure(ns, fs) >= 0,
    decreases fs.len(),
{
    if fs.len() > 0 {
        lemma_stack_measure_nonneg(ns, fs.drop_last());
        lemma_fmeasure_pos(ns, fs.last());
    }
}

/// Prefixes and pending work only depend on the frames below.
pub proof fn lemma_base_todo_stable(ns: Seq<Node>, fs1: Seq<Frame>, fs2: Seq<Frame>, j: int)
    requires
        0 <= j <= fs1.len(),
        j <= fs2.len(),
        forall|t: int| 0 <= t < j ==> fs1[t] == fs2[t],
    ensures
        base_of(ns, fs1, j) == base_of(ns, fs2, j),
        todo(ns, fs1, j) == todo(ns, fs2, j),
    decreases j,
{
    if j > 0 {
        lemma_base_todo_stable(ns, fs1, fs2, j - 1);
    }
}

/// The views of the collected entries.
pub open spec fn entry_views(s: Seq<(Vec<u16>, u16)>) -> Seq<(Seq<u16>, u16)> {
    s.map_values(|p: (Vec<u16>, u16)| (p.0@, p.1))
}

/// Shared shape of the four segments of one node's depth-first output.
pub open spec fn dfs_parts(ns: Seq<Node>, i: int, base: Seq<u16>) -> (
    Seq<(Seq<u16>, u16)>,
    Seq<(Seq<u16>, u16)>,
    Seq<(Seq<u16>, u16)>,
    Seq<(Seq<u16>, u16)>,
) {
    let n = ns[i];
    (
        if n.ch == 0 {
            seq![(base, n.eqkid)]
        } else {
            Seq::empty()
        },
        if n.lokid != NO_CHILD {
            dfs_entries(ns, n.lokid as int, base)
        } else {
            Seq::empty()
        },
        if n.ch != 0 && n.eqkid != NO_CHILD {
            dfs_entries(ns, n.eqkid as int, base.push(n.ch))
        } else {
            Seq::empty()
        },
        if n.hikid != NO_CHILD {
            dfs_entries(ns, n.hikid as int, base)
        } else {
            Seq::empty()
        },
    )
}

/// Every pair the depth-first walk emits extends the base prefix with a key
/// that the subtree's map stores, at that pair's value.
#[verifier::rlimit(100)]
pub proof fn lemma_dfs_sound(ns: Seq<Node>, i: int, base: Seq<u16>)
    requires
        wf_struct(ns),
        0 <= i,
        wf_at(ns, i),
    ensures
        forall|j: int|
            0 <= j < dfs_entries(ns, i, base).len() ==> {
                let e = #[trigger] dfs_entries(ns, i, base)[j];
                &&& e.0.len() >= base.len()
                &&& e.0.subrange(0, base.len() as int) == base
                &&& trie_view_at(ns, i).contains_key(e.0.skip(base.len() as int))
                &&& trie_view_at(ns, i)[e.0.skip(base.len() as int)] == e.1
            },
    decreases ns.len() - i,
{
    let es = dfs_entries(ns, i, base);
    let m = trie_view_at(ns, i);
    if i >= ns.len() {
        assert(es.len() == 0);
        return ;
    }
    let n = ns[i];
    let ch = n.ch;
    lemma_view_decompose(ns, i);
    let (self_part, lo_part, eq_part, hi_part) = dfs_parts(ns, i, base);
    let eq_base = base.push(ch);
    assert(es == self_part + lo_part + eq_part + hi_part);
    let m_lo = child_view(ns, i, 0);
    let m_eq = child_view(ns, i, 1);
    let m_hi = child_view(ns, i, 2);
    if n.lokid != NO_CHILD {
        assert(has_ref(ns, i, 0));
        lemma_dfs_sound(ns, n.lokid as int, base);
    }
    if ch != 0 && n.eqkid != NO_CHILD {
        assert(has_ref(ns, i, 1));
        lemma_dfs_sound(ns, n.eqkid as int, eq_base);
    }
    if n.hikid != NO_CHILD {
        assert(has_ref(ns, i, 2));
        lemma_dfs_sound(ns, n.hikid as int, base);
    }
    let c0 = self_part.len() as int;
    let c1 = c0 + lo_part.len() as int;
    let c2 = c1 + eq_part.len() as int;
    assert forall|j: int| 0 <= j < es.len() implies {
        let e = #[trigger] es[j];
        &&& e.0.len() >= base.len()
        &&& e.0.subrange(0, base.len() as int) == base
        &&& m.contains_key(e.0.skip(base.len() as int))
        &&& m[e.0.skip(base.len() as int)] == e.1
    } by {
        let e = es[j];
        if j < c0 {
            assert(e == (base, n.eqkid));
            assert(e.0.skip(base.len() as int) =~= Seq::<u16>::empty());
            assert(e.0.subrange(0, base.len() as int) =~= base);
            assert(first_unit(Seq::<u16>::empty()) == 0 && ch == 0);
            assert(m.contains_key(Seq::<u16>::empty()));
        } else if j < c1 {
            assert(e == lo_part[j - c0]);
            let rel = e.0.skip(base.len() as int);
            assert(m_lo.contains_key(rel) && m_lo[rel] == e.1);
            assert(first_unit(rel) < ch);
            assert(m.contains_key(rel) && m[rel] == e.1);
        } else if j < c2 {
            assert(e == eq_part[j - c1]);
            let rel2 = e.0.skip(eq_base.len() as int);
            assert(m_eq.contains_key(rel2) && m_eq[rel2] == e.1);
            assert(e.0.subrange(0, eq_base.len() as int) == eq_base);
            let rel = e.0.skip(base.len() as int);
            assert(rel.len() > 0 && rel[0] == ch) by {
                assert(e.0[base.len() as int] == eq_base[base.len() as int]);
            }
            assert(rel.skip(1) =~= rel2);
            assert(e.0.subrange(0, base.len() as int) =~= base);
            assert(first_unit(rel) == ch && ch != 0);
            assert(m.contains_key(rel) && m[rel] == e.1);
        } else {
            assert(e == hi_part[j - c2]);
            let rel = e.0.skip(base.len() as int);
            assert(m_hi.contains_key(rel) && m_hi[rel] == e.1);
            assert(first_unit(rel) > ch);
            assert(m.contains_key(rel) && m[rel] == e.1);
        }
    }
}

/// Every key the subtree's map stores is emitted by the depth-first walk,
/// prefixed by the base, at its stored value.
#[verifier::rlimit(100)]
pub proof fn lemma_dfs_complete(ns: Seq<Node>, i: int, base: Seq<u16>)
    requires
        wf_struct(ns),
        0 <= i,
        wf_at(ns, i),
    ensures
        forall|k: Seq<u16>| #[trigger]
            trie_view_at(ns, i).contains_key(k) ==> exists|j: int|
                0 <= j < dfs_entries(ns, i, base).len() && (#[trigger] dfs_entries(ns, i, base)[j]).0
                    == base + k && dfs_entries(ns, i, base)[j].1 == trie_view_at(ns, i)[k],
    decreases ns.len() - i,
{
    let es = dfs_entries(ns, i, base);
    let m = trie_view_at(ns, i);
    if i >= ns.len() {
        assert(m =~= Map::<Seq<u16>, u16>::empty());
        assert forall|k: Seq<u16>| #[trigger] m.contains_key(k) implies false by {}
        return ;
    }
    let n = ns[i];
    let ch = n.ch;
    lemma_view_decompose(ns, i);
    let (self_part, lo_part, eq_part, hi_part) = dfs_parts(ns, i, base);
    let eq_base = base.push(ch);
    assert(es == self_part + lo_part + eq_part + hi_part);
    let m_lo = child_view(ns, i, 0);
    let m_eq = child_view(ns, i, 1);
    let m_hi = child_view(ns, i, 2);
    if n.lokid != NO_CHILD {
        assert(has_ref(ns, i, 0));
        lemma_dfs_complete(ns, n.lokid as int, base);
    }
    if ch != 0 && n.eqkid != NO_CHILD {
        assert(has_ref(ns, i, 1));
        lemma_dfs_complete(ns, n.eqkid as int, eq_base);
    }
    if n.hikid != NO_CHILD {
        assert(has_ref(ns, i, 2));
        lemma_dfs_complete(ns, n.hikid as int, base);
    }
    let c0 = self_part.len() as int;
    let c1 = c0 + lo_part.len() as int;
    let c2 = c1 + eq_part.len() as int;
    assert forall|k: Seq<u16>| #[trigger] m.contains_key(k) implies exists|j: int|
        0 <= j < es.len() && (#[trigger] es[j]).0 == base + k && es[j].1 == m[k] by {
        if first_unit(k) < ch {
            assert(m_lo.contains_key(k) && m_lo[k] == m[k]);
            let j0 = choose|j0: int|
                0 <= j0 < lo_part.len() && (#[trigger] lo_part[j0]).0 == base + k && lo_part[j0].1
                    == m_lo[k];
            assert(es[c0 + j0] == lo_part[j0]);
            assert(0 <= c0 + j0 < es.len() && es[c0 + j0].0 == base + k && es[c0 + j0].1 == m[k]);
        } else if first_unit(k) > ch {
            assert(m_hi.contains_key(k) && m_hi[k] == m[k]);
            let j0 = choose|j0: int|
                0 <= j0 < hi_part.len() && (#[trigger] hi_part[j0]).0 == base + k && hi_part[j0].1
                    == m_hi[k];
            assert(es[c2 + j0] == hi_part[j0]);
            assert(0 <= c2 + j0 < es.len() && es[c2 + j0].0 == base + k && es[c2 + j0].1 == m[k]);
        } else if ch == 0 {
            assert(k.len() == 0);
            assert(k =~= Seq::<u16>::empty());
            assert(m[k] == n.eqkid);
            assert(es[0] == (base, n.eqkid));
            assert(base + k =~= base);
            assert(0 <= 0 < es.len() && es[0].0 == base + k && es[0].1 == m[k]);
        } else {
            assert(k.len() > 0 && k[0] == ch);
            assert(m_eq.contains_key(k.skip(1)) && m_eq[k.skip(1)] == m[k]);
            let j0 = choose|j0: int|
                0 <= j0 < eq_part.len() && (#[trigger] eq_part[j0]).0 == eq_base + k.skip(1)
                    && eq_part[j0].1 == m_eq[k.skip(1)];
            assert(es[c1 + j0] == eq_part[j0]);
            assert(eq_base + k.skip(1) =~= base + k);
            assert(0 <= c1 + j0 < es.len() && es[c1 + j0].0 == base + k && es[c1 + j0].1 == m[k]);
        }
    }
}

/// The depth-first walk emits no key twice.
#[verifier::rlimit(100)]
pub proof fn lemma_dfs_distinct(ns: Seq<Node>, i: int, base: Seq<u16>)
    requires
        wf_struct(ns),
        0 <= i,
        wf_at(ns, i),
    ensures
        forall|j1: int, j2: int|
            0 <= j1 < j2 < dfs_entries(ns, i, base).len() ==> (#[trigger] dfs_entries(
                ns,
                i,
                base,
            )[j1]).0 != (#[trigger] dfs_entries(ns, i, base)[j2]).0,
    decreases ns.len() - i,
{
    let es = dfs_entries(ns, i, base);
    let m = trie_view_at(ns, i);
    if i >= ns.len() {
        return ;
    }
    let n = ns[i];
    let ch = n.ch;
    lemma_view_decompose(ns, i);
    let (self_part, lo_part, eq_part, hi_part) = dfs_parts(ns, i, base);
    let eq_base = base.push(ch);
    assert(es == self_part + lo_part + eq_part + hi_part);
    let m_lo = child_view(ns, i, 0);
    let m_eq = child_view(ns, i, 1);
    let m_hi = child_view(ns, i, 2);
    if n.lokid != NO_CHILD {
        assert(has_ref(ns, i, 0));
        lemma_dfs_sound(ns, n.lokid as int, base);
        lemma_dfs_distinct(ns, n.lokid as int, base);
    }
    if ch != 0 && n.eqkid != NO_CHILD {
        assert(has_ref(ns, i, 1));
        lemma_dfs_sound(ns, n.eqkid as int, eq_base);
        lemma_dfs_distinct(ns, n.eqkid as int, eq_base);
    }
    if n.hikid != NO_CHILD {
        assert(has_ref(ns, i, 2));
        lemma_dfs_sound(ns, n.hikid as int, base);
        lemma_dfs_distinct(ns, n.hikid as int, base);
    }
    let c0 = self_part.len() as int;
    let c1 = c0 + lo_part.len() as int;
    let c2 = c1 + eq_part.len() as int;
    assert forall|j1: int, j2: int| 0 <= j1 < j2 < es.len() implies (#[trigger] es[j1]).0 != (
    #[trigger] es[j2]).0 by {
        let e1 = es[j1];
        let e2 = es[j2];
        let r1 = e1.0.skip(base.len() as int);
        let r2 = e2.0.skip(base.len() as int);
        if j1 < c0 {
            assert(ch == 0);
            assert(e1.0 == base);
            if j2 < c1 {
                assert(es[j2] == lo_part[j2 - c0]);
                assert(m_lo.contains_key(r2));
                assert(first_unit(r2) < 0);
            } else if j2 < c2 {
                assert(eq_part.len() == 0);
            } else {
                assert(es[j2] == hi_part[j2 - c2]);
                assert(m_hi.contains_key(r2));
                assert(first_unit(r2) > 0);
                assert(r2.len() > 0);
                assert(e2.0.len() > base.len());
            }
        } else {
            if j1 < c1 {
                assert(es[j1] == lo_part[j1 - c0]);
                assert(m_lo.contains_key(r1) && first_unit(r1) < ch);
                if j2 < c1 {
                    assert(es[j2] == lo_part[j2 - c0]);
                    assert(lo_part[j1 - c0].0 != lo_part[j2 - c0].0);
                } else if j2 < c2 {
                    assert(es[j2] == eq_part[j2 - c1]);
                    assert(m_eq.contains_key(e2.0.skip(eq_base.len() as int)));
                    assert(r2.len() > 0 && r2[0] == ch) by {
                        assert(e2.0.subrange(0, eq_base.len() as int) == eq_base);
                        assert(e2.0[base.len() as int] == eq_base[base.len() as int]);
                    }
                    assert(first_unit(r1) != first_unit(r2));
                    assert(r1 != r2);
                } else {
                    assert(es[j2] == hi_part[j2 - c2]);
                    assert(m_hi.contains_key(r2) && first_unit(r2) > ch);
                    assert(r1 != r2);
                }
            } else if j1 < c2 {
                assert(es[j1] == eq_part[j1 - c1]);
                assert(r1.len() > 0 && r1[0] == ch) by {
                    assert(e1.0.subrange(0, eq_base.len() as int) == eq_base);
                    assert(e1.0[base.len() as int] == eq_base[base.len() as int]);
                }
                if j2 < c2 {
                    assert(es[j2] == eq_part[j2 - c1]);
                    assert(eq_part[j1 - c1].0 != eq_part[j2 - c1].0);
                } else {
                    assert(es[j2] == hi_part[j2 - c2]);
                    assert(m_hi.contains_key(r2) && first_unit(r2) > ch);
                    assert(first_unit(r1) == ch);
                    assert(r1 != r2);
                }
            } else {
                assert(es[j1] == hi_part[j1 - c2]);
                assert(es[j2] == hi_part[j2 - c2]);
                assert(hi_part[j1 - c2].0 != hi_part[j2 - c2].0);
            }
        }
    }
}

/// Which child slot of which node the walk last left.
pub enum ParentNid {
    /// No node visited yet: the table is empty.
    Unset,
    /// Slot `lokid` of the node at this index.
    Lokid(usize),
    /// Slot `eqkid` of the node at this index.
    Eqkid(usize),
    /// Slot `hikid` of the node at this index.
    Hikid(usize),
}

/// Whether a `ParentNid` names the node and slot of a visit.
pub open spec fn pnid_matches(pn: ParentNid, vt: Visit) -> bool {
    match pn {
        ParentNid::Unset => false,
        ParentNid::Lokid(p) => vt.node == p && vt.branch == 0,
        ParentNid::Eqkid(p) => vt.node == p && vt.branch == 1,
        ParentNid::Hikid(p) => vt.node == p && vt.branch == 2,
    }
}

impl ParentNid {
    /// Writes `nid` into the slot this value names; `Unset` writes nothing.
    pub fn update(&self, nodes: &mut Vec<Node>, nid: usize)
        requires
            match *self {
                ParentNid::Unset => true,
                ParentNid::Lokid(p) => p < old(nodes)@.len(),
                ParentNid::Eqkid(p) => p < old(nodes)@.len(),
                ParentNid::Hikid(p) => p < old(nodes)@.len(),
            },
            nid <= 0xFFFE,
        ensures
            final(nodes)@.len() == old(nodes)@.len(),
            *self matches ParentNid::Unset ==> final(nodes)@ == old(nodes)@,
            forall|q: int|
                0 <= q < old(nodes)@.len() && (match *self {
                    ParentNid::Unset => true,
                    ParentNid::Lokid(p) => q != p,
                    ParentNid::Eqkid(p) => q != p,
                    ParentNid::Hikid(p) => q != p,
                }) ==> final(nodes)@[q] == old(nodes)@[q],
            *self matches ParentNid::Lokid(p) ==> final(nodes)@[p as int] == (Node {
                lokid: nid as u16,
                ..old(nodes)@[p as int]
            }),
            *self matches ParentNid::Eqkid(p) ==> final(nodes)@[p as int] == (Node {
                eqkid: nid as u16,
                ..old(nodes)@[p as int]
            }),
            *self matches ParentNid::Hikid(p) ==> final(nodes)@[p as int] == (Node {
                hikid: nid as u16,
                ..old(nodes)@[p as int]
            }),
    {
        match self {
            ParentNid::Unset => {},
            ParentNid::Lokid(p) => {
                let mut n = nodes[*p];
                n.lokid = nid as u16;
                nodes.set(*p, n);
            },
            ParentNid::Eqkid(p) => {
                let mut n = nodes[*p];
                n.eqkid = nid as u16;
                nodes.set(*p, n);
            },
            ParentNid::Hikid(p) => {
                let mut n = nodes[*p];
                n.hikid = nid as u16;
                nodes.set(*p, n);
            },
        }
    }
}

/// The path index under construction or reconstruction.
pub struct LookupTable {
    /// The flat node array; node 0, when present, is the root.
    pub nodes: Vec<Node>,
}

impl LookupTable {
    /// The map this table represents.
    pub open spec fn view_map(&self) -> Map<Seq<u16>, u16> {
        table_view(self.nodes@)
    }

    /// Whether the table is a well-formed trie as `insert` builds it.
    pub open spec fn well_formed(&self) -> bool {
        wf(self.nodes@)
    }

    /// An empty table.
    pub fn new() -> (r: LookupTable)
        ensures
            r.nodes@ =~= Seq::<Node>::empty(),
            r.well_formed(),
            r.view_map() =~= Map::<Seq<u16>, u16>::empty(),
    {
        let t = LookupTable { nodes: Vec::new() };
        proof {
            assert forall|i1: int, b1: int| !has_ref(t.nodes@, i1, b1) by {}
        }
        t
    }

    /// Wraps a node array read back from an archive.
    pub fn from_nodes(nodes: Vec<Node>) -> (r: LookupTable)
        ensures
            r.nodes@ == nodes@,
    {
        LookupTable { nodes }
    }

    /// Checks structural well-formedness of a node array that came from
    /// untrusted bytes: size under the 16-bit ceiling and forward references.
    #[verifier::loop_isolation(false)]
    pub fn check_structure(&self) -> (r: bool)
        ensures
            r == wf_struct(self.nodes@),
    {
        let ns = &self.nodes;
        if ns.len() > MAX_NODES {
            proof {
                assert(!wf_struct(ns@));
            }
            return false;
        }
        let len = ns.len();
        let mut i: usize = 0;
        while i < len
            invariant
                i <= len,
                forall|q: int, b: int| #[trigger]
                    has_ref(ns@, q, b) && q < i ==> q < ref_target(ns@, q, b) < len,
            decreases len - i,
        {
            let n = ns[i];
            let iu16: u16 = i as u16;
            if n.lokid != NO_CHILD && (n.lokid <= iu16 || n.lokid as usize >= len) {
                proof {
                    assert(has_ref(ns@, i as int, 0));
                    assert(!wf_struct(ns@));
                }
                return false;
            }
            if n.hikid != NO_CHILD && (n.hikid <= iu16 || n.hikid as usize >= len) {
                proof {
                    assert(has_ref(ns@, i as int, 2));
                    assert(!wf_struct(ns@));
                }
                return false;
            }
            if n.ch != 0 && n.eqkid != NO_CHILD && (n.eqkid <= iu16 || n.eqkid as usize >= len) {
                proof {
                    assert(has_ref(ns@, i as int, 1));
                    assert(!wf_struct(ns@));
                }
                return false;
            }
            proof {
                assert forall|b: int| has_ref(ns@, i as int, b) implies i < ref_target(
                    ns@,
                    i as int,
                    b,
                ) < len by {}
            }
            i += 1;
        }
        true
    }

    /// Inserts a key given as UTF-16 units, with its implicit terminator.
    ///
    /// If the exact key is already present, returns its stored value and
    /// changes nothing.  Otherwise appends nodes for the unmatched suffix and
    /// returns 0; when the appended nodes would push the table over the
    /// 16-bit ceiling, nothing changes and the insert is rejected.
    #[verifier::loop_isolation(false)]
    #[verifier::rlimit(100)]
    pub fn insert_units(&mut self, units: &Vec<u16>, v: u16) -> (r: Result<u16, ArchiveError>)
        requires
            old(self).well_formed(),
            forall|j: int| 0 <= j < units@.len() ==> units@[j] != 0,
        ensures
            final(self).well_formed(),
            match r {
                Ok(val) => {
                    if old(self).view_map().contains_key(units@) {
                        &&& val == old(self).view_map()[units@]
                        &&& final(self).nodes@ == old(self).nodes@
                    } else {
                        &&& val == 0
                        &&& final(self).view_map() == old(self).view_map().insert(units@, v)
                        &&& old(self).nodes@.len() + units@.len() + 1 <= MAX_NODES
                        &&& final(self).nodes@.len() <= old(self).nodes@.len() + units@.len() + 1
                        &&& final(self).nodes@.len() >= old(self).nodes@.len() + 1
                    }
                },
                Err(e) => {
                    &&& e == ArchiveError::LimitExceeded
                    &&& final(self).nodes@ == old(self).nodes@
                    &&& !old(self).view_map().contains_key(units@)
                    &&& old(self).nodes@.len() + units@.len() + 1 > MAX_NODES
                },
            },
    {
        let ghost old_ns = self.nodes@;
        let ghost key = units@;
        let ghost kk = units@ + seq![0u16];
        let len = self.nodes.len();
        let mut nid: usize = 0;
        let mut sidx: usize = 0;
        let mut pnid = ParentNid::Unset;
        let ghost mut vs: Seq<Visit> = Seq::empty();

        proof {
            assert(key.skip(0) =~= key);
        }
        while nid < len
            invariant
                sidx <= key.len(),
                nid <= 0xFFFF,
                vs.len() == 0 ==> nid == 0 && sidx == 0 && pnid matches ParentNid::Unset,
                vs.len() > 0 ==> {
                    &&& visits_linked(old_ns, vs)
                    &&& child_of(old_ns[vs[vs.len() - 1].node], vs[vs.len() - 1].branch) as int
                        == nid
                    &&& pnid_matches(pnid, vs[vs.len() - 1])
                    &&& vs[0].depth == 0
                    &&& sidx == vs[vs.len() - 1].depth + (if vs[vs.len() - 1].branch == 1 {
                        1int
                    } else {
                        0int
                    })
                },
                forall|j: int|
                    0 <= j < vs.len() ==> {
                        let vj = #[trigger] vs[j];
                        &&& 0 <= vj.depth < kk.len()
                        &&& (vj.branch == 0 ==> kk[vj.depth] < old_ns[vj.node].ch)
                        &&& (vj.branch == 2 ==> kk[vj.depth] > old_ns[vj.node].ch)
                        &&& (vj.branch == 1 ==> kk[vj.depth] == old_ns[vj.node].ch
                            && old_ns[vj.node].ch != 0)
                    },
                forall|j: int|
                    0 <= j < vs.len() - 1 ==> (#[trigger] vs[j + 1]).depth == vs[j].depth + (
                    if vs[j].branch == 1 {
                        1int
                    } else {
                        0int
                    }),
                wf_at(old_ns, nid as int),
                nid < len ==> (table_view(old_ns).contains_key(key) <==> trie_view_at(
                    old_ns,
                    nid as int,
                ).contains_key(key.skip(sidx as int))),
                nid < len && table_view(old_ns).contains_key(key) ==> table_view(old_ns)[key]
                    == trie_view_at(old_ns, nid as int)[key.skip(sidx as int)],
                nid >= len ==> !table_view(old_ns).contains_key(key),
            decreases 65536 - nid,
        {
            let n = self.nodes[nid];
            let sch: u16 = if sidx < units.len() {
                units[sidx]
            } else {
                0
            };
            let ghost rel = key.skip(sidx as int);
            proof {
                assert(sch == kk[sidx as int]);
                assert(first_unit(rel) == sch as int) by {
                    if sidx < key.len() {
                        assert(rel[0] == key[sidx as int]);
                    }
                }
                lemma_view_decompose(old_ns, nid as int);
            }
            if sch < n.ch {
                proof {
                    let vt = Visit { node: nid as int, branch: 0, depth: sidx as int };
                    let vs2 = vs.push(vt);
                    assert(vs2[vs2.len() - 1] == vt);
                    assert(forall|j: int| 0 <= j < vs.len() ==> vs2[j] == vs[j]);
                    if n.lokid == NO_CHILD {
                        assert(child_view(old_ns, nid as int, 0) =~= Map::<Seq<u16>, u16>::empty());
                        assert(!trie_view_at(old_ns, nid as int).contains_key(rel));
                    } else {
                        assert(has_ref(old_ns, nid as int, 0));
                        assert(child_view(old_ns, nid as int, 0) == trie_view_at(
                            old_ns,
                            n.lokid as int,
                        ));
                    }
                    vs = vs2;
                }
                pnid = ParentNid::Lokid(nid);
                nid = n.lokid as usize;
            } else if sch > n.ch {
                proof {
                    let vt = Visit { node: nid as int, branch: 2, depth: sidx as int };
                    let vs2 = vs.push(vt);
                    assert(vs2[vs2.len() - 1] == vt);
                    assert(forall|j: int| 0 <= j < vs.len() ==> vs2[j] == vs[j]);
                    if n.hikid == NO_CHILD {
                        assert(child_view(old_ns, nid as int, 2) =~= Map::<Seq<u16>, u16>::empty());
                        assert(!trie_view_at(old_ns, nid as int).contains_key(rel));
                    } else {
                        assert(has_ref(old_ns, nid as int, 2));
                        assert(child_view(old_ns, nid as int, 2) == trie_view_at(
                            old_ns,
                            n.hikid as int,
                        ));
                    }
                    vs = vs2;
                }
                pnid = ParentNid::Hikid(nid);
                nid = n.hikid as usize;
            } else {
                if sch == 0 {
                    proof {
                        assert(sidx == key.len());
                        assert(rel =~= Seq::<u16>::empty());
                        assert(trie_view_at(old_ns, nid as int).contains_key(rel));
                        assert(trie_view_at(old_ns, nid as int)[rel] == n.eqkid);
                        assert(table_view(old_ns).contains_key(key));
                        assert(table_view(old_ns)[key] == n.eqkid);
                    }
                    return Ok(n.eqkid);
                }
                proof {
                    assert(sidx < key.len());
                    let vt = Visit { node: nid as int, branch: 1, depth: sidx as int };
                    let vs2 = vs.push(vt);
                    assert(vs2[vs2.len() - 1] == vt);
                    assert(forall|j: int| 0 <= j < vs.len() ==> vs2[j] == vs[j]);
                    assert(rel.len() > 0 && rel[0] == n.ch);
                    assert(rel.skip(1) =~= key.skip(sidx + 1));
                    if n.eqkid == NO_CHILD {
                        assert(child_view(old_ns, nid as int, 1) =~= Map::<Seq<u16>, u16>::empty());
                        assert(!trie_view_at(old_ns, nid as int).contains_key(rel));
                    } else {
                        assert(has_ref(old_ns, nid as int, 1));
                        assert(child_view(old_ns, nid as int, 1) == trie_view_at(
                            old_ns,
                            n.eqkid as int,
                        ));
                    }
                    vs = vs2;
                }
                pnid = ParentNid::Eqkid(nid);
                sidx += 1;
                nid = n.eqkid as usize;
            }
        }

        // the key is not present; reject if the suffix cannot fit
        if units.len() >= MAX_NODES - len {
            return Err(ArchiveError::LimitExceeded);
        }

        let start = len;
        let total = units.len() + 1;
        pnid.update(&mut self.nodes, start);
        let ghost ns_mid = self.nodes@;
        let mut j = sidx;
        while j < total
            invariant
                sidx <= j <= total,
                self.nodes@.len() == start + (j - sidx),
                forall|t: int| 0 <= t < start ==> #[trigger] self.nodes@[t] == ns_mid[t],
                forall|t: int|
                    start <= t < start + (j - sidx) ==> #[trigger] self.nodes@[t] == (Node {
                        ch: kk[sidx + (t - start)],
                        lokid: NO_CHILD,
                        eqkid: if sidx + (t - start) == key.len() {
                            v
                        } else {
                            (t + 1) as u16
                        },
                        hikid: NO_CHILD,
                    }),
            decreases total - j,
        {
            let ch_u: u16 = if j < units.len() {
                units[j]
            } else {
                0
            };
            let eq_u: u16 = if j == units.len() {
                v
            } else {
                (start + (j - sidx) + 1) as u16
            };
            proof {
                assert(ch_u == kk[j as int]);
            }
            self.nodes.push(Node { ch: ch_u, lokid: NO_CHILD, eqkid: eq_u, hikid: NO_CHILD });
            j += 1;
        }

        proof {
            let new_ns = self.nodes@;
            let chain_len = kk.len() - sidx;
            assert(new_ns.len() == start + chain_len);
            assert(new_ns.len() <= MAX_NODES);
            assert(kk[kk.len() - 1] == 0);
            assert(forall|t: int| 0 <= t < kk.len() - 1 ==> kk[t] != 0);
            assert(new_ns.len() - 1 == start + (chain_len - 1));
            assert(new_ns[new_ns.len() - 1].ch == kk[kk.len() - 1]);
            assert(new_ns[new_ns.len() - 1] == (Node {
                ch: 0u16,
                lokid: NO_CHILD,
                eqkid: v,
                hikid: NO_CHILD,
            }));

            if vs.len() == 0 {
                // the table was empty: the chain is the whole trie
                assert(start == 0 && sidx == 0);
                assert(ns_mid =~= old_ns);
                assert(old_ns.len() == 0);
                assert(wf_struct(new_ns)) by {
                    assert forall|i: int, b: int| #[trigger]
                        has_ref(new_ns, i, b) implies i < ref_target(new_ns, i, b)
                        < new_ns.len() by {
                        assert(new_ns[i].lokid == NO_CHILD && new_ns[i].hikid == NO_CHILD);
                        assert(b == 1 && new_ns[i].ch != 0);
                        assert(i < kk.len() - 1);
                        assert(new_ns[i].eqkid == (i + 1) as u16);
                    }
                }
                assert(no_sharing(new_ns)) by {
                    assert forall|i1: int, b1: int, i2: int, b2: int|
                        #![trigger has_ref(new_ns, i1, b1), has_ref(new_ns, i2, b2)]
                        has_ref(new_ns, i1, b1) && has_ref(new_ns, i2, b2) && !(i1 == i2 && b1
                            == b2) implies ref_target(new_ns, i1, b1) != ref_target(
                        new_ns,
                        i2,
                        b2,
                    ) by {
                        assert(b1 == 1 && i1 < kk.len() - 1 && new_ns[i1].eqkid == (i1 + 1) as u16);
                        assert(b2 == 1 && i2 < kk.len() - 1 && new_ns[i2].eqkid == (i2 + 1) as u16);
                    }
                    assert forall|i: int, b: int| #[trigger]
                        has_ref(new_ns, i, b) implies ref_target(new_ns, i, b) != 0 by {
                        assert(b == 1 && i < kk.len() - 1 && new_ns[i].eqkid == (i + 1) as u16);
                    }
                }
                lemma_chain_view(new_ns, 0, kk, v, 0);
                assert(kk.subrange(0, kk.len() - 1) =~= key);
                assert(trie_view_at(new_ns, 0) == Map::<Seq<u16>, u16>::empty().insert(key, v));
                assert(table_view(old_ns) =~= Map::<Seq<u16>, u16>::empty());
                assert(table_view(new_ns) =~= table_view(old_ns).insert(key, v));
            } else {
                let p = vs[vs.len() - 1].node;
                let b_att = vs[vs.len() - 1].branch;
                assert(child_of(old_ns[p], b_att) == NO_CHILD) by {
                    assert(child_of(old_ns[p], b_att) as int == nid as int);
                    assert(vs[vs.len() - 1].branch == 1 ==> old_ns[p].ch != 0);
                    if child_of(old_ns[p], b_att) != NO_CHILD {
                        assert(has_ref(old_ns, p, b_att));
                        assert(ref_target(old_ns, p, b_att) < old_ns.len());
                        assert(false);
                    }
                }
                assert(pnid_matches(pnid, vs[vs.len() - 1]));
                assert(ns_mid.len() == old_ns.len());
                assert(forall|q: int| 0 <= q < old_ns.len() && q != p ==> ns_mid[q] == old_ns[q]);
                assert(child_of(ns_mid[p], b_att) == start as u16);
                assert(ns_mid[p].ch == old_ns[p].ch);
                assert(forall|b: int|
                    0 <= b < 3 && b != b_att ==> child_of(#[trigger] ns_mid[p], b) == child_of(
                        old_ns[p],
                        b,
                    ));
                assert(insert_shape(old_ns, new_ns, vs, kk, v, start as int, sidx as int));
                assert(wf_struct(new_ns)) by {
                    assert forall|i: int, b: int| #[trigger]
                        has_ref(new_ns, i, b) implies i < ref_target(new_ns, i, b)
                        < new_ns.len() by {
                        if i < start {
                            if i == p && b == b_att {
                                assert(ref_target(new_ns, i, b) == start);
                            } else {
                                assert(new_ns[i] == old_ns[i] || (i == p && new_ns[i].ch
                                    == old_ns[i].ch && child_of(new_ns[i], b) == child_of(
                                    old_ns[i],
                                    b,
                                )));
                                assert(has_ref(old_ns, i, b));
                            }
                        } else {
                            let t = i - start;
                            if t < chain_len - 1 {
                                assert(new_ns[i].lokid == NO_CHILD && new_ns[i].hikid == NO_CHILD);
                                assert(b == 1 && new_ns[i].ch != 0);
                                assert(new_ns[i].eqkid == (i + 1) as u16);
                            } else {
                                assert(new_ns[i].ch == 0 && new_ns[i].lokid == NO_CHILD
                                    && new_ns[i].hikid == NO_CHILD);
                            }
                        }
                    }
                }
                assert(no_sharing(new_ns)) by {
                    assert forall|i: int, b: int| #[trigger]
                        has_ref(new_ns, i, b) implies (if i < start {
                        if i == p && b == b_att {
                            ref_target(new_ns, i, b) == start
                        } else {
                            has_ref(old_ns, i, b) && ref_target(new_ns, i, b) == ref_target(
                                old_ns,
                                i,
                                b,
                            ) && ref_target(new_ns, i, b) < start
                        }
                    } else {
                        b == 1 && i < new_ns.len() - 1 && ref_target(new_ns, i, b) == i + 1
                    }) by {
                        if i < start {
                            if !(i == p && b == b_att) {
                                assert(new_ns[i] == old_ns[i] || (i == p && new_ns[i].ch
                                    == old_ns[i].ch && child_of(new_ns[i], b) == child_of(
                                    old_ns[i],
                                    b,
                                )));
                                assert(has_ref(old_ns, i, b));
                            }
                        } else {
                            let t = i - start;
                            if t < chain_len - 1 {
                                assert(new_ns[i].eqkid == (i + 1) as u16);
                            } else {
                                assert(new_ns[i].ch == 0 && new_ns[i].lokid == NO_CHILD
                                    && new_ns[i].hikid == NO_CHILD);
                                assert(!has_ref(new_ns, i, b));
                            }
                        }
                    }
                    assert forall|i1: int, b1: int, i2: int, b2: int|
                        #![trigger has_ref(new_ns, i1, b1), has_ref(new_ns, i2, b2)]
                        has_ref(new_ns, i1, b1) && has_ref(new_ns, i2, b2) && !(i1 == i2 && b1
                            == b2) implies ref_target(new_ns, i1, b1) != ref_target(
                        new_ns,
                        i2,
                        b2,
                    ) by {}
                    assert forall|i: int, b: int| #[trigger]
                        has_ref(new_ns, i, b) implies ref_target(new_ns, i, b) != 0 by {
                        assert(start >= 1);
                    }
                }
                lemma_insert_update(old_ns, new_ns, vs, kk, v, start as int, sidx as int, 0);
                assert(vs[0].node == 0 && vs[0].depth == 0);
                assert(kk.subrange(0, kk.len() - 1) =~= key);
                assert(table_view(new_ns) == table_view(old_ns).insert(key, v));
            }
        }
        Ok(0)
    }

    /// Inserts a destination path mapped to an item id.
    ///
    /// The path is UTF-16 encoded with an implicit NUL terminator, so it may
    /// not itself contain a NUL.  If the exact path is already present its
    /// stored id is returned and nothing changes; otherwise nodes for the
    /// unmatched suffix are appended and 0 is returned, unless the table
    /// would outgrow its 16-bit ceiling, which rejects the insert.
    pub fn insert(&mut self, s: &str, v: u16) -> (r: Result<u16, ArchiveError>)
        requires
            old(self).well_formed(),
            forall|j: int| 0 <= j < utf16_of(s@).len() ==> utf16_of(s@)[j] != 0,
        ensures
            final(self).well_formed(),
            match r {
                Ok(val) => {
                    if old(self).view_map().contains_key(utf16_of(s@)) {
                        &&& val == old(self).view_map()[utf16_of(s@)]
                        &&& final(self).nodes@ == old(self).nodes@
                    } else {
                        &&& val == 0
                        &&& final(self).view_map() == old(self).view_map().insert(
                            utf16_of(s@),
                            v,
                        )
                        &&& old(self).nodes@.len() + utf16_of(s@).len() + 1 <= MAX_NODES
                        &&& final(self).nodes@.len() <= old(self).nodes@.len() + utf16_of(
                            s@,
                        ).len() + 1
                        &&& final(self).nodes@.len() >= old(self).nodes@.len() + 1
                    }
                },
                Err(e) => {
                    &&& e == ArchiveError::LimitExceeded
                    &&& final(self).nodes@ == old(self).nodes@
                    &&& !old(self).view_map().contains_key(utf16_of(s@))
                    &&& old(self).nodes@.len() + utf16_of(s@).len() + 1 > MAX_NODES
                },
            },
    {
        let units = encode_utf16_units(s);
        self.insert_units(&units, v)
    }

    /// Walks the trie and returns every stored (path, item id) pair, the
    /// paths decoded back to strings.
    #[verifier::loop_isolation(false)]
    pub fn iter(&self) -> (r: Vec<(String, u16)>)
        requires
            wf_struct(self.nodes@),
        ensures
            r@.len() == dfs_entries(self.nodes@, 0, Seq::empty()).len(),
            forall|j: int|
                0 <= j < r@.len() ==> (#[trigger] r@[j]).1 == dfs_entries(
                    self.nodes@,
                    0,
                    Seq::empty(),
                )[j].1,
            forall|j: int, s: Seq<char>|
                #![trigger r@[j], utf16_of(s)]
                0 <= j < r@.len() && utf16_of(s) == dfs_entries(self.nodes@, 0, Seq::empty())[j].0
                    ==> r@[j].0@ == s,
    {
        let pairs = self.build_items();
        let ghost es = dfs_entries(self.nodes@, 0, Seq::empty());
        let mut out: Vec<(String, u16)> = Vec::new();
        let mut i: usize = 0;
        while i < pairs.len()
            invariant
                i <= pairs@.len(),
                out@.len() == i,
                forall|j: int| 0 <= j < i ==> (#[trigger] out@[j]).1 == es[j].1,
                forall|j: int, s: Seq<char>|
                    #![trigger out@[j], utf16_of(s)]
                    0 <= j < i && utf16_of(s) == es[j].0 ==> out@[j].0@ == s,
            decreases pairs@.len() - i,
        {
            let path = decode_utf16_string(&pairs[i].0);
            let v = pairs[i].1;
            proof {
                assert(entry_views(pairs@)[i as int] == (pairs@[i as int].0@, pairs@[i as int].1));
                assert(es[i as int].0 == pairs@[i as int].0@ && es[i as int].1 == v);
            }
            out.push((path, v));
            i += 1;
        }
        out
    }

    /// Walks the whole trie iteratively and returns every stored pair, the
    /// key as UTF-16 units, in depth-first order.
    ///
    /// An explicit frame stack stands in for recursion so that adversarial
    /// node tables cannot exhaust the call stack.
    #[verifier::loop_isolation(false)]
    #[verifier::rlimit(100)]
    pub fn build_items(&self) -> (r: Vec<(Vec<u16>, u16)>)
        requires
            wf_struct(self.nodes@),
        ensures
            entry_views(r@) == dfs_entries(self.nodes@, 0, Seq::empty()),
    {
        let ghost ns = self.nodes@;
        let mut result: Vec<(Vec<u16>, u16)> = Vec::new();
        let mut prefix: Vec<u16> = Vec::new();
        let mut frames: Vec<Frame> = Vec::new();
        if self.nodes.len() == 0 {
            proof {
                assert(dfs_entries(ns, 0, Seq::empty()) == Seq::<(Seq<u16>, u16)>::empty());
                assert(entry_views(result@) =~= Seq::<(Seq<u16>, u16)>::empty());
            }
            return result;
        }
        frames.push(Frame { nid: 0, stage: Stage::Start });
        proof {
            assert(frames@.len() == 1);
            assert(base_of(ns, frames@, 0) == Seq::<u16>::empty());
            assert(todo(ns, frames@, 1) == pend(ns, frames@[0], Seq::empty()) + todo(
                ns,
                frames@,
                0,
            ));
            assert(pend(ns, frames@[0], Seq::empty()) == dfs_entries(ns, 0, Seq::empty()));
            assert(entry_views(result@) + todo(ns, frames@, 1) =~= dfs_entries(
                ns,
                0,
                Seq::empty(),
            ));
            assert(prefix@ =~= base_of(ns, frames@, 1));
        }
        while frames.len() > 0
            invariant
                forall|j: int| 0 <= j < frames@.len() ==> (#[trigger] frames@[j]).nid < ns.len(),
                entry_views(result@) + todo(ns, frames@, frames@.len() as int) == dfs_entries(
                    ns,
                    0,
                    Seq::empty(),
                ),
                prefix@ == base_of(ns, frames@, frames@.len() as int),
            decreases stack_measure(ns, frames@),
        {
            proof {
                lemma_stack_measure_nonneg(ns, frames@);
            }
            let ghost fs_before = frames@;
            let ghost result_old = result@;
            let f = match frames.pop() {
                Some(x) => x,
                None => {
                    proof {
                        assert(false);
                    }
                    Frame { nid: 0, stage: Stage::Start }
                },
            };
            let ghost rest = frames@;
            let ghost b = base_of(ns, rest, rest.len() as int);
            proof {
                assert(rest =~= fs_before.drop_last());
                assert(fs_before.last() == f);
                lemma_base_todo_stable(ns, fs_before, rest, rest.len() as int);
                assert(base_of(ns, fs_before, fs_before.len() - 1) == b);
                assert(todo(ns, fs_before, fs_before.len() as int) == pend(ns, f, b) + todo(
                    ns,
                    rest,
                    rest.len() as int,
                ));
                assert(stack_measure(ns, fs_before) == stack_measure(ns, rest) + fmeasure(ns, f))
                    by {
                    assert(fs_before.drop_last() =~= rest);
                }
                lemma_stack_measure_nonneg(ns, rest);
                lemma_subtree_size_nonneg(ns, f.nid as int);
            }
            let n = self.nodes[f.nid as usize];
            let ghost s_lo = if n.lokid != NO_CHILD {
                subtree_size(ns, n.lokid as int)
            } else {
                0int
            };
            let ghost s_eq = if n.ch != 0 && n.eqkid != NO_CHILD {
                subtree_size(ns, n.eqkid as int)
            } else {
                0int
            };
            let ghost s_hi = if n.hikid != NO_CHILD {
                subtree_size(ns, n.hikid as int)
            } else {
                0int
            };
            proof {
                if n.lokid != NO_CHILD {
                    assert(has_ref(ns, f.nid as int, 0));
                    lemma_subtree_size_nonneg(ns, n.lokid as int);
                }
                if n.ch != 0 && n.eqkid != NO_CHILD {
                    assert(has_ref(ns, f.nid as int, 1));
                    lemma_subtree_size_nonneg(ns, n.eqkid as int);
                }
                if n.hikid != NO_CHILD {
                    assert(has_ref(ns, f.nid as int, 2));
                    lemma_subtree_size_nonneg(ns, n.hikid as int);
                }
            }
            match f.stage {
                Stage::Start => {
                    if n.ch == 0 {
                        result.push((prefix.clone(), n.eqkid));
                        proof {
                            assert(entry_views(result@) =~= entry_views(result_old).push(
                                (prefix@, n.eqkid),
                            ));
                        }
                    }
                    frames.push(Frame { nid: f.nid, stage: Stage::AfterLo });
                    if n.lokid != NO_CHILD {
                        frames.push(Frame { nid: n.lokid, stage: Stage::Start });
                    }
                    proof {
                        let fa = Frame { nid: f.nid, stage: Stage::AfterLo };
                        let m = frames@.len() as int;
                        lemma_base_todo_stable(ns, frames@, rest, rest.len() as int);
                        assert(frame_prefix(ns, f) =~= Seq::<u16>::empty());
                        assert(frame_prefix(ns, fa) =~= Seq::<u16>::empty());
                        assert(b + Seq::<u16>::empty() =~= b);
                        assert(prefix@ =~= b);
                        if n.lokid != NO_CHILD {
                            assert(frames@[m - 2] == fa && frames@[m - 1] == (Frame {
                                nid: n.lokid,
                                stage: Stage::Start,
                            }));
                            assert(base_of(ns, frames@, m - 1) =~= b);
                            assert(base_of(ns, frames@, m - 2) =~= b);
                            assert(todo(ns, frames@, m - 1) == pend(
                                ns,
                                fa,
                                base_of(ns, frames@, m - 2),
                            ) + todo(ns, frames@, m - 2));
                            assert(todo(ns, frames@, m) =~= dfs_entries(ns, n.lokid as int, b)
                                + pend(ns, fa, b) + todo(ns, rest, rest.len() as int));
                        } else {
                            assert(frames@[m - 1] == fa);
                            assert(base_of(ns, frames@, m - 1) =~= b);
                            assert(todo(ns, frames@, m) =~= pend(ns, fa, b) + todo(
                                ns,
                                rest,
                                rest.len() as int,
                            ));
                        }
                        assert(entry_views(result@) + todo(ns, frames@, m) =~= entry_views(
                            result_old,
                        ) + (pend(ns, f, b) + todo(ns, rest, rest.len() as int)));
                        assert(prefix@ =~= base_of(ns, frames@, m));
                        // the stack got lighter
                        lemma_measure_push(ns, rest, fa);
                        if n.lokid != NO_CHILD {
                            lemma_measure_push(
                                ns,
                                rest.push(fa),
                                Frame { nid: n.lokid, stage: Stage::Start },
                            );
                        }
                        assert(stack_measure(ns, frames@) < stack_measure(ns, fs_before));
                    }
                },
                Stage::AfterLo => {
                    if n.ch != 0 {
                        prefix.push(n.ch);
                        frames.push(Frame { nid: f.nid, stage: Stage::AfterEq });
                        if n.eqkid != NO_CHILD {
                            frames.push(Frame { nid: n.eqkid, stage: Stage::Start });
                        }
                        proof {
                            let fa = Frame { nid: f.nid, stage: Stage::AfterEq };
                            let m = frames@.len() as int;
                            lemma_base_todo_stable(ns, frames@, rest, rest.len() as int);
                            assert(frame_prefix(ns, f) =~= Seq::<u16>::empty());
                            assert(b + Seq::<u16>::empty() =~= b);
                            assert(frame_prefix(ns, fa) =~= seq![n.ch]);
                            assert(prefix@ =~= b.push(n.ch));
                            if n.eqkid != NO_CHILD {
                                assert(frames@[m - 2] == fa && frames@[m - 1] == (Frame {
                                    nid: n.eqkid,
                                    stage: Stage::Start,
                                }));
                                assert(base_of(ns, frames@, m - 2) =~= b);
                                assert(base_of(ns, frames@, m - 1) =~= b.push(n.ch));
                                assert(todo(ns, frames@, m - 1) == pend(
                                    ns,
                                    fa,
                                    base_of(ns, frames@, m - 2),
                                ) + todo(ns, frames@, m - 2));
                                assert(todo(ns, frames@, m) =~= dfs_entries(
                                    ns,
                                    n.eqkid as int,
                                    b.push(n.ch),
                                ) + pend(ns, fa, b) + todo(ns, rest, rest.len() as int));
                            } else {
                                assert(frames@[m - 1] == fa);
                                assert(base_of(ns, frames@, m - 1) =~= b);
                                assert(todo(ns, frames@, m) =~= pend(ns, fa, b) + todo(
                                    ns,
                                    rest,
                                    rest.len() as int,
                                ));
                            }
                            assert(entry_views(result@) + todo(ns, frames@, m) =~= entry_views(
                                result@,
                            ) + (pend(ns, f, b) + todo(ns, rest, rest.len() as int)));
                            assert(prefix@ =~= base_of(ns, frames@, m));
                            lemma_measure_push(ns, rest, fa);
                            if n.eqkid != NO_CHILD {
                                lemma_measure_push(
                                    ns,
                                    rest.push(fa),
                                    Frame { nid: n.eqkid, stage: Stage::Start },
                                );
                            }
                            assert(stack_measure(ns, frames@) < stack_measure(ns, fs_before));
                        }
                    } else {
                        frames.push(Frame { nid: f.nid, stage: Stage::AfterEq });
                        proof {
                            let fa = Frame { nid: f.nid, stage: Stage::AfterEq };
                            let m = frames@.len() as int;
                            lemma_base_todo_stable(ns, frames@, rest, rest.len() as int);
                            assert(frame_prefix(ns, f) =~= Seq::<u16>::empty());
                            assert(frame_prefix(ns, fa) =~= Seq::<u16>::empty());
                            assert(prefix@ =~= b);
                            assert(frames@[m - 1] == fa);
                            assert(base_of(ns, frames@, m - 1) =~= b);
                            assert(todo(ns, frames@, m) =~= pend(ns, fa, b) + todo(
                                ns,
                                rest,
                                rest.len() as int,
                            ));
                            assert(b + Seq::<u16>::empty() =~= b);
                            assert(entry_views(result@) + todo(ns, frames@, m) =~= entry_views(
                                result@,
                            ) + (pend(ns, f, b) + todo(ns, rest, rest.len() as int)));
                            assert(prefix@ =~= base_of(ns, frames@, m));
                            lemma_measure_push(ns, rest, fa);
                            assert(stack_measure(ns, frames@) < stack_measure(ns, fs_before));
                        }
                    }
                },
                Stage::AfterEq => {
                    if n.ch != 0 {
                        prefix.pop();
                        proof {
                            assert(frame_prefix(ns, f) =~= seq![n.ch]);
                            assert(base_of(ns, fs_before, fs_before.len() as int) == b + seq![
                                n.ch
                            ]);
                            assert(prefix@ =~= b);
                        }
                    } else {
                        proof {
                            assert(frame_prefix(ns, f) =~= Seq::<u16>::empty());
                            assert(b + Seq::<u16>::empty() =~= b);
                            assert(prefix@ =~= b);
                        }
                    }
                    if n.hikid != NO_CHILD {
                        frames.push(Frame { nid: n.hikid, stage: Stage::Start });
                    }
                    proof {
                        let m = frames@.len() as int;
                        lemma_base_todo_stable(ns, frames@, rest, rest.len() as int);
                        if n.hikid != NO_CHILD {
                            assert(frames@[m - 1] == (Frame { nid: n.hikid, stage: Stage::Start }));
                            assert(base_of(ns, frames@, m - 1) =~= b);
                            assert(todo(ns, frames@, m) =~= dfs_entries(ns, n.hikid as int, b)
                                + todo(ns, rest, rest.len() as int));
                            lemma_measure_push(
                                ns,
                                rest,
                                Frame { nid: n.hikid, stage: Stage::Start },
                            );
                        }
                        assert(entry_views(result@) + todo(ns, frames@, m) =~= entry_views(result@)
                            + (pend(ns, f, b) + todo(ns, rest, rest.len() as int)));
                        assert(prefix@ =~= base_of(ns, frames@, m));
                        assert(stack_measure(ns, frames@) < stack_measure(ns, fs_before));
                    }
                },
            }
        }
        proof {
            assert(todo(ns, frames@, 0) == Seq::<(Seq<u16>, u16)>::empty());
            assert(entry_views(result@) + Seq::<(Seq<u16>, u16)>::empty() =~= entry_views(
                result@,
            ));
        }
        result
    }
}


} // verus!
