//! Reactive diagrams: systems that read and write states, wired into a graph
//! that runs the systems reading the inputs first, then the systems reading
//! what those wrote.

use vstd::prelude::*;
use std::collections::HashMap;

verus! {

broadcast use vstd::seq_lib::group_to_multiset_ensures;

/// Identifier of a state or a system: its type identifier.
#[derive(Clone, Copy, Debug, PartialEq, Eq, Structural)]
pub struct Id {
    /// Type identifier.
    pub type_id: u64,
}

/// `s` is sorted by type identifier.
pub open spec fn sorted_ids(s: Seq<Id>) -> bool {
    forall|i: int, j: int| 0 <= i < j < s.len() ==> #[trigger] s[i].type_id <= #[trigger] s[j].type_id
}

/// First position in the sorted `out` whose type identifier is above `x`'s.
fn insert_position(out: &Vec<Id>, x: Id) -> (pos: usize)
    requires
        sorted_ids(out@),
    ensures
        pos <= out@.len(),
        forall|i: int| 0 <= i < pos ==> out@[i].type_id <= x.type_id,
        forall|i: int| pos <= i < out@.len() ==> out@[i].type_id > x.type_id,
{
    let mut pos: usize = 0;
    while pos < out.len() && out[pos].type_id <= x.type_id
        invariant
            pos <= out@.len(),
            sorted_ids(out@),
            forall|i: int| 0 <= i < pos ==> out@[i].type_id <= x.type_id,
        decreases out@.len() - pos,
    {
        pos = pos + 1;
    }
    pos
}

/// Sort `v` by type identifier, keeping equal identifiers in their order.
pub fn sort_ids(v: &mut Vec<Id>)
    ensures
        sorted_ids(final(v)@),
        final(v)@.to_multiset() == old(v)@.to_multiset(),
{
    let mut out: Vec<Id> = Vec::new();
    let mut i: usize = 0;
    while i < v.len()
        invariant
            i <= v@.len(),
            v@ == old(v)@,
            sorted_ids(out@),
            out@.to_multiset() == v@.take(i as int).to_multiset(),
        decreases v@.len() - i,
    {
        let x = v[i];
        let pos = insert_position(&out, x);
        let ghost before = out@;
        out.insert(pos, x);
        proof {
            vstd::seq_lib::to_multiset_insert(before, pos as int, x);
            assert(v@.take(i + 1) =~= v@.take(i as int).push(x));
            assert forall|a: int, b: int| 0 <= a < b < out@.len() implies #[trigger] out@[a].type_id
                <= #[trigger] out@[b].type_id by {
                if b < pos {
                    assert(out@[a] == before[a] && out@[b] == before[b]);
                } else if b == pos {
                    assert(out@[a] == before[a]);
                } else if a < pos {
                    assert(out@[a] == before[a] && out@[b] == before[b - 1]);
                } else if a == pos {
                    assert(out@[b] == before[b - 1]);
                } else {
                    assert(out@[a] == before[a - 1] && out@[b] == before[b - 1]);
                }
            }
        }
        i = i + 1;
    }
    proof {
        assert(v@.take(i as int) =~= old(v)@);
    }
    *v = out;
}

/// Sort `vec` by type identifier and return whether an identifier occurs
/// twice.
pub fn has_duplicates(vec: &mut Vec<Id>) -> (r: bool)
    ensures
        sorted_ids(final(vec)@),
        final(vec)@.to_multiset() == old(vec)@.to_multiset(),
        r == !old(vec)@.no_duplicates(),
{
    sort_ids(vec);
    let mut i: usize = 1;
    let mut found = false;
    while i < vec.len()
        invariant
            1 <= i,
            i <= vec@.len() || vec@.len() == 0,
            sorted_ids(vec@),
            !found ==> forall|a: int, b: int| 0 <= a < b < i && b < vec@.len() ==> vec@[a] != vec@[b],
            found ==> !vec@.no_duplicates(),
        decreases vec@.len() - i,
    {
        if vec[i - 1] == vec[i] {
            found = true;
            assert(vec@[i - 1] == vec@[i as int]);
        }
        proof {
            if !found {
                assert forall|a: int, b: int| 0 <= a < b < i + 1 && b < vec@.len() implies vec@[a] != vec@[b] by {
                    if b == i as int && a < i - 1 {
                        assert(vec@[a].type_id <= vec@[i - 1].type_id);
                        assert(vec@[i - 1].type_id < vec@[b].type_id);
                    }
                }
            }
        }
        i = i + 1;
    }
    proof {
        if found {
            assert(!vec@.no_duplicates());
        } else {
            assert(vec@.no_duplicates());
        }
        if vec@.no_duplicates() {
            vec@.lemma_multiset_has_no_duplicates();
            old(vec)@.lemma_multiset_has_no_duplicates_conv();
        } else {
            if old(vec)@.no_duplicates() {
                old(vec)@.lemma_multiset_has_no_duplicates();
                vec@.lemma_multiset_has_no_duplicates_conv();
            }
        }
    }
    found
}

/// A system of a diagram: the states it reads and the states it writes.
pub struct SystemInfo {
    /// Identifier of the system.
    pub id: Id,
    /// Name of the system.
    pub name: String,
    /// States the system reads.
    pub reads: Vec<Id>,
    /// States the system writes.
    pub writes: Vec<Id>,
}

/// A node of a diagram: a system and the systems that read what it writes,
/// each with the state that links them.
pub struct DiagramNode {
    /// The system.
    pub system: SystemInfo,
    /// `(state, system)` pairs: `system` reads `state`, which this system writes.
    pub children: Vec<(Id, Id)>,
}

/// The identifiers of some systems.
pub open spec fn system_ids(systems: Seq<SystemInfo>) -> Seq<Id> {
    systems.map_values(|s: SystemInfo| s.id)
}

/// The identifiers of some nodes.
pub open spec fn node_ids(nodes: Seq<DiagramNode>) -> Seq<Id> {
    nodes.map_values(|n: DiagramNode| n.system.id)
}

/// Whether `v` holds `id`.
fn contains_id(v: &Vec<Id>, id: Id) -> (r: bool)
    ensures
        r == v@.contains(id),
{
    let mut i: usize = 0;
    while i < v.len()
        invariant
            i <= v@.len(),
            forall|j: int| 0 <= j < i ==> v@[j] != id,
        decreases v@.len() - i,
    {
        if v[i] == id {
            assert(v@[i as int] == id);
            return true;
        }
        i = i + 1;
    }
    false
}

/// Position of the system with identifier `id`, if any.
fn find_system(v: &Vec<SystemInfo>, id: Id) -> (r: Option<usize>)
    ensures
        match r {
            Some(i) => i < v@.len() && v@[i as int].id == id,
            None => forall|j: int| 0 <= j < v@.len() ==> v@[j].id != id,
        },
{
    let mut i: usize = 0;
    while i < v.len()
        invariant
            i <= v@.len(),
            forall|j: int| 0 <= j < i ==> v@[j].id != id,
        decreases v@.len() - i,
    {
        if v[i].id == id {
            return Some(i);
        }
        i = i + 1;
    }
    None
}

/// Some system of `systems` has identifier `s` and reads `x`.
pub open spec fn system_reads(systems: Seq<SystemInfo>, s: Id, x: Id) -> bool {
    exists|j: int| 0 <= j < systems.len() && (#[trigger] systems[j]).id == s && systems[j].reads@.contains(x)
}

/// The `(state, system)` pairs for which `system` is in `remaining` and reads
/// `state`, which `node` writes.
fn children_of(node: &SystemInfo, remaining: &Vec<SystemInfo>) -> (r: Vec<(Id, Id)>)
    ensures
        forall|k: int| 0 <= k < r@.len() ==> {
            &&& node.writes@.contains((#[trigger] r@[k]).0)
            &&& system_reads(remaining@, r@[k].1, r@[k].0)
        },
        forall|j: int, w: int|
            0 <= j < remaining@.len() && 0 <= w < node.writes@.len()
                && (#[trigger] remaining@[j]).reads@.contains(#[trigger] node.writes@[w])
                ==> r@.contains((node.writes@[w], remaining@[j].id)),
{
    broadcast use vstd::seq_lib::lemma_seq_contains_after_push;

    let mut r: Vec<(Id, Id)> = Vec::new();
    let mut j: usize = 0;
    while j < remaining.len()
        invariant
            j <= remaining@.len(),
            forall|k: int| 0 <= k < r@.len() ==> {
                &&& node.writes@.contains((#[trigger] r@[k]).0)
                &&& system_reads(remaining@, r@[k].1, r@[k].0)
            },
            forall|q: int, w: int|
                0 <= q < j && 0 <= w < node.writes@.len()
                    && (#[trigger] remaining@[q]).reads@.contains(#[trigger] node.writes@[w])
                    ==> r@.contains((node.writes@[w], remaining@[q].id)),
        decreases remaining@.len() - j,
    {
        let other = &remaining[j];
        let mut w: usize = 0;
        while w < node.writes.len()
            invariant
                w <= node.writes@.len(),
                j < remaining@.len(),
                *other == remaining@[j as int],
                forall|k: int| 0 <= k < r@.len() ==> {
                    &&& node.writes@.contains((#[trigger] r@[k]).0)
                    &&& system_reads(remaining@, r@[k].1, r@[k].0)
                },
                forall|q: int, v: int|
                    0 <= q < j && 0 <= v < node.writes@.len()
                        && (#[trigger] remaining@[q]).reads@.contains(#[trigger] node.writes@[v])
                        ==> r@.contains((node.writes@[v], remaining@[q].id)),
                forall|v: int|
                    0 <= v < w && remaining@[j as int].reads@.contains(#[trigger] node.writes@[v])
                        ==> r@.contains((node.writes@[v], remaining@[j as int].id)),
            decreases node.writes@.len() - w,
        {
            let write_id = node.writes[w];
            let ghost r0 = r@;
            if contains_id(&other.reads, write_id) {
                r.push((write_id, other.id));
                proof {
                    assert(node.writes@[w as int] == write_id);
                    assert(node.writes@.contains(write_id));
                    assert forall|k: int| 0 <= k < r@.len() implies {
                        &&& node.writes@.contains((#[trigger] r@[k]).0)
                        &&& system_reads(remaining@, r@[k].1, r@[k].0)
                    } by {
                        if k < r0.len() {
                            assert(r@[k] == r0[k]);
                        } else {
                            assert(remaining@[j as int].id == r@[k].1);
                        }
                    }
                }
            }
            proof {
                assert(r@.len() >= r0.len());
                assert(forall|i: int| 0 <= i < r0.len() ==> r@[i] == r0[i]);
                assert forall|q: int, v: int|
                    0 <= q < j && 0 <= v < node.writes@.len()
                        && (#[trigger] remaining@[q]).reads@.contains(#[trigger] node.writes@[v])
                        implies r@.contains((node.writes@[v], remaining@[q].id)) by {
                    let e = (node.writes@[v], remaining@[q].id);
                    assert(r0.contains(e));
                    let i = choose|i: int| 0 <= i < r0.len() && r0[i] == e;
                    assert(r@[i] == e);
                }
                assert forall|v: int|
                    0 <= v < w + 1 && remaining@[j as int].reads@.contains(#[trigger] node.writes@[v])
                        implies r@.contains((node.writes@[v], remaining@[j as int].id)) by {
                    let e = (node.writes@[v], remaining@[j as int].id);
                    if v < w {
                        assert(r0.contains(e));
                        let i = choose|i: int| 0 <= i < r0.len() && r0[i] == e;
                        assert(r@[i] == e);
                    } else {
                        assert(r@[r@.len() - 1] == e);
                    }
                }
            }
            w = w + 1;
        }
        proof {
            assert forall|q: int, v: int|
                0 <= q < j + 1 && 0 <= v < node.writes@.len()
                    && (#[trigger] remaining@[q]).reads@.contains(#[trigger] node.writes@[v])
                    implies r@.contains((node.writes@[v], remaining@[q].id)) by {
                if q == j {
                    assert(remaining@[j as int].reads@.contains(node.writes@[v]));
                }
            }
        }
        j = j + 1;
    }
    assert forall|q: int, w: int|
        0 <= q < remaining@.len() && 0 <= w < node.writes@.len()
            && (#[trigger] remaining@[q]).reads@.contains(#[trigger] node.writes@[w])
            implies r@.contains((node.writes@[w], remaining@[q].id)) by {
        assert(q < j);
    }
    r
}


/// `s` is `o` with its reads and writes sorted by type identifier.
pub open spec fn sorted_version(s: SystemInfo, o: SystemInfo) -> bool {
    &&& s.id == o.id
    &&& s.name@ == o.name@
    &&& s.reads@.to_multiset() == o.reads@.to_multiset()
    &&& s.writes@.to_multiset() == o.writes@.to_multiset()
    &&& sorted_ids(s.reads@)
    &&& sorted_ids(s.writes@)
}

/// Each node's system is one of `systems`, with its reads and writes sorted.
pub open spec fn nodes_from(nodes: Seq<DiagramNode>, systems: Seq<SystemInfo>) -> bool {
    forall|k: int| 0 <= k < nodes.len() ==> node_from(#[trigger] nodes[k], systems)
}

/// The node's system is one of `systems`, with its reads and writes sorted.
pub open spec fn node_from(node: DiagramNode, systems: Seq<SystemInfo>) -> bool {
    exists|j: int| 0 <= j < systems.len() && sorted_version(node.system, #[trigger] systems[j])
}

/// Some node of `nodes` has system `s`, which reads `x`.
pub open spec fn node_reads(nodes: Seq<DiagramNode>, s: Id, x: Id) -> bool {
    exists|k: int|
        0 <= k < nodes.len() && (#[trigger] nodes[k]).system.id == s && nodes[k].system.reads@.contains(x)
}

/// Some node of `nodes` writes `x`.
pub open spec fn written_by(nodes: Seq<DiagramNode>, x: Id) -> bool {
    exists|k: int| 0 <= k < nodes.len() && (#[trigger] nodes[k]).system.writes@.contains(x)
}

/// Some input pair leads to system `s`.
pub open spec fn input_target(pairs: Seq<(Id, Id)>, s: Id) -> bool {
    exists|p: int| 0 <= p < pairs.len() && (#[trigger] pairs[p]).1 == s
}

/// Some node before position `upto` has system `s` among its children.
pub open spec fn child_before(nodes: Seq<DiagramNode>, upto: int, s: Id) -> bool {
    exists|b: int, c: int|
        0 <= b < upto && 0 <= c < nodes[b].children@.len() && (#[trigger] nodes[b].children@[c]).1 == s
}

/// `x` is an input, or some node has the edge `(x, s)` to system `s`.
spec fn linked(ins: Seq<Id>, nodes: Seq<DiagramNode>, x: Id, s: Id) -> bool {
    ins.contains(x) || exists|b: int| 0 <= b < nodes.len() && (#[trigger] nodes[b]).children@.contains((x, s))
}

/// What holds at each step of building a diagram: `orig` are the systems,
/// `ins` the inputs, `remaining` the systems not yet placed, `nodes` the
/// placed ones, `queue` the states still to follow, `pairs` the input edges
/// and `done` the states already followed.
spec fn build_inv(
    orig: Seq<SystemInfo>,
    ins: Seq<Id>,
    remaining: Seq<SystemInfo>,
    nodes: Seq<DiagramNode>,
    queue: Seq<Id>,
    pairs: Seq<(Id, Id)>,
    done: Set<Id>,
) -> bool {
    &&& unique_ids(system_ids(orig))
    &&& unique_ids(system_ids(remaining))
    &&& unique_ids(node_ids(nodes))
    &&& forall|a: int, b: int|
        0 <= a < remaining.len() && 0 <= b < nodes.len() ==> (#[trigger] remaining[a]).id != (#[trigger] nodes[b]).system.id
    &&& forall|a: int| 0 <= a < remaining.len() ==> orig.contains(#[trigger] remaining[a])
    &&& forall|b: int| 0 <= b < nodes.len() ==> orig.contains((#[trigger] nodes[b]).system)
    &&& forall|j: int|
        0 <= j < orig.len() ==> system_ids(remaining).contains((#[trigger] orig[j]).id) || node_ids(nodes).contains(orig[j].id)
    &&& forall|y: Id, a: int|
        #![trigger remaining[a].reads@.contains(y)]
        done.contains(y) && 0 <= a < remaining.len() ==> !remaining[a].reads@.contains(y)
    &&& forall|y: Id| #![trigger ins.contains(y)] ins.contains(y) ==> queue.contains(y) || done.contains(y)
    &&& forall|b: int, w: int|
        0 <= b < nodes.len() && 0 <= w < nodes[b].system.writes@.len() ==> queue.contains(#[trigger] nodes[b].system.writes@[w])
            || done.contains(nodes[b].system.writes@[w])
    &&& forall|q: int, a: int|
        0 <= q < queue.len() && 0 <= a < remaining.len() && (#[trigger] remaining[a]).reads@.contains(#[trigger] queue[q])
            ==> linked(ins, nodes, queue[q], remaining[a].id)
    &&& forall|p: int|
        0 <= p < pairs.len() ==> ins.contains((#[trigger] pairs[p]).0) && node_reads(nodes, pairs[p].1, pairs[p].0)
    &&& forall|b: int, c: int|
        0 <= b < nodes.len() && 0 <= c < nodes[b].children@.len() ==> nodes[b].system.writes@.contains(
            (#[trigger] nodes[b].children@[c]).0,
        ) && system_reads(orig, nodes[b].children@[c].1, nodes[b].children@[c].0)
    &&& forall|b: int|
        0 <= b < nodes.len() ==> input_target(pairs, (#[trigger] nodes[b]).system.id) || child_before(nodes, b, nodes[b].system.id)
}


proof fn lemma_linked_push(ins: Seq<Id>, nodes: Seq<DiagramNode>, node: DiagramNode, y: Id, s: Id)
    requires
        linked(ins, nodes, y, s),
    ensures
        linked(ins, nodes.push(node), y, s),
{
    if !ins.contains(y) {
        let b = choose|b: int| 0 <= b < nodes.len() && (#[trigger] nodes[b]).children@.contains((y, s));
        assert(nodes.push(node)[b] == nodes[b]);
    }
}

proof fn lemma_node_reads_push(nodes: Seq<DiagramNode>, node: DiagramNode, s: Id, y: Id)
    requires
        node_reads(nodes, s, y),
    ensures
        node_reads(nodes.push(node), s, y),
{
    let k = choose|k: int| 0 <= k < nodes.len() && (#[trigger] nodes[k]).system.id == s && nodes[k].system.reads@.contains(y);
    assert(nodes.push(node)[k] == nodes[k]);
}

/// Placing the reader `rem[j]` of the state `x` as a node keeps the building
/// invariant.
#[verifier::rlimit(50)]
proof fn lemma_take_reader(
    orig: Seq<SystemInfo>,
    ins: Seq<Id>,
    rem: Seq<SystemInfo>,
    j: int,
    nodes: Seq<DiagramNode>,
    q: Seq<Id>,
    pairs: Seq<(Id, Id)>,
    done: Set<Id>,
    x: Id,
    node: DiagramNode,
)
    requires
        build_inv(orig, ins, rem, nodes, q.push(x), pairs, done),
        0 <= j < rem.len(),
        rem[j].reads@.contains(x),
        node.system == rem[j],
        forall|k: int| 0 <= k < node.children@.len() ==> {
            &&& node.system.writes@.contains((#[trigger] node.children@[k]).0)
            &&& system_reads(rem.remove(j), node.children@[k].1, node.children@[k].0)
        },
        forall|a: int, w: int|
            0 <= a < rem.remove(j).len() && 0 <= w < node.system.writes@.len()
                && (#[trigger] rem.remove(j)[a]).reads@.contains(#[trigger] node.system.writes@[w])
                ==> node.children@.contains((node.system.writes@[w], rem.remove(j)[a].id)),
    ensures
        build_inv(
            orig,
            ins,
            rem.remove(j),
            nodes.push(node),
            (q + node.system.writes@).push(x),
            if ins.contains(x) { pairs.push((x, node.system.id)) } else { pairs },
            done,
        ),
{
    let rem2 = rem.remove(j);
    let nodes2 = nodes.push(node);
    let qx = q.push(x);
    let q2 = (q + node.system.writes@).push(x);
    let pairs2 = if ins.contains(x) { pairs.push((x, node.system.id)) } else { pairs };
    let n = nodes.len() as int;
    assert forall|a: int| 0 <= a < rem2.len() implies #[trigger] rem2[a] == rem[if a < j { a } else { a + 1 }] by {}
    assert forall|b: int| 0 <= b < n implies #[trigger] nodes2[b] == nodes[b] by {}
    assert(nodes2[n] == node);
    assert(unique_ids(system_ids(rem2))) by {
        assert forall|a: int, b: int|
            0 <= a < system_ids(rem2).len() && 0 <= b < system_ids(rem2).len() && a != b
                implies system_ids(rem2)[a] != system_ids(rem2)[b] by {
            let a0 = if a < j { a } else { a + 1 };
            let b0 = if b < j { b } else { b + 1 };
            assert(system_ids(rem)[a0] != system_ids(rem)[b0]);
        }
    }
    assert(unique_ids(node_ids(nodes2))) by {
        assert forall|a: int, b: int|
            0 <= a < node_ids(nodes2).len() && 0 <= b < node_ids(nodes2).len() && a != b
                implies node_ids(nodes2)[a] != node_ids(nodes2)[b] by {
            if a < n && b < n {
                assert(node_ids(nodes)[a] != node_ids(nodes)[b]);
            } else if a < n {
                assert(rem[j].id != nodes[a].system.id);
            } else if b < n {
                assert(rem[j].id != nodes[b].system.id);
            }
        }
    }
    assert forall|a: int, b: int|
        0 <= a < rem2.len() && 0 <= b < nodes2.len() implies (#[trigger] rem2[a]).id != (#[trigger] nodes2[b]).system.id by {
        let a0 = if a < j { a } else { a + 1 };
        if b < n {
            assert(rem[a0].id != nodes[b].system.id);
        } else {
            assert(system_ids(rem)[a0] != system_ids(rem)[j]);
        }
    }
    assert forall|a: int| 0 <= a < rem2.len() implies orig.contains(#[trigger] rem2[a]) by {
        let a0 = if a < j { a } else { a + 1 };
        assert(orig.contains(rem[a0]));
    }
    assert forall|b: int| 0 <= b < nodes2.len() implies orig.contains((#[trigger] nodes2[b]).system) by {
        if b < n {
            assert(orig.contains(nodes[b].system));
        } else {
            assert(orig.contains(rem[j]));
        }
    }
    assert forall|i: int| 0 <= i < orig.len() implies system_ids(rem2).contains((#[trigger] orig[i]).id)
        || node_ids(nodes2).contains(orig[i].id) by {
        if system_ids(rem).contains(orig[i].id) {
            let a0 = choose|a0: int| 0 <= a0 < system_ids(rem).len() && system_ids(rem)[a0] == orig[i].id;
            if a0 < j {
                assert(system_ids(rem2)[a0] == orig[i].id);
            } else if a0 == j {
                assert(node_ids(nodes2)[n] == orig[i].id);
            } else {
                assert(system_ids(rem2)[a0 - 1] == orig[i].id);
            }
        } else {
            assert(node_ids(nodes).contains(orig[i].id));
            let b0 = choose|b0: int| 0 <= b0 < node_ids(nodes).len() && node_ids(nodes)[b0] == orig[i].id;
            assert(node_ids(nodes2)[b0] == orig[i].id);
        }
    }
    assert forall|y: Id, a: int|
        #![trigger rem2[a].reads@.contains(y)]
        done.contains(y) && 0 <= a < rem2.len() implies !rem2[a].reads@.contains(y) by {
        let a0 = if a < j { a } else { a + 1 };
        assert(!rem[a0].reads@.contains(y));
    }
    assert forall|y: Id| qx.contains(y) implies q2.contains(y) by {
        let i = choose|i: int| 0 <= i < qx.len() && qx[i] == y;
        if i < q.len() {
            assert(q2[i] == y);
        } else {
            assert(q2[q2.len() - 1] == y);
        }
    }
    assert forall|y: Id| #![trigger ins.contains(y)] ins.contains(y) implies q2.contains(y) || done.contains(y) by {
        if qx.contains(y) {
            assert(q2.contains(y));
        }
    }
    assert forall|b: int, w: int|
        0 <= b < nodes2.len() && 0 <= w < nodes2[b].system.writes@.len() implies q2.contains(
            #[trigger] nodes2[b].system.writes@[w],
        ) || done.contains(nodes2[b].system.writes@[w]) by {
        let y = nodes2[b].system.writes@[w];
        if b < n {
            assert(qx.contains(nodes[b].system.writes@[w]) || done.contains(nodes[b].system.writes@[w]));
            if qx.contains(y) {
                assert(q2.contains(y));
            }
        } else {
            assert(q2[q.len() + w] == y);
        }
    }
    assert forall|qi: int, a: int|
        0 <= qi < q2.len() && 0 <= a < rem2.len() && (#[trigger] rem2[a]).reads@.contains(#[trigger] q2[qi])
            implies linked(ins, nodes2, q2[qi], rem2[a].id) by {
        let a0 = if a < j { a } else { a + 1 };
        assert(rem2[a] == rem[a0]);
        if qi < q.len() {
            assert(q2[qi] == qx[qi]);
            assert(linked(ins, nodes, qx[qi], rem[a0].id));
            lemma_linked_push(ins, nodes, node, qx[qi], rem[a0].id);
        } else if qi == q2.len() - 1 {
            assert(q2[qi] == x);
            assert(qx[q.len() as int] == x);
            assert(linked(ins, nodes, qx[q.len() as int], rem[a0].id));
            lemma_linked_push(ins, nodes, node, x, rem[a0].id);
        } else {
            let w = qi - q.len();
            assert(q2[qi] == node.system.writes@[w]);
            assert(node.children@.contains((node.system.writes@[w], rem2[a].id)));
        }
    }
    assert forall|p: int| 0 <= p < pairs2.len() implies ins.contains((#[trigger] pairs2[p]).0)
        && node_reads(nodes2, pairs2[p].1, pairs2[p].0) by {
        if p < pairs.len() {
            assert(pairs2[p] == pairs[p]);
            lemma_node_reads_push(nodes, node, pairs[p].1, pairs[p].0);
        } else {
            assert(pairs2[p] == (x, node.system.id));
            assert(nodes2[n].system.reads@.contains(x));
        }
    }
    assert forall|b: int, c: int|
        0 <= b < nodes2.len() && 0 <= c < nodes2[b].children@.len() implies nodes2[b].system.writes@.contains(
            (#[trigger] nodes2[b].children@[c]).0,
        ) && system_reads(orig, nodes2[b].children@[c].1, nodes2[b].children@[c].0) by {
        if b < n {
            assert(nodes2[b] == nodes[b]);
        } else {
            let e = node.children@[c];
            assert(system_reads(rem2, e.1, e.0));
            let a = choose|a: int| 0 <= a < rem2.len() && (#[trigger] rem2[a]).id == e.1 && rem2[a].reads@.contains(e.0);
            assert(orig.contains(rem2[a]));
            let i = choose|i: int| 0 <= i < orig.len() && orig[i] == rem2[a];
            assert(orig[i].id == e.1 && orig[i].reads@.contains(e.0));
        }
    }
    assert forall|b: int| 0 <= b < nodes2.len() implies input_target(pairs2, (#[trigger] nodes2[b]).system.id)
        || child_before(nodes2, b, nodes2[b].system.id) by {
        if b < n {
            if input_target(pairs, nodes[b].system.id) {
                let p = choose|p: int| 0 <= p < pairs.len() && (#[trigger] pairs[p]).1 == nodes[b].system.id;
                assert(pairs2[p] == pairs[p]);
            } else {
                let (b1, c1) = choose|b1: int, c1: int|
                    0 <= b1 < b && 0 <= c1 < nodes[b1].children@.len() && (#[trigger] nodes[b1].children@[c1]).1
                        == nodes[b].system.id;
                assert(nodes2[b1] == nodes[b1]);
                assert(nodes2[b1].children@[c1].1 == nodes2[b].system.id);
            }
        } else {
            assert(qx[q.len() as int] == x);
            assert(linked(ins, nodes, qx[q.len() as int], rem[j].id));
            if ins.contains(x) {
                assert(pairs2[pairs.len() as int] == (x, node.system.id));
            } else {
                let b1 = choose|b1: int| 0 <= b1 < nodes.len() && (#[trigger] nodes[b1]).children@.contains((x, rem[j].id));
                let c1 = choose|c1: int| 0 <= c1 < nodes[b1].children@.len() && nodes[b1].children@[c1] == (x, rem[j].id);
                assert(nodes2[b1] == nodes[b1]);
                assert(nodes2[b1].children@[c1].1 == nodes2[b].system.id);
            }
        }
    }
}


/// In `orig`, whose identifiers are unique, a member with the identifier of
/// `orig[i]` is `orig[i]`.
proof fn lemma_same_id(orig: Seq<SystemInfo>, sys: SystemInfo, i: int)
    requires
        unique_ids(system_ids(orig)),
        orig.contains(sys),
        0 <= i < orig.len(),
        sys.id == orig[i].id,
    ensures
        sys == orig[i],
{
    let i2 = choose|i2: int| 0 <= i2 < orig.len() && orig[i2] == sys;
    assert(system_ids(orig)[i2] == system_ids(orig)[i]);
}

/// Once no remaining system reads `x`, `x` moves from the queue to the
/// followed states.
proof fn lemma_follow_done(
    orig: Seq<SystemInfo>,
    ins: Seq<Id>,
    rem: Seq<SystemInfo>,
    nodes: Seq<DiagramNode>,
    q: Seq<Id>,
    pairs: Seq<(Id, Id)>,
    done: Set<Id>,
    x: Id,
)
    requires
        build_inv(orig, ins, rem, nodes, q.push(x), pairs, done),
        forall|a: int| 0 <= a < rem.len() ==> !(#[trigger] rem[a]).reads@.contains(x),
    ensures
        build_inv(orig, ins, rem, nodes, q, pairs, done.insert(x)),
{
    let qx = q.push(x);
    let done2 = done.insert(x);
    assert forall|y: Id| qx.contains(y) implies q.contains(y) || done2.contains(y) by {
        let i = choose|i: int| 0 <= i < qx.len() && qx[i] == y;
        if i < q.len() {
            assert(q[i] == y);
        }
    }
    assert forall|y: Id, a: int|
        #![trigger rem[a].reads@.contains(y)]
        done2.contains(y) && 0 <= a < rem.len() implies !rem[a].reads@.contains(y) by {
        if y != x {
            assert(done.contains(y));
        }
    }
    assert forall|y: Id| #![trigger ins.contains(y)] ins.contains(y) implies q.contains(y) || done2.contains(y) by {
        assert(qx.contains(y) || done.contains(y));
    }
    assert forall|b: int, w: int|
        0 <= b < nodes.len() && 0 <= w < nodes[b].system.writes@.len() implies q.contains(
            #[trigger] nodes[b].system.writes@[w],
        ) || done2.contains(nodes[b].system.writes@[w]) by {
        assert(qx.contains(nodes[b].system.writes@[w]) || done.contains(nodes[b].system.writes@[w]));
    }
    assert forall|qi: int, a: int|
        0 <= qi < q.len() && 0 <= a < rem.len() && (#[trigger] rem[a]).reads@.contains(#[trigger] q[qi])
            implies linked(ins, nodes, q[qi], rem[a].id) by {
        assert(qx[qi] == q[qi]);
    }
}

/// What a finished build gives: every system that reads an input or a state
/// that a node writes is a node, and each child is a node that reads the
/// state of its edge.
proof fn lemma_build_end(
    orig: Seq<SystemInfo>,
    ins: Seq<Id>,
    rem: Seq<SystemInfo>,
    nodes: Seq<DiagramNode>,
    pairs: Seq<(Id, Id)>,
    done: Set<Id>,
)
    requires
        build_inv(orig, ins, rem, nodes, Seq::<Id>::empty(), pairs, done),
    ensures
        forall|i: int, y: Id|
            #![trigger orig[i].reads@.contains(y)]
            0 <= i < orig.len() && orig[i].reads@.contains(y) && (ins.contains(y) || written_by(nodes, y))
                ==> node_ids(nodes).contains(orig[i].id),
        forall|b: int, c: int|
            0 <= b < nodes.len() && 0 <= c < nodes[b].children@.len() ==> node_reads(
                nodes,
                (#[trigger] nodes[b].children@[c]).1,
                nodes[b].children@[c].0,
            ),
{
    assert forall|i: int, y: Id|
        #![trigger orig[i].reads@.contains(y)]
        0 <= i < orig.len() && orig[i].reads@.contains(y) && (ins.contains(y) || written_by(nodes, y))
            implies node_ids(nodes).contains(orig[i].id) by {
        if ins.contains(y) {
            assert(done.contains(y));
        } else {
            let k = choose|k: int| 0 <= k < nodes.len() && (#[trigger] nodes[k]).system.writes@.contains(y);
            let w = choose|w: int| 0 <= w < nodes[k].system.writes@.len() && nodes[k].system.writes@[w] == y;
            assert(done.contains(nodes[k].system.writes@[w]));
        }
        if !node_ids(nodes).contains(orig[i].id) {
            assert(system_ids(rem).contains(orig[i].id));
            let a = choose|a: int| 0 <= a < system_ids(rem).len() && system_ids(rem)[a] == orig[i].id;
            assert(orig.contains(rem[a]));
            lemma_same_id(orig, rem[a], i);
            assert(!rem[a].reads@.contains(y));
        }
    }
    assert forall|b: int, c: int|
        0 <= b < nodes.len() && 0 <= c < nodes[b].children@.len() implies node_reads(
            nodes,
            (#[trigger] nodes[b].children@[c]).1,
            nodes[b].children@[c].0,
        ) by {
        let e = nodes[b].children@[c];
        assert(system_reads(orig, e.1, e.0));
        let i = choose|i: int| 0 <= i < orig.len() && (#[trigger] orig[i]).id == e.1 && orig[i].reads@.contains(e.0);
        assert(written_by(nodes, e.0));
        assert(orig[i].reads@.contains(e.0));
        assert(node_ids(nodes).contains(orig[i].id));
        let k = choose|k: int| 0 <= k < node_ids(nodes).len() && node_ids(nodes)[k] == orig[i].id;
        assert(orig.contains(nodes[k].system));
        lemma_same_id(orig, nodes[k].system, i);
        assert(nodes[k].system.reads@.contains(e.0));
    }
}

/// Place as nodes the remaining systems that read `x`, in their order; each
/// gets as children the systems still remaining that read what it writes,
/// and what it writes joins the queue.
fn take_readers(
    x: Id,
    ins: &Vec<Id>,
    remaining: &mut Vec<SystemInfo>,
    nodes: &mut Vec<DiagramNode>,
    queue: &mut Vec<Id>,
    pairs: &mut Vec<(Id, Id)>,
    Ghost(orig): Ghost<Seq<SystemInfo>>,
    Ghost(done): Ghost<Set<Id>>,
)
    requires
        build_inv(orig, ins@, old(remaining)@, old(nodes)@, old(queue)@.push(x), old(pairs)@, done),
    ensures
        build_inv(orig, ins@, final(remaining)@, final(nodes)@, final(queue)@, final(pairs)@, done.insert(x)),
        final(remaining)@.len() < old(remaining)@.len() || (final(remaining)@ == old(remaining)@
            && final(queue)@ == old(queue)@),
{
    let mut j: usize = 0;
    while j < remaining.len()
        invariant
            j <= remaining@.len(),
            build_inv(orig, ins@, remaining@, nodes@, queue@.push(x), pairs@, done),
            forall|i: int| 0 <= i < j ==> !(#[trigger] remaining@[i]).reads@.contains(x),
            remaining@.len() < old(remaining)@.len() || (remaining@ == old(remaining)@ && queue@
                == old(queue)@),
        decreases remaining@.len() - j,
    {
        if contains_id(&remaining[j].reads, x) {
            let ghost rem0 = remaining@;
            let ghost nodes0 = nodes@;
            let ghost queue0 = queue@;
            let ghost pairs0 = pairs@;
            let n = remaining.remove(j);
            let children = children_of(&n, &remaining);
            if contains_id(ins, x) {
                pairs.push((x, n.id));
            }
            push_all(queue, &n.writes);
            let node = DiagramNode { system: n, children };
            proof {
                lemma_take_reader(orig, ins@, rem0, j as int, nodes0, queue0, pairs0, done, x, node);
            }
            nodes.push(node);
            proof {
                assert forall|i: int| 0 <= i < j implies !(#[trigger] remaining@[i]).reads@.contains(x) by {
                    assert(remaining@[i] == rem0[i]);
                }
            }
        } else {
            j = j + 1;
        }
    }
    proof {
        lemma_follow_done(orig, ins@, remaining@, nodes@, queue@, pairs@, done, x);
    }
}

/// Append `items` to `queue`.
fn push_all(queue: &mut Vec<Id>, items: &Vec<Id>)
    ensures
        final(queue)@ == old(queue)@ + items@,
{
    let mut w: usize = 0;
    while w < items.len()
        invariant
            w <= items@.len(),
            queue@ == old(queue)@ + items@.take(w as int),
        decreases items@.len() - w,
    {
        queue.push(items[w]);
        w = w + 1;
        assert(items@.take(w as int) =~= items@.take(w - 1).push(items@[w - 1]));
    }
    assert(items@.take(w as int) =~= items@);
}

/// `systems` with `system` added, replacing the system with the same identifier.
pub open spec fn with_system(systems: Seq<SystemInfo>, system: SystemInfo) -> Seq<SystemInfo> {
    if exists|i: int| 0 <= i < systems.len() && systems[i].id == system.id {
        systems.update(choose|i: int| 0 <= i < systems.len() && systems[i].id == system.id, system)
    } else {
        systems.push(system)
    }
}

/// `states` with `state` stored under `id`, replacing the state stored there.
pub open spec fn with_state<S>(states: Seq<(Id, S)>, id: Id, state: S) -> Seq<(Id, S)> {
    if state_ids(states).contains(id) {
        states.map_values(|e: (Id, S)| if e.0 == id { (id, state) } else { e })
    } else {
        states.push((id, state))
    }
}

/// The identifiers of some states.
pub open spec fn state_ids<S>(states: Seq<(Id, S)>) -> Seq<Id> {
    states.map_values(|e: (Id, S)| e.0)
}

/// No two entries of `s` have the same identifier.
pub open spec fn unique_ids(s: Seq<Id>) -> bool {
    s.no_duplicates()
}

/// A plugin adds systems and states to a diagram builder.
pub trait Plugin<S> {
    /// Whether `after` is `before` with this plugin's systems and states
    /// added. A plugin that does not say what it adds promises nothing.
    open spec fn adds(&self, before: Builder<S>, after: Builder<S>) -> bool {
        true
    }

    /// Add this plugin's systems and states.
    fn build(&self, builder: &mut Builder<S>)
        ensures
            self.adds(*old(builder), *final(builder)),
    ;
}

/// Builder of a [`Diagram`].
pub struct Builder<S> {
    states: Vec<(Id, S)>,
    inputs: Vec<Id>,
    systems: Vec<SystemInfo>,
}

impl<S> Builder<S> {
    /// States added so far, each under its identifier.
    pub closed spec fn states(&self) -> Seq<(Id, S)> {
        self.states@
    }

    /// Identifiers of the input states.
    pub closed spec fn inputs(&self) -> Seq<Id> {
        self.inputs@
    }

    /// Systems added so far.
    pub closed spec fn systems(&self) -> Seq<SystemInfo> {
        self.systems@
    }

    /// Each state, input and system identifier occurs once.
    #[verifier::type_invariant]
    pub closed spec fn wf(&self) -> bool {
        &&& unique_ids(state_ids(self.states@))
        &&& unique_ids(self.inputs@)
        &&& unique_ids(system_ids(self.systems@))
    }

    /// An empty builder.
    pub fn new() -> (b: Self)
        ensures
            b.states().len() == 0,
            b.inputs().len() == 0,
            b.systems().len() == 0,
    {
        let b = Builder { states: Vec::new(), inputs: Vec::new(), systems: Vec::new() };
        proof {
            assert(state_ids(b.states@) =~= Seq::<Id>::empty());
            assert(system_ids(b.systems@) =~= Seq::<Id>::empty());
        }
        b
    }

    /// Add a system to the diagram, replacing a system with the same identifier.
    pub fn add_system(&mut self, system: SystemInfo) -> (r: &mut Self)
        ensures
            r.systems() == with_system(old(self).systems(), system),
            r.states() == old(self).states(),
            r.inputs() == old(self).inputs(),
            *final(self) == *final(r),
    {
        proof { use_type_invariant(&*self); }
        let ghost old_ids = system_ids(self.systems@);
        match find_system(&self.systems, system.id) {
            Some(i) => {
                proof {
                    let w = choose|j: int| 0 <= j < self.systems@.len() && self.systems@[j].id == system.id;
                    assert(old_ids[w] == old_ids[i as int]);
                    assert(system_ids(self.systems@.update(i as int, system)) =~= old_ids);
                }
                let mut systems: Vec<SystemInfo> = Vec::new();
                std::mem::swap(&mut systems, &mut self.systems);
                systems.set(i, system);
                self.systems = systems;
            },
            None => {
                proof {
                    assert(!old_ids.contains(system.id)) by {
                        if old_ids.contains(system.id) {
                            let j = choose|j: int| 0 <= j < old_ids.len() && old_ids[j] == system.id;
                            assert(self.systems@[j].id == system.id);
                        }
                    }
                    assert(system_ids(self.systems@.push(system)) =~= old_ids.push(system.id));
                }
                let mut systems: Vec<SystemInfo> = Vec::new();
                std::mem::swap(&mut systems, &mut self.systems);
                systems.push(system);
                self.systems = systems;
            },
        }
        self
    }

    /// Add a state to the diagram, replacing the state with the same identifier.
    pub fn add_state(&mut self, id: Id, state: S) -> (r: &mut Self)
        ensures
            r.states() == with_state(old(self).states(), id, state),
            r.systems() == old(self).systems(),
            r.inputs() == old(self).inputs(),
            *final(self) == *final(r),
    {
        proof { use_type_invariant(&*self); }
        let ghost old_ids = state_ids(self.states@);
        let mut i: usize = 0;
        let mut found: Option<usize> = None;
        while i < self.states.len()
            invariant
                i <= self.states@.len(),
                *self == *old(self),
                found is None ==> forall|j: int| 0 <= j < i ==> self.states@[j].0 != id,
                found is Some ==> found->0 < self.states@.len() && self.states@[found->0 as int].0 == id,
            decreases self.states@.len() - i,
        {
            if found.is_none() && self.states[i].0 == id {
                found = Some(i);
            }
            i = i + 1;
        }
        let mut states: Vec<(Id, S)> = Vec::new();
        std::mem::swap(&mut states, &mut self.states);
        match found {
            Some(k) => {
                proof {
                    assert(old_ids[k as int] == id);
                    assert(state_ids(states@.update(k as int, (id, state))) =~= old_ids);
                    assert forall|j: int| 0 <= j < states@.len() && j != k implies states@[j].0 != id by {
                        assert(old_ids[j] != old_ids[k as int]);
                    }
                    assert(with_state(states@, id, state) =~= states@.update(k as int, (id, state)));
                }
                states.set(k, (id, state));
            },
            None => {
                proof {
                    assert(!old_ids.contains(id)) by {
                        if old_ids.contains(id) {
                            let j = choose|j: int| 0 <= j < old_ids.len() && old_ids[j] == id;
                            assert(states@[j].0 == id);
                        }
                    }
                    assert(state_ids(states@.push((id, state))) =~= old_ids.push(id));
                }
                states.push((id, state));
            },
        }
        self.states = states;
        self
    }

    /// Add an input state to the diagram.
    /// Inputs run their connected systems first in the reactive graph.
    pub fn add_input(&mut self, id: Id, input: S) -> (r: &mut Self)
        ensures
            r.inputs() == if old(self).inputs().contains(id) {
                old(self).inputs()
            } else {
                old(self).inputs().push(id)
            },
            r.states() == with_state(old(self).states(), id, input),
            r.systems() == old(self).systems(),
            *final(self) == *final(r),
    {
        proof { use_type_invariant(&*self); }
        if !contains_id(&self.inputs, id) {
            let mut inputs: Vec<Id> = Vec::new();
            std::mem::swap(&mut inputs, &mut self.inputs);
            proof {
                assert forall|a: int, b: int| 0 <= a < b < inputs@.push(id).len()
                    implies inputs@.push(id)[a] != inputs@.push(id)[b] by {
                    if b == inputs@.len() {
                        assert(inputs@.contains(inputs@[a]));
                    }
                }
            }
            inputs.push(id);
            self.inputs = inputs;
        }
        self.add_state(id, input)
    }

    /// Build the diagram: follow the inputs to the systems that read them,
    /// then what those write to the systems that read it, and so on. Each
    /// system reached becomes a node whose reads and writes are sorted; the
    /// systems and states move into the diagram, the inputs stay.
    pub fn build(&mut self) -> (d: Diagram<S>)
        requires
            forall|j: int|
                0 <= j < old(self).systems().len() ==> (#[trigger] old(self).systems()[j]).reads@.no_duplicates()
                    && old(self).systems()[j].writes@.no_duplicates(),
        ensures
            final(self).systems().len() == 0,
            final(self).states().len() == 0,
            final(self).inputs() == old(self).inputs(),
            d.states() == old(self).states(),
            unique_ids(node_ids(d.nodes())),
            nodes_from(d.nodes(), old(self).systems()),
            forall|j: int, x: Id|
                #![trigger old(self).systems()[j].reads@.contains(x)]
                0 <= j < old(self).systems().len() && old(self).systems()[j].reads@.contains(x) && (
                old(self).inputs().contains(x) || written_by(d.nodes(), x)) ==> node_ids(d.nodes()).contains(
                    old(self).systems()[j].id,
                ),
            forall|p: int|
                0 <= p < d.inputs().len() ==> old(self).inputs().contains((#[trigger] d.inputs()[p]).0)
                    && node_reads(d.nodes(), d.inputs()[p].1, d.inputs()[p].0),
            forall|b: int, c: int|
                0 <= b < d.nodes().len() && 0 <= c < d.nodes()[b].children@.len() ==> d.nodes()[b].system.writes@.contains(
                    (#[trigger] d.nodes()[b].children@[c]).0,
                ) && node_reads(d.nodes(), d.nodes()[b].children@[c].1, d.nodes()[b].children@[c].0),
            all_reached(d.nodes(), d.inputs()),
    {
        proof { use_type_invariant(&*self); }
        let mut taken: Vec<SystemInfo> = Vec::new();
        std::mem::swap(&mut taken, &mut self.systems);
        let ghost olds = taken@;
        let mut sorted: Vec<SystemInfo> = Vec::new();
        while taken.len() > 0
            invariant
                olds == old(self).systems(),
                olds.len() == sorted@.len() + taken@.len(),
                taken@ == olds.skip(sorted@.len() as int),
                forall|j: int| 0 <= j < sorted@.len() ==> sorted_version(#[trigger] sorted@[j], olds[j]),
                forall|j: int|
                    0 <= j < old(self).systems().len() ==> (#[trigger] old(self).systems()[j]).reads@.no_duplicates()
                        && old(self).systems()[j].writes@.no_duplicates(),
            decreases taken@.len(),
        {
            let ghost k = sorted@.len() as int;
            let mut system = taken.remove(0);
            assert(system == olds[k]);
            let _ = has_duplicates(&mut system.reads);
            let _ = has_duplicates(&mut system.writes);
            sorted.push(system);
            assert(taken@ =~= olds.skip(k + 1));
        }
        proof {
            assert(system_ids(sorted@) =~= system_ids(olds));
        }
        let ghost orig = sorted@;
        let mut remaining = sorted;
        let mut nodes: Vec<DiagramNode> = Vec::new();
        let mut pairs: Vec<(Id, Id)> = Vec::new();
        let mut queue: Vec<Id> = Vec::new();
        push_all(&mut queue, &self.inputs);
        let ghost mut done: Set<Id> = Set::empty();
        proof {
            assert(node_ids(nodes@) =~= Seq::<Id>::empty());
            assert forall|j: int| 0 <= j < orig.len() implies system_ids(remaining@).contains(
                (#[trigger] orig[j]).id,
            ) || node_ids(nodes@).contains(orig[j].id) by {
                assert(system_ids(remaining@)[j] == orig[j].id);
            }
            assert forall|a: int| 0 <= a < remaining@.len() implies orig.contains(#[trigger] remaining@[a]) by {
                assert(orig[a] == remaining@[a]);
            }
            assert forall|qi: int, a: int|
                0 <= qi < queue@.len() && 0 <= a < remaining@.len() && (#[trigger] remaining@[a]).reads@.contains(
                    #[trigger] queue@[qi],
                ) implies linked(self.inputs@, nodes@, queue@[qi], remaining@[a].id) by {
                assert(self.inputs@[qi] == queue@[qi]);
            }
        }
        while queue.len() > 0
            invariant
                self.inputs@ == old(self).inputs(),
                self.states@ == old(self).states(),
                self.systems@.len() == 0,
                olds == old(self).systems(),
                orig.len() == olds.len(),
                forall|j: int| 0 <= j < orig.len() ==> sorted_version(#[trigger] orig[j], olds[j]),
                build_inv(orig, self.inputs@, remaining@, nodes@, queue@, pairs@, done),
            decreases remaining@.len(), queue@.len(),
        {
            let ghost queue0 = queue@;
            let x = queue.pop().unwrap();
            assert(queue0 =~= queue@.push(x));
            take_readers(x, &self.inputs, &mut remaining, &mut nodes, &mut queue, &mut pairs, Ghost(orig), Ghost(done));
            proof {
                done = done.insert(x);
            }
        }
        proof {
            assert(queue@ =~= Seq::<Id>::empty());
            lemma_build_end(orig, self.inputs@, remaining@, nodes@, pairs@, done);
            assert forall|p: int| 0 <= p < pairs@.len() implies node_ids(nodes@).contains((#[trigger] pairs@[p]).1) by {
                let k = choose|k: int| 0 <= k < nodes@.len() && (#[trigger] nodes@[k]).system.id == pairs@[p].1
                    && nodes@[k].system.reads@.contains(pairs@[p].0);
                assert(node_ids(nodes@)[k] == pairs@[p].1);
            }
            assert forall|b: int, c: int|
                0 <= b < nodes@.len() && 0 <= c < nodes@[b].children@.len() implies node_ids(nodes@).contains(
                    (#[trigger] nodes@[b].children@[c]).1,
                ) by {
                let e = nodes@[b].children@[c];
                assert(node_reads(nodes@, e.1, e.0));
                let k = choose|k: int| 0 <= k < nodes@.len() && (#[trigger] nodes@[k]).system.id == e.1
                    && nodes@[k].system.reads@.contains(e.0);
                assert(node_ids(nodes@)[k] == e.1);
            }
            assert forall|k: int| 0 <= k < nodes@.len() implies node_from(#[trigger] nodes@[k], olds) by {
                assert(orig.contains(nodes@[k].system));
                let j = choose|j: int| 0 <= j < orig.len() && orig[j] == nodes@[k].system;
                assert(sorted_version(orig[j], olds[j]));
                assert(sorted_version(nodes@[k].system, olds[j]));
            }
            assert(nodes_from(nodes@, olds));
            assert forall|j: int, x: Id|
                #![trigger olds[j].reads@.contains(x)]
                0 <= j < olds.len() && olds[j].reads@.contains(x) && (self.inputs@.contains(x) || written_by(
                    nodes@,
                    x,
                )) implies node_ids(nodes@).contains(olds[j].id) by {
                assert(sorted_version(orig[j], olds[j]));
                assert(orig[j].reads@.to_multiset().count(x) == olds[j].reads@.to_multiset().count(x));
                assert(orig[j].reads@.contains(x));
            }
        }
        let mut states: Vec<(Id, S)> = Vec::new();
        std::mem::swap(&mut states, &mut self.states);
        proof {
            assert(state_ids(self.states@) =~= Seq::<Id>::empty());
        }
        Diagram { nodes, states, inputs: pairs }
    }

    /// Add the systems and states of a plugin: the builder becomes what the
    /// plugin's `build` makes of it.
    pub fn add_plugin<P: Plugin<S>>(&mut self, plugin: P) -> (r: &mut Self)
        ensures
            plugin.adds(*old(self), *r),
            *final(self) == *final(r),
    {
        plugin.build(self);
        self
    }
}


/// Some node whose system is in `ids` has system `s` among its children.
pub open spec fn child_of_any(nodes: Seq<DiagramNode>, ids: Seq<Id>, s: Id) -> bool {
    exists|b: int, c: int|
        0 <= b < nodes.len() && ids.contains(nodes[b].system.id) && 0 <= c < nodes[b].children@.len()
            && (#[trigger] nodes[b].children@[c]).1 == s
}

/// A sequence without repeats whose members all occur in `b` is no longer
/// than `b`.
proof fn lemma_unique_subset_len(a: Seq<Id>, b: Seq<Id>)
    requires
        a.no_duplicates(),
        forall|i: int| 0 <= i < a.len() ==> b.contains(#[trigger] a[i]),
    ensures
        a.len() <= b.len(),
{
    a.unique_seq_to_set();
    b.lemma_cardinality_of_set();
    vstd::seq_lib::seq_to_set_is_finite(b);
    assert forall|y: Id| a.to_set().contains(y) implies b.to_set().contains(y) by {
        let i = choose|i: int| 0 <= i < a.len() && a[i] == y;
        assert(b.contains(a[i]));
    }
    vstd::set_lib::lemma_len_subset(a.to_set(), b.to_set());
}

/// Position of the node whose system has identifier `id`, if any.
fn find_node(nodes: &Vec<DiagramNode>, id: Id) -> (r: Option<usize>)
    ensures
        match r {
            Some(k) => k < nodes@.len() && nodes@[k as int].system.id == id,
            None => forall|k: int| 0 <= k < nodes@.len() ==> nodes@[k].system.id != id,
        },
{
    let mut k: usize = 0;
    while k < nodes.len()
        invariant
            k <= nodes@.len(),
            forall|i: int| 0 <= i < k ==> nodes@[i].system.id != id,
        decreases nodes@.len() - k,
    {
        if nodes[k].system.id == id {
            return Some(k);
        }
        k = k + 1;
    }
    None
}

/// Append to `queue` the systems of `children`.
fn push_child_ids(queue: &mut Vec<Id>, children: &Vec<(Id, Id)>)
    ensures
        final(queue)@ == old(queue)@ + children@.map_values(|e: (Id, Id)| e.1),
{
    let mut c: usize = 0;
    while c < children.len()
        invariant
            c <= children@.len(),
            queue@ == old(queue)@ + children@.take(c as int).map_values(|e: (Id, Id)| e.1),
        decreases children@.len() - c,
    {
        queue.push(children[c].1);
        c = c + 1;
        assert(children@.take(c as int).map_values(|e: (Id, Id)| e.1) =~= children@.take(c - 1).map_values(
            |e: (Id, Id)| e.1,
        ).push(children@[c - 1].1));
    }
    assert(children@.take(c as int) =~= children@);
}


/// Every node of `nodes` is reached: it is the system of an input pair or
/// a child of an earlier node.
pub open spec fn all_reached(nodes: Seq<DiagramNode>, pairs: Seq<(Id, Id)>) -> bool {
    forall|b: int|
        0 <= b < nodes.len() ==> input_target(pairs, (#[trigger] nodes[b]).system.id) || child_before(
            nodes,
            b,
            nodes[b].system.id,
        )
}

/// An order of systems that holds the system of each input pair, and the
/// children of each node whose system it holds, holds every node of a
/// diagram whose nodes are all reached.
pub proof fn reached_nodes_run(nodes: Seq<DiagramNode>, pairs: Seq<(Id, Id)>, order: Seq<Id>)
    requires
        all_reached(nodes, pairs),
        forall|p: int| 0 <= p < pairs.len() ==> order.contains((#[trigger] pairs[p]).1),
        forall|b: int, c: int|
            0 <= b < nodes.len() && 0 <= c < nodes[b].children@.len() && order.contains(nodes[b].system.id)
                ==> order.contains((#[trigger] nodes[b].children@[c]).1),
    ensures
        forall|b: int| 0 <= b < nodes.len() ==> order.contains((#[trigger] nodes[b]).system.id),
{
    assert forall|b: int| 0 <= b < nodes.len() implies order.contains((#[trigger] nodes[b]).system.id) by {
        lemma_reached_node_runs(nodes, pairs, order, b);
    }
}

proof fn lemma_reached_node_runs(nodes: Seq<DiagramNode>, pairs: Seq<(Id, Id)>, order: Seq<Id>, b: int)
    requires
        all_reached(nodes, pairs),
        forall|p: int| 0 <= p < pairs.len() ==> order.contains((#[trigger] pairs[p]).1),
        forall|b: int, c: int|
            0 <= b < nodes.len() && 0 <= c < nodes[b].children@.len() && order.contains(nodes[b].system.id)
                ==> order.contains((#[trigger] nodes[b].children@[c]).1),
        0 <= b < nodes.len(),
    ensures
        order.contains(nodes[b].system.id),
    decreases b,
{
    if input_target(pairs, nodes[b].system.id) {
        let p = choose|p: int| 0 <= p < pairs.len() && (#[trigger] pairs[p]).1 == nodes[b].system.id;
        assert(order.contains(pairs[p].1));
    } else {
        assert(child_before(nodes, b, nodes[b].system.id));
        let (b1, c1) = choose|b1: int, c1: int|
            0 <= b1 < b && 0 <= c1 < nodes[b1].children@.len() && (#[trigger] nodes[b1].children@[c1]).1
                == nodes[b].system.id;
        lemma_reached_node_runs(nodes, pairs, order, b1);
        assert(order.contains(nodes[b1].children@[c1].1));
    }
}

/// A diagram: the systems reached from the inputs, each with the systems
/// that read what it writes, and the states they work on.
pub struct Diagram<S> {
    nodes: Vec<DiagramNode>,
    states: Vec<(Id, S)>,
    inputs: Vec<(Id, Id)>,
}

impl<S> Diagram<S> {
    /// The nodes of the diagram.
    pub closed spec fn nodes(&self) -> Seq<DiagramNode> {
        self.nodes@
    }

    /// The states of the diagram, each under its identifier.
    pub closed spec fn states(&self) -> Seq<(Id, S)> {
        self.states@
    }

    /// The `(input, system)` pairs: `system` reads the input state `input`.
    pub closed spec fn inputs(&self) -> Seq<(Id, Id)> {
        self.inputs@
    }

    /// Node identifiers are unique, and each input pair and each child leads
    /// to a node.
    #[verifier::type_invariant]
    closed spec fn wf(&self) -> bool {
        &&& unique_ids(node_ids(self.nodes@))
        &&& forall|p: int|
            0 <= p < self.inputs@.len() ==> node_ids(self.nodes@).contains((#[trigger] self.inputs@[p]).1)
        &&& forall|b: int, c: int|
            0 <= b < self.nodes@.len() && 0 <= c < self.nodes@[b].children@.len() ==> node_ids(
                self.nodes@,
            ).contains((#[trigger] self.nodes@[b].children@[c]).1)
    }

    /// The order in which running the diagram runs its systems: first the
    /// systems of the input pairs, in input order, then the systems due as
    /// children of systems that ran, the last due first. Each system runs
    /// once.
    pub fn run(&self) -> (order: Vec<Id>)
        ensures
            order@.no_duplicates(),
            forall|i: int| 0 <= i < order@.len() ==> node_ids(self.nodes()).contains(#[trigger] order@[i]),
            forall|p: int| 0 <= p < self.inputs().len() ==> order@.contains((#[trigger] self.inputs()[p]).1),
            forall|b: int, c: int|
                0 <= b < self.nodes().len() && 0 <= c < self.nodes()[b].children@.len() && order@.contains(
                    self.nodes()[b].system.id,
                ) ==> order@.contains((#[trigger] self.nodes()[b].children@[c]).1),
            forall|i: int|
                0 <= i < order@.len() ==> input_target(self.inputs(), #[trigger] order@[i]) || child_of_any(
                    self.nodes(),
                    order@.take(i),
                    order@[i],
                ),
            order@.len() > 0 ==> input_target(self.inputs(), order@[0]),
            forall|i: int, j: int|
                0 <= i < j < order@.len() && input_target(self.inputs(), #[trigger] order@[j]) ==> input_target(
                    self.inputs(),
                    #[trigger] order@[i],
                ),
            all_reached(self.nodes(), self.inputs()) ==> forall|b: int|
                0 <= b < self.nodes().len() ==> order@.contains((#[trigger] self.nodes()[b]).system.id),
    {
        proof { use_type_invariant(self); }
        let ghost nodes = self.nodes@;
        let ghost ids = node_ids(self.nodes@);
        let ghost ins = self.inputs@;
        let mut queue: Vec<Id> = Vec::new();
        let mut order: Vec<Id> = Vec::new();
        let mut p: usize = 0;
        while p < self.inputs.len()
            invariant
                p <= ins.len(),
                ins == self.inputs@,
                nodes == self.nodes@,
                ids == node_ids(nodes),
                unique_ids(ids),
                forall|pi: int| 0 <= pi < ins.len() ==> ids.contains((#[trigger] ins[pi]).1),
                forall|b: int, c: int|
                    0 <= b < nodes.len() && 0 <= c < nodes[b].children@.len() ==> ids.contains(
                        (#[trigger] nodes[b].children@[c]).1,
                    ),
                order@.no_duplicates(),
                order@.len() <= ids.len(),
                forall|i: int| 0 <= i < order@.len() ==> ids.contains(#[trigger] order@[i]),
                forall|q: int| 0 <= q < queue@.len() ==> ids.contains(#[trigger] queue@[q]),
                forall|pi: int| 0 <= pi < p ==> order@.contains((#[trigger] ins[pi]).1),
                forall|i: int| 0 <= i < order@.len() ==> input_target(ins, #[trigger] order@[i]),
                forall|b: int, c: int|
                    0 <= b < nodes.len() && 0 <= c < nodes[b].children@.len() && order@.contains(nodes[b].system.id)
                        ==> queue@.contains((#[trigger] nodes[b].children@[c]).1) || order@.contains(nodes[b].children@[c].1),
                forall|q: int| 0 <= q < queue@.len() ==> child_of_any(nodes, order@, #[trigger] queue@[q]),
            decreases ins.len() - p,
        {
            let id = self.inputs[p].1;
            if !contains_id(&order, id) {
                match find_node(&self.nodes, id) {
                    Some(k) => {
                        let ghost o0 = order@;
                        let ghost q0 = queue@;
                        order.push(id);
                        push_child_ids(&mut queue, &self.nodes[k].children);
                        proof {
                            let ch = nodes[k as int].children@.map_values(|e: (Id, Id)| e.1);
                            assert(queue@ == q0 + ch);
                            assert(order@ == o0.push(id));
                            assert(order@.no_duplicates()) by {
                                assert forall|a: int, b: int| 0 <= a < order@.len() && 0 <= b < order@.len() && a != b
                                    implies order@[a] != order@[b] by {
                                    if a == o0.len() {
                                        assert(o0.contains(order@[b]));
                                    } else if b == o0.len() {
                                        assert(o0.contains(order@[a]));
                                    }
                                }
                            }
                            assert forall|i: int| 0 <= i < order@.len() implies ids.contains(#[trigger] order@[i])
                                && input_target(ins, order@[i]) by {
                                if i < o0.len() {
                                    assert(o0[i] == order@[i]);
                                } else {
                                    assert(ins[p as int].1 == order@[i]);
                                }
                            }
                            lemma_unique_subset_len(order@, ids);
                            assert forall|y: Id| o0.contains(y) implies order@.contains(y) by {
                                let i = choose|i: int| 0 <= i < o0.len() && o0[i] == y;
                                assert(order@[i] == y);
                            }
                            assert forall|y: Id| q0.contains(y) implies queue@.contains(y) by {
                                let i = choose|i: int| 0 <= i < q0.len() && q0[i] == y;
                                assert(queue@[i] == y);
                            }
                            assert(order@[o0.len() as int] == id);
                            assert forall|pi: int| 0 <= pi < p + 1 implies order@.contains((#[trigger] ins[pi]).1) by {
                                if pi < p {
                                    assert(o0.contains(ins[pi].1));
                                }
                            }
                            assert forall|q: int| 0 <= q < queue@.len() implies ids.contains(#[trigger] queue@[q])
                                && child_of_any(nodes, order@, queue@[q]) by {
                                if q < q0.len() {
                                    assert(queue@[q] == q0[q]);
                                    let (b, c) = choose|b: int, c: int|
                                        0 <= b < nodes.len() && o0.contains(nodes[b].system.id) && 0 <= c
                                            < nodes[b].children@.len() && (#[trigger] nodes[b].children@[c]).1 == q0[q];
                                    assert(order@.contains(nodes[b].system.id));
                                } else {
                                    let c = q - q0.len();
                                    assert(queue@[q] == nodes[k as int].children@[c].1);
                                    assert(order@.contains(nodes[k as int].system.id));
                                }
                            }
                            assert forall|b: int, c: int|
                                0 <= b < nodes.len() && 0 <= c < nodes[b].children@.len() && order@.contains(nodes[b].system.id)
                                    implies queue@.contains((#[trigger] nodes[b].children@[c]).1) || order@.contains(
                                    nodes[b].children@[c].1,
                                ) by {
                                let y = nodes[b].children@[c].1;
                                if nodes[b].system.id == id {
                                    assert(ids[b] == ids[k as int]);
                                    assert(queue@[q0.len() + c] == y);
                                } else {
                                    let i = choose|i: int| 0 <= i < order@.len() && order@[i] == nodes[b].system.id;
                                    assert(o0[i] == nodes[b].system.id);
                                    assert(o0.contains(nodes[b].system.id));
                                }
                            }
                        }
                    },
                    None => {
                        assert(ids.contains(id));
                        let ghost k = choose|k: int| 0 <= k < ids.len() && ids[k] == id;
                        assert(nodes[k].system.id == id);
                    },
                }
            }
            p = p + 1;
        }
        proof {
            assert forall|q: int| 0 <= q < queue@.len() implies input_target(ins, #[trigger] queue@[q])
                || child_of_any(nodes, order@, queue@[q]) by {}
            assert forall|i: int| 0 <= i < order@.len() implies input_target(ins, #[trigger] order@[i])
                || child_of_any(nodes, order@.take(i), order@[i]) by {}
        }
        while queue.len() > 0
            invariant
                nodes == self.nodes@,
                ins == self.inputs@,
                ids == node_ids(nodes),
                unique_ids(ids),
                forall|pi: int| 0 <= pi < ins.len() ==> ids.contains((#[trigger] ins[pi]).1),
                forall|b: int, c: int|
                    0 <= b < nodes.len() && 0 <= c < nodes[b].children@.len() ==> ids.contains(
                        (#[trigger] nodes[b].children@[c]).1,
                    ),
                order@.no_duplicates(),
                order@.len() <= ids.len(),
                forall|i: int| 0 <= i < order@.len() ==> ids.contains(#[trigger] order@[i]),
                forall|q: int| 0 <= q < queue@.len() ==> ids.contains(#[trigger] queue@[q]),
                forall|pi: int| 0 <= pi < ins.len() ==> queue@.contains((#[trigger] ins[pi]).1) || order@.contains(ins[pi].1),
                forall|b: int, c: int|
                    0 <= b < nodes.len() && 0 <= c < nodes[b].children@.len() && order@.contains(nodes[b].system.id)
                        ==> queue@.contains((#[trigger] nodes[b].children@[c]).1) || order@.contains(nodes[b].children@[c].1),
                forall|i: int|
                    0 <= i < order@.len() ==> input_target(ins, #[trigger] order@[i]) || child_of_any(
                        nodes,
                        order@.take(i),
                        order@[i],
                    ),
                forall|q: int|
                    0 <= q < queue@.len() ==> input_target(ins, #[trigger] queue@[q]) || child_of_any(nodes, order@, queue@[q]),
                forall|pi: int| 0 <= pi < ins.len() ==> order@.contains((#[trigger] ins[pi]).1),
                forall|i: int, j: int|
                    0 <= i < j < order@.len() && input_target(ins, #[trigger] order@[j]) ==> input_target(ins, #[trigger] order@[i]),
            decreases ids.len() - order@.len(), queue@.len(),
        {
            let ghost q0 = queue@;
            let ghost o0 = order@;
            let id = queue.pop().unwrap();
            assert(q0 =~= queue@.push(id));
            assert(q0[q0.len() - 1] == id);
            if !contains_id(&order, id) {
                match find_node(&self.nodes, id) {
                    Some(k) => {
                        let ghost qp = queue@;
                        order.push(id);
                        push_child_ids(&mut queue, &self.nodes[k].children);
                        proof {
                            let ch = nodes[k as int].children@.map_values(|e: (Id, Id)| e.1);
                            assert(queue@ == qp + ch);
                            assert(order@ == o0.push(id));
                            assert(!o0.contains(id));
                            assert(order@.no_duplicates()) by {
                                assert forall|a: int, b: int| 0 <= a < order@.len() && 0 <= b < order@.len() && a != b
                                    implies order@[a] != order@[b] by {
                                    if a == o0.len() {
                                        assert(o0.contains(order@[b]));
                                    } else if b == o0.len() {
                                        assert(o0.contains(order@[a]));
                                    }
                                }
                            }
                            assert forall|i: int| 0 <= i < order@.len() implies ids.contains(#[trigger] order@[i]) by {
                                if i < o0.len() {
                                    assert(o0[i] == order@[i]);
                                }
                            }
                            lemma_unique_subset_len(order@, ids);
                            assert forall|y: Id| q0.contains(y) implies queue@.contains(y) || order@.contains(y) by {
                                let i = choose|i: int| 0 <= i < q0.len() && q0[i] == y;
                                if i < qp.len() {
                                    assert(queue@[i] == y);
                                } else {
                                    assert(order@[o0.len() as int] == y);
                                }
                            }
                            assert forall|y: Id| o0.contains(y) implies order@.contains(y) by {
                                let i = choose|i: int| 0 <= i < o0.len() && o0[i] == y;
                                assert(order@[i] == y);
                            }
                            assert forall|q: int| 0 <= q < queue@.len() implies ids.contains(#[trigger] queue@[q])
                                && (input_target(ins, queue@[q]) || child_of_any(nodes, order@, queue@[q])) by {
                                if q < qp.len() {
                                    assert(queue@[q] == q0[q]);
                                    if !input_target(ins, q0[q]) {
                                        let (b, c) = choose|b: int, c: int|
                                            0 <= b < nodes.len() && o0.contains(nodes[b].system.id) && 0 <= c
                                                < nodes[b].children@.len() && (#[trigger] nodes[b].children@[c]).1 == q0[q];
                                        assert(order@.contains(nodes[b].system.id));
                                    }
                                } else {
                                    let c = q - qp.len();
                                    assert(queue@[q] == nodes[k as int].children@[c].1);
                                    assert(order@[o0.len() as int] == nodes[k as int].system.id);
                                    assert(order@.contains(nodes[k as int].system.id));
                                }
                            }
                            assert forall|pi: int| 0 <= pi < ins.len() implies queue@.contains((#[trigger] ins[pi]).1)
                                || order@.contains(ins[pi].1) by {
                                if o0.contains(ins[pi].1) {
                                } else {
                                    assert(q0.contains(ins[pi].1));
                                }
                            }
                            assert forall|b: int, c: int|
                                0 <= b < nodes.len() && 0 <= c < nodes[b].children@.len() && order@.contains(nodes[b].system.id)
                                    implies queue@.contains((#[trigger] nodes[b].children@[c]).1) || order@.contains(
                                    nodes[b].children@[c].1,
                                ) by {
                                let y = nodes[b].children@[c].1;
                                if nodes[b].system.id == id {
                                    assert(ids[b] == ids[k as int]);
                                    assert(queue@[qp.len() + c] == y);
                                } else {
                                    let i = choose|i: int| 0 <= i < order@.len() && order@[i] == nodes[b].system.id;
                                    assert(o0[i] == nodes[b].system.id);
                                    assert(o0.contains(nodes[b].system.id));
                                    if o0.contains(y) {
                                    } else {
                                        assert(q0.contains(y));
                                    }
                                }
                            }
                            assert(!input_target(ins, id)) by {
                                if input_target(ins, id) {
                                    let pi = choose|pi: int| 0 <= pi < ins.len() && (#[trigger] ins[pi]).1 == id;
                                    assert(o0.contains(ins[pi].1));
                                }
                            }
                            assert forall|pi: int| 0 <= pi < ins.len() implies order@.contains((#[trigger] ins[pi]).1) by {
                                assert(o0.contains(ins[pi].1));
                            }
                            assert forall|i: int, j: int|
                                0 <= i < j < order@.len() && input_target(ins, #[trigger] order@[j]) implies input_target(
                                ins,
                                #[trigger] order@[i],
                            ) by {
                                assert(j < o0.len());
                                assert(order@[j] == o0[j] && order@[i] == o0[i]);
                            }
                            assert forall|i: int| 0 <= i < order@.len() implies input_target(ins, #[trigger] order@[i])
                                || child_of_any(nodes, order@.take(i), order@[i]) by {
                                assert(order@.take(i) =~= o0.take(i));
                                if i == o0.len() {
                                    assert(q0[q0.len() - 1] == order@[i]);
                                    assert(o0.take(i) =~= o0);
                                } else {
                                    assert(order@[i] == o0[i]);
                                }
                            }
                        }
                    },
                    None => {
                        assert(ids.contains(id));
                        let ghost k = choose|k: int| 0 <= k < ids.len() && ids[k] == id;
                        assert(nodes[k].system.id == id);
                    },
                }
            } else {
                proof {
                    assert forall|y: Id| q0.contains(y) implies queue@.contains(y) || order@.contains(y) by {
                        let i = choose|i: int| 0 <= i < q0.len() && q0[i] == y;
                        if i < queue@.len() {
                            assert(queue@[i] == y);
                        }
                    }
                }
            }
        }
        proof {
            if all_reached(nodes, ins) {
                reached_nodes_run(nodes, ins, order@);
            }
            if order@.len() > 0 {
                assert(order@.take(0) =~= Seq::<Id>::empty());
                assert(input_target(ins, order@[0]) || child_of_any(nodes, order@.take(0), order@[0]));
            }
        }
        order
    }

    /// A builder for a diagram.
    pub fn builder() -> (b: Builder<S>)
        ensures
            b.states().len() == 0,
            b.inputs().len() == 0,
            b.systems().len() == 0,
    {
        Builder::new()
    }
}

/// One line of a diagram's graph drawing. Graph identifiers are bytes,
/// drawn as characters: the first system met gets `A`.
#[derive(Clone, Copy, Debug, PartialEq, Eq, Structural)]
pub enum GraphLine {
    /// The input state `input` leads to the system drawn as `graph`.
    Input { input: Id, graph: u8 },
    /// The system `system` is drawn as `graph`.
    System { graph: u8, system: Id },
    /// The system drawn as `from` writes `state`, which the system drawn as
    /// `to` reads.
    Edge { from: u8, state: Id, to: u8 },
}

/// Graph identifiers handed out so far, by type identifier, and the next
/// one to hand out.
pub struct GraphIds {
    /// Graph identifier by type identifier.
    pub ids: Map<u64, u8>,
    /// Next graph identifier.
    pub next: u8,
}

/// The graph identifier after `n`; the byte wraps around after 255.
pub open spec fn next_graph_id(n: u8) -> u8 {
    if n == 255 {
        0
    } else {
        (n + 1) as u8
    }
}

/// The graph identifier of `key`, or, when `key` has none yet, the next
/// identifier, which is then recorded under `record`.
pub open spec fn graph_id(g: GraphIds, key: u64, record: u64) -> (GraphIds, u8) {
    if g.ids.contains_key(key) {
        (g, g.ids[key])
    } else {
        (GraphIds { ids: g.ids.insert(record, g.next), next: next_graph_id(g.next) }, g.next)
    }
}

/// One line per input pair, drawing its system's graph identifier.
pub open spec fn input_lines(g: GraphIds, inputs: Seq<(Id, Id)>) -> (GraphIds, Seq<GraphLine>)
    decreases inputs.len(),
{
    if inputs.len() == 0 {
        (g, Seq::empty())
    } else {
        let (g1, ls) = input_lines(g, inputs.drop_last());
        let (g2, c) = graph_id(g1, inputs.last().1.type_id, inputs.last().1.type_id);
        (g2, ls.push(GraphLine::Input { input: inputs.last().0, graph: c }))
    }
}

/// One line per child of the system drawn as `from`, whose type identifier
/// is `parent`; a child without a graph identifier yet gets the next one,
/// recorded under `parent`.
pub open spec fn edge_lines(g: GraphIds, from: u8, parent: u64, children: Seq<(Id, Id)>) -> (GraphIds, Seq<GraphLine>)
    decreases children.len(),
{
    if children.len() == 0 {
        (g, Seq::empty())
    } else {
        let (g1, ls) = edge_lines(g, from, parent, children.drop_last());
        let (g2, c) = graph_id(g1, children.last().1.type_id, parent);
        (g2, ls.push(GraphLine::Edge { from, state: children.last().0, to: c }))
    }
}

/// The children of the node whose system has identifier `id`.
pub open spec fn node_children(nodes: Seq<DiagramNode>, id: Id) -> Seq<(Id, Id)> {
    nodes[choose|k: int| 0 <= k < nodes.len() && nodes[k].system.id == id].children@
}

/// For each input pair, a line for its system and a line per child of it.
pub open spec fn node_lines(g: GraphIds, nodes: Seq<DiagramNode>, inputs: Seq<(Id, Id)>) -> (GraphIds, Seq<GraphLine>)
    decreases inputs.len(),
{
    if inputs.len() == 0 {
        (g, Seq::empty())
    } else {
        let (g1, ls) = node_lines(g, nodes, inputs.drop_last());
        let id = inputs.last().1;
        let (g2, c) = graph_id(g1, id.type_id, id.type_id);
        let (g3, es) = edge_lines(g2, c, id.type_id, node_children(nodes, id));
        (g3, ls.push(GraphLine::System { graph: c, system: id }) + es)
    }
}

/// The drawing of a diagram: the input lines, then the system and child
/// lines, with graph identifiers handed out from `A` in drawing order.
pub open spec fn drawing(nodes: Seq<DiagramNode>, inputs: Seq<(Id, Id)>) -> Seq<GraphLine> {
    let (g, ls) = input_lines(GraphIds { ids: Map::empty(), next: 65 }, inputs);
    ls + node_lines(g, nodes, inputs).1
}

/// The graph identifier of `key`, handing out `next` under `record` when
/// `key` has none.
fn use_graph_id(ids: &mut HashMap<u64, u8>, next: &mut u8, key: u64, record: u64) -> (c: u8)
    ensures
        (GraphIds { ids: final(ids)@, next: *final(next) }, c) == graph_id(
            GraphIds { ids: old(ids)@, next: *old(next) },
            key,
            record,
        ),
{
    match ids.get(&key) {
        Some(c) => *c,
        None => {
            let c = *next;
            ids.insert(record, c);
            *next = next.wrapping_add(1);
            c
        },
    }
}

impl<S> Diagram<S> {
    /// Draw the diagram as a graph: a line per input pair, then, per input
    /// pair, a line for its system and a line per child of that system.
    pub fn visualize(&self) -> (lines: Vec<GraphLine>)
        ensures
            lines@ == drawing(self.nodes(), self.inputs()),
    {
        proof { use_type_invariant(self); }
        let ghost nodes = self.nodes@;
        let ghost ins = self.inputs@;
        let ghost g0 = GraphIds { ids: Map::empty(), next: 65 };
        let mut ids: HashMap<u64, u8> = HashMap::new();
        let mut next: u8 = 65;
        let mut lines: Vec<GraphLine> = Vec::new();
        let mut p: usize = 0;
        proof {
            assert(ids@ == Map::<u64, u8>::empty());
            assert(ins.take(0) =~= Seq::<(Id, Id)>::empty());
        }
        while p < self.inputs.len()
            invariant
                p <= ins.len(),
                ins == self.inputs@,
                (GraphIds { ids: ids@, next }, lines@) == input_lines(g0, ins.take(p as int)),
            decreases ins.len() - p,
        {
            let (input, id) = self.inputs[p];
            let c = use_graph_id(&mut ids, &mut next, id.type_id, id.type_id);
            lines.push(GraphLine::Input { input, graph: c });
            proof {
                assert(ins.take(p + 1).drop_last() =~= ins.take(p as int));
                assert(ins.take(p + 1).last() == ins[p as int]);
            }
            p = p + 1;
        }
        proof {
            assert(ins.take(p as int) =~= ins);
        }
        let ghost g1 = GraphIds { ids: ids@, next };
        let ghost head = lines@;
        let mut q: usize = 0;
        proof {
            assert(ins.take(0) =~= Seq::<(Id, Id)>::empty());
            assert(lines@ =~= head + Seq::<GraphLine>::empty());
        }
        while q < self.inputs.len()
            invariant
                q <= ins.len(),
                ins == self.inputs@,
                nodes == self.nodes@,
                unique_ids(node_ids(nodes)),
                forall|pi: int| 0 <= pi < ins.len() ==> node_ids(nodes).contains((#[trigger] ins[pi]).1),
                (GraphIds { ids: ids@, next }, lines@.skip(head.len() as int)) == node_lines(g1, nodes, ins.take(q as int)),
                lines@.take(head.len() as int) == head,
                lines@.len() >= head.len(),
            decreases ins.len() - q,
        {
            let id = self.inputs[q].1;
            let k = match find_node(&self.nodes, id) {
                Some(k) => k,
                None => {
                    proof {
                        assert(node_ids(nodes).contains(ins[q as int].1));
                        let k = choose|k: int| 0 <= k < node_ids(nodes).len() && node_ids(nodes)[k] == id;
                        assert(nodes[k].system.id == id);
                    }
                    return lines;
                },
            };
            proof {
                let kc = choose|kk: int| 0 <= kk < nodes.len() && nodes[kk].system.id == id;
                assert(node_ids(nodes)[kc] == node_ids(nodes)[k as int]);
                assert(kc == k);
                assert(node_children(nodes, id) == nodes[k as int].children@);
            }
            let ghost before = lines@;
            let ghost gb = GraphIds { ids: ids@, next };
            let c = use_graph_id(&mut ids, &mut next, id.type_id, id.type_id);
            lines.push(GraphLine::System { graph: c, system: id });
            let children = &self.nodes[k].children;
            let ghost ch = children@;
            let ghost g2 = GraphIds { ids: ids@, next };
            let ghost mid = lines@;
            let mut j: usize = 0;
            proof {
                assert(ch.take(0) =~= Seq::<(Id, Id)>::empty());
                assert(lines@ =~= mid + Seq::<GraphLine>::empty());
            }
            while j < children.len()
                invariant
                    j <= ch.len(),
                    ch == children@,
                    (GraphIds { ids: ids@, next }, lines@.skip(mid.len() as int)) == edge_lines(g2, c, id.type_id, ch.take(j as int)),
                    lines@.take(mid.len() as int) == mid,
                    lines@.len() >= mid.len(),
                decreases ch.len() - j,
            {
                let (state, child) = children[j];
                let ghost l0 = lines@;
                let t = use_graph_id(&mut ids, &mut next, child.type_id, id.type_id);
                lines.push(GraphLine::Edge { from: c, state, to: t });
                proof {
                    assert(ch.take(j + 1).drop_last() =~= ch.take(j as int));
                    assert(ch.take(j + 1).last() == ch[j as int]);
                    assert(lines@.skip(mid.len() as int) =~= l0.skip(mid.len() as int).push(GraphLine::Edge { from: c, state, to: t }));
                    assert(lines@.take(mid.len() as int) =~= l0.take(mid.len() as int));
                }
                j = j + 1;
            }
            proof {
                assert(ch.take(j as int) =~= ch);
                let tq = ins.take(q + 1);
                assert(tq.drop_last() =~= ins.take(q as int));
                assert(tq.last() == ins[q as int]);
                assert(mid.skip(head.len() as int) =~= before.skip(head.len() as int).push(GraphLine::System { graph: c, system: id }));
                assert(lines@.skip(head.len() as int) =~= mid.skip(head.len() as int) + lines@.skip(mid.len() as int));
                assert(lines@.take(head.len() as int) =~= mid.take(head.len() as int));
                assert(mid.take(head.len() as int) =~= before.take(head.len() as int));
            }
            q = q + 1;
        }
        proof {
            assert(ins.take(q as int) =~= ins);
            assert(lines@ =~= head + lines@.skip(head.len() as int));
        }
        lines
    }
}

/// Storing `state` under `id` leaves exactly that state under `id`: the
/// pair `(id, state)` is held, every entry under `id` is that pair, the
/// entries under other identifiers are exactly the ones held before, and
/// identifiers stay unique. An identifier already present keeps the number
/// of entries; a new one adds one entry.
pub proof fn stored_state_replaces<S>(states: Seq<(Id, S)>, id: Id, state: S)
    ensures
        with_state(states, id, state).contains((id, state)),
        forall|i: int| 0 <= i < with_state(states, id, state).len() && (#[trigger] with_state(states, id, state)[i]).0 == id
            ==> with_state(states, id, state)[i] == (id, state),
        forall|e: (Id, S)| e.0 != id ==> (#[trigger] with_state(states, id, state).contains(e) <==> states.contains(e)),
        unique_ids(state_ids(states)) ==> unique_ids(state_ids(with_state(states, id, state))),
        with_state(states, id, state).len() == if state_ids(states).contains(id) {
            states.len()
        } else {
            states.len() + 1
        },
{
    let w = with_state(states, id, state);
    if state_ids(states).contains(id) {
        let k = choose|k: int| 0 <= k < state_ids(states).len() && state_ids(states)[k] == id;
        assert(w[k] == (id, state));
        assert forall|e: (Id, S)| e.0 != id implies (w.contains(e) <==> states.contains(e)) by {
            if w.contains(e) {
                let i = choose|i: int| 0 <= i < w.len() && w[i] == e;
                assert(states[i] == e);
            }
            if states.contains(e) {
                let i = choose|i: int| 0 <= i < states.len() && states[i] == e;
                assert(w[i] == e);
            }
        }
        assert(state_ids(w) =~= state_ids(states));
    } else {
        assert(w[states.len() as int] == (id, state));
        assert forall|i: int| 0 <= i < w.len() && (#[trigger] w[i]).0 == id implies w[i] == (id, state) by {
            if i < states.len() {
                assert(state_ids(states)[i] == id);
            }
        }
        assert forall|e: (Id, S)| e.0 != id implies (w.contains(e) <==> states.contains(e)) by {
            if w.contains(e) {
                let i = choose|i: int| 0 <= i < w.len() && w[i] == e;
                assert(i < states.len());
                assert(states[i] == e);
            }
            if states.contains(e) {
                let i = choose|i: int| 0 <= i < states.len() && states[i] == e;
                assert(w[i] == e);
            }
        }
        assert(state_ids(w) =~= state_ids(states).push(id));
        if unique_ids(state_ids(states)) {
            assert forall|a: int, b: int| 0 <= a < state_ids(w).len() && 0 <= b < state_ids(w).len() && a != b
                implies state_ids(w)[a] != state_ids(w)[b] by {
                if a == states.len() {
                    assert(state_ids(states).contains(state_ids(states)[b]));
                } else if b == states.len() {
                    assert(state_ids(states).contains(state_ids(states)[a]));
                }
            }
        }
    }
}

/// The graph identifiers that the input lines of a drawing hand out, by
/// type identifier.
pub open spec fn input_graph_ids(inputs: Seq<(Id, Id)>) -> Map<u64, u8> {
    input_lines(GraphIds { ids: Map::empty(), next: 65 }, inputs).0.ids
}

/// `line` uses the graph identifiers `ids` for the systems it names: an
/// input line leads to the identifier of the system of an input pair, a
/// system line is for the system of an input pair drawn under its
/// identifier, and an edge runs from the identifier of a system to the
/// identifier of a child of it that reads the edge's state.
pub open spec fn drawn_with(ids: Map<u64, u8>, nodes: Seq<DiagramNode>, inputs: Seq<(Id, Id)>, line: GraphLine) -> bool {
    match line {
        GraphLine::Input { input, graph } => exists|p: int|
            0 <= p < inputs.len() && (#[trigger] inputs[p]).0 == input && graph == ids[inputs[p].1.type_id],
        GraphLine::System { graph, system } => (exists|p: int| 0 <= p < inputs.len() && (#[trigger] inputs[p]).1 == system)
            && graph == ids[system.type_id],
        GraphLine::Edge { from, state, to } => exists|b: int, c: int|
            0 <= b < nodes.len() && 0 <= c < nodes[b].children@.len() && (#[trigger] nodes[b].children@[c]).0 == state
                && from == ids[nodes[b].system.id.type_id] && to == ids[nodes[b].children@[c].1.type_id],
    }
}

proof fn lemma_input_lines(g: GraphIds, ins: Seq<(Id, Id)>)
    ensures
        ({
            let (g2, ls) = input_lines(g, ins);
            &&& ls.len() == ins.len()
            &&& forall|k: u64| g.ids.contains_key(k) ==> #[trigger] g2.ids.contains_key(k) && g2.ids[k] == g.ids[k]
            &&& forall|p: int| 0 <= p < ins.len() ==> g2.ids.contains_key((#[trigger] ins[p]).1.type_id)
            &&& forall|i: int| 0 <= i < ins.len() ==> #[trigger] ls[i] == GraphLine::Input {
                input: ins[i].0,
                graph: g2.ids[ins[i].1.type_id],
            }
        }),
    decreases ins.len(),
{
    if ins.len() > 0 {
        let d = ins.drop_last();
        lemma_input_lines(g, d);
        let (g1, ls1) = input_lines(g, d);
        let t = ins.last().1.type_id;
        let (g2, ls) = input_lines(g, ins);
        assert(forall|k: u64| g1.ids.contains_key(k) ==> #[trigger] g2.ids.contains_key(k) && g2.ids[k] == g1.ids[k]);
        assert forall|p: int| 0 <= p < ins.len() implies g2.ids.contains_key((#[trigger] ins[p]).1.type_id) by {
            if p < d.len() {
                assert(d[p] == ins[p]);
            }
        }
        assert forall|i: int| 0 <= i < ins.len() implies #[trigger] ls[i] == GraphLine::Input {
            input: ins[i].0,
            graph: g2.ids[ins[i].1.type_id],
        } by {
            if i < d.len() {
                assert(d[i] == ins[i]);
                assert(ls[i] == ls1[i]);
            }
        }
    }
}

proof fn lemma_edge_lines_known(g: GraphIds, from: u8, parent: u64, children: Seq<(Id, Id)>)
    requires
        forall|j: int| 0 <= j < children.len() ==> g.ids.contains_key((#[trigger] children[j]).1.type_id),
    ensures
        edge_lines(g, from, parent, children).0 == g,
        edge_lines(g, from, parent, children).1.len() == children.len(),
        forall|j: int| 0 <= j < children.len() ==> #[trigger] edge_lines(g, from, parent, children).1[j]
            == (GraphLine::Edge { from, state: children[j].0, to: g.ids[children[j].1.type_id] }),
    decreases children.len(),
{
    if children.len() > 0 {
        let d = children.drop_last();
        assert forall|j: int| 0 <= j < d.len() implies g.ids.contains_key((#[trigger] d[j]).1.type_id) by {
            assert(d[j] == children[j]);
        }
        lemma_edge_lines_known(g, from, parent, d);
        assert(children.last() == children[children.len() - 1]);
        assert forall|j: int| 0 <= j < children.len() implies #[trigger] edge_lines(g, from, parent, children).1[j]
            == GraphLine::Edge { from, state: children[j].0, to: g.ids[children[j].1.type_id] } by {
            if j < d.len() {
                assert(d[j] == children[j]);
            }
        }
    }
}

proof fn lemma_node_lines_known(g: GraphIds, nodes: Seq<DiagramNode>, all: Seq<(Id, Id)>, n: int)
    requires
        0 <= n <= all.len(),
        forall|p: int| 0 <= p < all.len() ==> node_ids(nodes).contains((#[trigger] all[p]).1),
        forall|p: int| 0 <= p < all.len() ==> g.ids.contains_key((#[trigger] all[p]).1.type_id),
        forall|b: int, c: int| 0 <= b < nodes.len() && 0 <= c < nodes[b].children@.len()
            ==> g.ids.contains_key((#[trigger] nodes[b].children@[c]).1.type_id),
    ensures
        node_lines(g, nodes, all.take(n)).0 == g,
        forall|i: int| 0 <= i < node_lines(g, nodes, all.take(n)).1.len() ==> drawn_with(
            g.ids,
            nodes,
            all,
            #[trigger] node_lines(g, nodes, all.take(n)).1[i],
        ),
    decreases n,
{
    if n > 0 {
        let ins = all.take(n);
        assert(ins.drop_last() =~= all.take(n - 1));
        lemma_node_lines_known(g, nodes, all, n - 1);
        let ls = node_lines(g, nodes, all.take(n - 1)).1;
        let id = all[n - 1];
        assert(ins.last() == all[n - 1]);
        let id = all[n - 1].1;
        assert(node_ids(nodes).contains(id));
        let k0 = choose|k: int| 0 <= k < node_ids(nodes).len() && node_ids(nodes)[k] == id;
        assert(nodes[k0].system.id == id);
        let k = choose|k: int| 0 <= k < nodes.len() && nodes[k].system.id == id;
        let ch = nodes[k].children@;
        assert(node_children(nodes, id) == ch);
        let c = g.ids[id.type_id];
        assert forall|j: int| 0 <= j < ch.len() implies g.ids.contains_key((#[trigger] ch[j]).1.type_id) by {
            assert(g.ids.contains_key(nodes[k].children@[j].1.type_id));
        }
        lemma_edge_lines_known(g, c, id.type_id, ch);
        let es = edge_lines(g, c, id.type_id, ch).1;
        let out = node_lines(g, nodes, ins).1;
        assert(out == ls.push(GraphLine::System { graph: c, system: id }) + es);
        assert forall|i: int| 0 <= i < out.len() implies drawn_with(g.ids, nodes, all, #[trigger] out[i]) by {
            if i < ls.len() {
                assert(out[i] == ls[i]);
            } else if i == ls.len() {
                assert(out[i] == GraphLine::System { graph: c, system: id });
                assert(all[n - 1].1 == id);
            } else {
                let j = i - ls.len() - 1;
                assert(out[i] == es[j]);
                assert(nodes[k].children@[j] == ch[j]);
            }
        }
    }
}

/// When the child of every system is itself the system of an input pair, a
/// drawing names each system by one graph identifier, the one its input
/// line hands out: every input line leads to the identifier of its system,
/// every system line draws its system under that identifier, and every edge
/// runs from the identifier of a system to the identifier of a child of it
/// that reads the edge's state, so that it ends at the line that draws that
/// child.
pub proof fn drawing_names_each_system_once(nodes: Seq<DiagramNode>, inputs: Seq<(Id, Id)>)
    requires
        forall|p: int| 0 <= p < inputs.len() ==> node_ids(nodes).contains((#[trigger] inputs[p]).1),
        forall|b: int, c: int| 0 <= b < nodes.len() && 0 <= c < nodes[b].children@.len() ==> exists|p: int|
            0 <= p < inputs.len() && (#[trigger] inputs[p]).1 == (#[trigger] nodes[b].children@[c]).1,
    ensures
        forall|p: int| 0 <= p < inputs.len() ==> input_graph_ids(inputs).contains_key((#[trigger] inputs[p]).1.type_id),
        drawing(nodes, inputs).len() >= inputs.len(),
        forall|p: int| 0 <= p < inputs.len() ==> #[trigger] drawing(nodes, inputs)[p] == (GraphLine::Input {
            input: inputs[p].0,
            graph: input_graph_ids(inputs)[inputs[p].1.type_id],
        }),
        forall|i: int| 0 <= i < drawing(nodes, inputs).len() ==> drawn_with(
            input_graph_ids(inputs),
            nodes,
            inputs,
            #[trigger] drawing(nodes, inputs)[i],
        ),
{
    let g0 = GraphIds { ids: Map::empty(), next: 65 };
    lemma_input_lines(g0, inputs);
    let (g1, ls) = input_lines(g0, inputs);
    assert forall|b: int, c: int| 0 <= b < nodes.len() && 0 <= c < nodes[b].children@.len()
        implies g1.ids.contains_key((#[trigger] nodes[b].children@[c]).1.type_id) by {
        let p = choose|p: int| 0 <= p < inputs.len() && (#[trigger] inputs[p]).1 == nodes[b].children@[c].1;
        assert(g1.ids.contains_key(inputs[p].1.type_id));
    }
    assert(inputs.take(inputs.len() as int) =~= inputs);
    lemma_node_lines_known(g1, nodes, inputs, inputs.len() as int);
    let rest = node_lines(g1, nodes, inputs).1;
    assert forall|i: int| 0 <= i < drawing(nodes, inputs).len() implies drawn_with(
        g1.ids,
        nodes,
        inputs,
        #[trigger] drawing(nodes, inputs)[i],
    ) by {
        if i < ls.len() {
            assert(drawing(nodes, inputs)[i] == ls[i]);
            assert(inputs[i] == inputs[i]);
        } else {
            assert(drawing(nodes, inputs)[i] == rest[i - ls.len()]);
        }
    }
}

proof fn lemma_input_ids_distinct(g: GraphIds, ins: Seq<(Id, Id)>)
    requires
        65 <= g.next,
        g.next + ins.len() <= 255,
        forall|k: u64| #[trigger] g.ids.contains_key(k) ==> 65 <= g.ids[k] < g.next,
        forall|k1: u64, k2: u64| #[trigger] g.ids.contains_key(k1) && #[trigger] g.ids.contains_key(k2) && k1 != k2
            ==> g.ids[k1] != g.ids[k2],
    ensures
        ({
            let g2 = input_lines(g, ins).0;
            &&& g.next <= g2.next <= g.next + ins.len()
            &&& forall|k: u64| #[trigger] g2.ids.contains_key(k) ==> 65 <= g2.ids[k] < g2.next
            &&& forall|k1: u64, k2: u64| #[trigger] g2.ids.contains_key(k1) && #[trigger] g2.ids.contains_key(k2) && k1
                != k2 ==> g2.ids[k1] != g2.ids[k2]
            &&& forall|k: u64| #[trigger] g2.ids.contains_key(k) ==> g.ids.contains_key(k) || exists|p: int|
                0 <= p < ins.len() && (#[trigger] ins[p]).1.type_id == k
        }),
    decreases ins.len(),
{
    if ins.len() > 0 {
        let d = ins.drop_last();
        lemma_input_ids_distinct(g, d);
        let g1 = input_lines(g, d).0;
        let g2 = input_lines(g, ins).0;
        assert forall|k: u64| #[trigger] g2.ids.contains_key(k) implies g.ids.contains_key(k) || exists|p: int|
            0 <= p < ins.len() && (#[trigger] ins[p]).1.type_id == k by {
            if g1.ids.contains_key(k) {
                if !g.ids.contains_key(k) {
                    let p = choose|p: int| 0 <= p < d.len() && (#[trigger] d[p]).1.type_id == k;
                    assert(ins[p] == d[p]);
                }
            } else {
                assert(ins[ins.len() - 1] == ins.last());
            }
        }
    }
}

/// While a diagram has at most 190 input pairs, the graph identifiers its
/// input lines hand out are letters from `A` on, one per system of an input
/// pair, and different systems get different letters.
pub proof fn input_graph_ids_distinct(inputs: Seq<(Id, Id)>)
    requires
        inputs.len() <= 190,
    ensures
        forall|k: u64| #[trigger] input_graph_ids(inputs).contains_key(k) <==> exists|p: int|
            0 <= p < inputs.len() && (#[trigger] inputs[p]).1.type_id == k,
        forall|k: u64| #[trigger] input_graph_ids(inputs).contains_key(k) ==> 65 <= input_graph_ids(inputs)[k] < 65 + inputs.len(),
        forall|k1: u64, k2: u64|
            #[trigger] input_graph_ids(inputs).contains_key(k1) && #[trigger] input_graph_ids(inputs).contains_key(k2)
                && k1 != k2 ==> input_graph_ids(inputs)[k1] != input_graph_ids(inputs)[k2],
{
    let g0 = GraphIds { ids: Map::empty(), next: 65 };
    lemma_input_ids_distinct(g0, inputs);
    lemma_input_lines(g0, inputs);
}

} // verus!
