//! The knowledge graph: symmetric links between memories and the renderable
//! graph built from them.
use vstd::prelude::*;

use crate::domain::{items_view, texts, MemoryItem, MemoryItemView};
use crate::error::SynapseError;
use crate::text::{lemma_text_lt_asymmetric, lemma_text_lt_total, str_lt, text_lt};

verus! {

/// A memory as a node of the graph.
#[derive(Clone, Debug, PartialEq)]
pub struct GraphNode {
    pub id: String,
    pub label: String,
    pub track: String,
}

/// An undirected link between two memories, stored with the smaller id first.
#[derive(Clone, Debug, PartialEq)]
pub struct GraphEdge {
    pub source: String,
    pub target: String,
}

/// A renderable graph of memories and their links.
#[derive(Clone, Debug, PartialEq)]
pub struct KnowledgeGraph {
    pub nodes: Vec<GraphNode>,
    pub edges: Vec<GraphEdge>,
}

/// A node as (id, label, track).
pub open spec fn node_view(n: GraphNode) -> (Seq<char>, Seq<char>, Seq<char>) {
    (n.id@, n.label@, n.track@)
}

/// An edge as (source, target).
pub open spec fn edge_view(e: GraphEdge) -> (Seq<char>, Seq<char>) {
    (e.source@, e.target@)
}

/// The node that stands for a memory: its id, its prompt as label, its track.
pub open spec fn node_of(m: MemoryItemView) -> (Seq<char>, Seq<char>, Seq<char>) {
    (m.id, m.prompt, m.training_track)
}

/// The two ids of a link, the smaller (in text order) first.
pub open spec fn ordered_pair(a: Seq<char>, b: Seq<char>) -> (Seq<char>, Seq<char>) {
    if text_lt(b, a) { (b, a) } else { (a, b) }
}

/// The links one memory declares, as ordered pairs, in the order of its
/// `related_ids`.
pub open spec fn item_pairs(m: MemoryItemView) -> Seq<(Seq<char>, Seq<char>)> {
    m.related_ids.map_values(|r: Seq<char>| ordered_pair(m.id, r))
}

/// All links the memories declare, item by item.
pub open spec fn link_pairs(items: Seq<MemoryItemView>) -> Seq<(Seq<char>, Seq<char>)>
    decreases items.len(),
{
    if items.len() == 0 {
        Seq::empty()
    } else {
        link_pairs(items.drop_last()) + item_pairs(items.last())
    }
}

/// `s` with every element after its first occurrence dropped.
pub open spec fn first_occurrences<T>(s: Seq<T>) -> Seq<T>
    decreases s.len(),
{
    if s.len() == 0 {
        s
    } else {
        let d = first_occurrences(s.drop_last());
        if d.contains(s.last()) {
            d
        } else {
            d.push(s.last())
        }
    }
}

/// Whether a text occurs among the texts of `v`.
pub fn contains_text(v: &Vec<String>, x: &String) -> (found: bool)
    ensures
        found == texts(v@).contains(x@),
{
    let n = v.len();
    for i in 0..n
        invariant
            n == v@.len(),
            forall|k: int| 0 <= k < i ==> v@[k]@ != x@,
    {
        if v[i] == *x {
            proof {
                assert(texts(v@)[i as int] == x@);
            }
            return true;
        }
    }
    proof {
        if texts(v@).contains(x@) {
            let k = choose|k: int| 0 <= k < texts(v@).len() && texts(v@)[k] == x@;
            assert(v@[k]@ == x@);
        }
    }
    false
}

/// Whether some memory has the given id.
pub open spec fn has_id(items: Seq<MemoryItemView>, id: Seq<char>) -> bool {
    exists|k: int| 0 <= k < items.len() && items[k].id == id
}

fn find_id(items: &[MemoryItem], id: &String) -> (found: bool)
    ensures
        found == has_id(items_view(items@), id@),
{
    let n = items.len();
    for i in 0..n
        invariant
            n == items@.len(),
            forall|k: int| 0 <= k < i ==> items@[k]@.id != id@,
    {
        if items[i].id == *id {
            proof {
                assert(items_view(items@)[i as int].id == id@);
            }
            return true;
        }
    }
    proof {
        if has_id(items_view(items@), id@) {
            let k = choose|k: int|
                0 <= k < items_view(items@).len() && items_view(items@)[k].id == id@;
            assert(items@[k]@.id == id@);
        }
    }
    false
}

/// `x` added at the end of `rel` unless it is already there.
pub open spec fn add_link(rel: Seq<Seq<char>>, x: Seq<char>) -> Seq<Seq<char>> {
    if rel.contains(x) { rel } else { rel.push(x) }
}

/// A memory after linking `a` and `b`: a memory with id `a` gains `b`, one
/// with id `b` gains `a`, each only if not already linked.
pub open spec fn linked(m: MemoryItemView, a: Seq<char>, b: Seq<char>) -> MemoryItemView {
    if m.id == a {
        MemoryItemView { related_ids: add_link(m.related_ids, b), ..m }
    } else if m.id == b {
        MemoryItemView { related_ids: add_link(m.related_ids, a), ..m }
    } else {
        m
    }
}

/// The memories after linking `a` and `b`.
pub open spec fn link_all(items: Seq<MemoryItemView>, a: Seq<char>, b: Seq<char>) -> Seq<
    MemoryItemView,
> {
    items.map_values(|m: MemoryItemView| linked(m, a, b))
}

/// Symmetrically links two memories (adds each id to the other's
/// `related_ids`). Idempotent: linking an already-linked pair changes nothing.
/// Fails, changing nothing, when the ids are equal or one of them is unknown
/// (the first id is checked first).
pub fn link(items: &mut [MemoryItem], id_a: &str, id_b: &str) -> (r: Result<(), SynapseError>)
    ensures
        id_a@ == id_b@ ==> (r matches Err(SynapseError::InvalidOperation(msg)) && msg@
            == "cannot link a memory to itself"@),
        id_a@ != id_b@ && !has_id(items_view(old(items)@), id_a@) ==> (r matches Err(
            SynapseError::NotFound(id),
        ) && id@ == id_a@),
        id_a@ != id_b@ && has_id(items_view(old(items)@), id_a@) && !has_id(
            items_view(old(items)@),
            id_b@,
        ) ==> (r matches Err(SynapseError::NotFound(id)) && id@ == id_b@),
        r is Err ==> items_view(final(items)@) == items_view(old(items)@),
        r is Ok <==> (id_a@ != id_b@ && has_id(items_view(old(items)@), id_a@) && has_id(
            items_view(old(items)@),
            id_b@,
        )),
        r is Ok ==> items_view(final(items)@) == link_all(items_view(old(items)@), id_a@, id_b@),
{
    let a = id_a.to_owned();
    let b = id_b.to_owned();
    if a == b {
        return Err(SynapseError::InvalidOperation("cannot link a memory to itself".to_owned()));
    }
    if !find_id(&*items, &a) {
        return Err(SynapseError::NotFound(a));
    }
    if !find_id(&*items, &b) {
        return Err(SynapseError::NotFound(b));
    }
    let n = items.len();
    for i in 0..n
        invariant
            n == items@.len(),
            n == old(items)@.len(),
            a@ == id_a@,
            b@ == id_b@,
            a@ != b@,
            forall|k: int| 0 <= k < i ==> items@[k]@ == linked(old(items)@[k]@, a@, b@),
            forall|k: int| i <= k < n ==> items@[k]@ == old(items)@[k]@,
    {
        if items[i].id == a {
            if !contains_text(&items[i].related_ids, &b) {
                let ghost prev = items@[i as int].related_ids@;
                items[i].related_ids.push(b.clone());
                proof {
                    assert(texts(items@[i as int].related_ids@) =~= texts(prev).push(b@));
                }
            }
        } else if items[i].id == b {
            if !contains_text(&items[i].related_ids, &a) {
                let ghost prev = items@[i as int].related_ids@;
                items[i].related_ids.push(a.clone());
                proof {
                    assert(texts(items@[i as int].related_ids@) =~= texts(prev).push(a@));
                }
            }
        }
    }
    proof {
        assert(items_view(items@) =~= link_all(items_view(old(items)@), a@, b@));
    }
    Ok(())
}

/// `rel` without any occurrence of `x`.
pub open spec fn drop_link(rel: Seq<Seq<char>>, x: Seq<char>) -> Seq<Seq<char>> {
    rel.filter(|r: Seq<char>| r != x)
}

/// A memory after unlinking `a` and `b`: a memory with id `a` loses every
/// `b`, otherwise one with id `b` loses every `a`.
pub open spec fn unlinked(m: MemoryItemView, a: Seq<char>, b: Seq<char>) -> MemoryItemView {
    if m.id == a {
        MemoryItemView { related_ids: drop_link(m.related_ids, b), ..m }
    } else if m.id == b {
        MemoryItemView { related_ids: drop_link(m.related_ids, a), ..m }
    } else {
        m
    }
}

/// The memories after unlinking `a` and `b`.
pub open spec fn unlink_all(items: Seq<MemoryItemView>, a: Seq<char>, b: Seq<char>) -> Seq<
    MemoryItemView,
> {
    items.map_values(|m: MemoryItemView| unlinked(m, a, b))
}

/// The strings of `v` whose text differs from `x`, in order.
fn without_text(v: &Vec<String>, x: &String) -> (r: Vec<String>)
    ensures
        texts(r@) == drop_link(texts(v@), x@),
{
    let mut r: Vec<String> = Vec::new();
    let n = v.len();
    for i in 0..n
        invariant
            n == v@.len(),
            texts(r@) == drop_link(texts(v@).take(i as int), x@),
    {
        let ghost before = r@;
        let ghost t = texts(v@).take(i + 1);
        proof {
            assert(t.drop_last() =~= texts(v@).take(i as int));
            assert(t.last() == v@[i as int]@);
            reveal_with_fuel(Seq::filter, 1);
        }
        if v[i] != *x {
            r.push(v[i].clone());
            proof {
                assert(texts(r@) =~= texts(before).push(v@[i as int]@));
            }
        }
    }
    proof {
        assert(texts(v@).take(n as int) =~= texts(v@));
    }
    r
}

/// Symmetrically removes the link between two memories: a memory with id
/// `id_a` drops `id_b` from its links, otherwise one with id `id_b` drops
/// `id_a`. Changes nothing for pairs that are not linked.
pub fn unlink(items: &mut [MemoryItem], id_a: &str, id_b: &str)
    ensures
        items_view(final(items)@) == unlink_all(items_view(old(items)@), id_a@, id_b@),
{
    let a = id_a.to_owned();
    let b = id_b.to_owned();
    let n = items.len();
    for i in 0..n
        invariant
            n == items@.len(),
            n == old(items)@.len(),
            a@ == id_a@,
            b@ == id_b@,
            forall|k: int| 0 <= k < i ==> items@[k]@ == unlinked(old(items)@[k]@, a@, b@),
            forall|k: int| i <= k < n ==> items@[k]@ == old(items)@[k]@,
    {
        if items[i].id == a {
            let kept = without_text(&items[i].related_ids, &b);
            items[i].related_ids = kept;
        } else if items[i].id == b {
            let kept = without_text(&items[i].related_ids, &a);
            items[i].related_ids = kept;
        }
    }
    proof {
        assert(items_view(items@) =~= unlink_all(items_view(old(items)@), a@, b@));
    }
}

/// Whether the edge (source, target) is already among `edges`.
fn contains_edge(edges: &Vec<GraphEdge>, source: &String, target: &String) -> (found: bool)
    ensures
        found == edges@.map_values(|e: GraphEdge| edge_view(e)).contains((source@, target@)),
{
    let n = edges.len();
    for i in 0..n
        invariant
            n == edges@.len(),
            forall|k: int| 0 <= k < i ==> edge_view(#[trigger] edges@[k]) != (source@, target@),
    {
        if edges[i].source == *source && edges[i].target == *target {
            proof {
                assert(edges@.map_values(|e: GraphEdge| edge_view(e))[i as int] == (
                    source@,
                    target@,
                ));
            }
            return true;
        }
    }
    proof {
        let ev = edges@.map_values(|e: GraphEdge| edge_view(e));
        if ev.contains((source@, target@)) {
            let k = choose|k: int| 0 <= k < ev.len() && ev[k] == (source@, target@);
            assert(edge_view(edges@[k]) == (source@, target@));
        }
    }
    false
}

/// Builds a renderable graph: one node per memory (id, prompt as label,
/// track), and one edge per linked pair of ids, stored smaller id first, in
/// the order the links are first met. Since links are stored symmetrically
/// on both sides, each pair is de-duplicated into a single edge.
pub fn build_graph(items: &[MemoryItem]) -> (g: KnowledgeGraph)
    ensures
        g.nodes@.map_values(|n: GraphNode| node_view(n)) == items_view(items@).map_values(
            |m: MemoryItemView| node_of(m),
        ),
        g.edges@.map_values(|e: GraphEdge| edge_view(e)) == first_occurrences(
            link_pairs(items_view(items@)),
        ),
        g.nodes@.len() == items@.len(),
        forall|k: int|
            0 <= k < items@.len() ==> (#[trigger] g.nodes@[k]).id@ == items@[k].id@
                && g.nodes@[k].label@ == items@[k].prompt@ && g.nodes@[k].track@
                == items@[k].training_track@,
{
    let ghost iv = items_view(items@);
    let n = items.len();
    let mut nodes: Vec<GraphNode> = Vec::new();
    for i in 0..n
        invariant
            n == items@.len(),
            iv == items_view(items@),
            nodes@.map_values(|n: GraphNode| node_view(n)) =~= iv.take(i as int).map_values(
                |m: MemoryItemView| node_of(m),
            ),
    {
        let ghost before = nodes@;
        nodes.push(
            GraphNode {
                id: items[i].id.clone(),
                label: items[i].prompt.clone(),
                track: items[i].training_track.clone(),
            },
        );
        proof {
            assert(iv.take(i + 1) =~= iv.take(i as int).push(iv[i as int]));
            assert(nodes@.map_values(|n: GraphNode| node_view(n)) =~= before.map_values(
                |n: GraphNode| node_view(n),
            ).push(node_of(iv[i as int])));
        }
    }

    let mut edges: Vec<GraphEdge> = Vec::new();
    proof {
        assert(iv.take(0) =~= Seq::<MemoryItemView>::empty());
        assert(edges@.map_values(|e: GraphEdge| edge_view(e)) =~= Seq::<
            (Seq<char>, Seq<char>),
        >::empty());
    }
    for i in 0..n
        invariant
            n == items@.len(),
            iv == items_view(items@),
            nodes@.map_values(|n: GraphNode| node_view(n)) =~= iv.map_values(
                |m: MemoryItemView| node_of(m),
            ),
            edges@.map_values(|e: GraphEdge| edge_view(e)) == first_occurrences(
                link_pairs(iv.take(i as int)),
            ),
    {
        let item = &items[i];
        let m = item.related_ids.len();
        let ghost base = link_pairs(iv.take(i as int));
        let ghost pairs = item_pairs(iv[i as int]);
        proof {
            assert(pairs.take(0) =~= Seq::<(Seq<char>, Seq<char>)>::empty());
            assert(base + pairs.take(0) =~= base);
        }
        for j in 0..m
            invariant
                m == item.related_ids@.len(),
                item == items@[i as int],
                iv == items_view(items@),
                0 <= i < n,
                n == items@.len(),
                base == link_pairs(iv.take(i as int)),
                pairs == item_pairs(iv[i as int]),
                edges@.map_values(|e: GraphEdge| edge_view(e)) == first_occurrences(
                    base + pairs.take(j as int),
                ),
        {
            let related = &item.related_ids[j];
            let (source, target) = if str_lt(related.as_str(), item.id.as_str()) {
                (related.clone(), item.id.clone())
            } else {
                (item.id.clone(), related.clone())
            };
            let ghost before = edges@;
            let ghost s = base + pairs.take(j as int);
            let ghost s2 = base + pairs.take(j + 1);
            proof {
                assert(pairs[j as int] == ordered_pair(item.id@, related@));
                assert(pairs[j as int] == (source@, target@));
                assert(s2.drop_last() =~= s);
                assert(s2.last() == (source@, target@));
            }
            if !contains_edge(&edges, &source, &target) {
                edges.push(GraphEdge { source, target });
                proof {
                    assert(edges@.map_values(|e: GraphEdge| edge_view(e)) =~= before.map_values(
                        |e: GraphEdge| edge_view(e),
                    ).push(s2.last()));
                }
            }
        }
        proof {
            assert(pairs.take(m as int) =~= pairs);
            assert(iv.take(i + 1).drop_last() =~= iv.take(i as int));
            assert(iv.take(i + 1).last() == iv[i as int]);
        }
    }
    proof {
        assert(iv.take(n as int) =~= iv);
    }
    proof {
        lemma_graph_nodes(iv, nodes@);
    }
    KnowledgeGraph { nodes, edges }
}

/// Law: the deduplication that yields the graph's edges keeps every value
/// exactly once and loses none: its result has no duplicates and holds
/// exactly the values of `s`.
pub proof fn lemma_first_occurrences<T>(s: Seq<T>)
    ensures
        first_occurrences(s).no_duplicates(),
        forall|x: T| first_occurrences(s).contains(x) <==> s.contains(x),
    decreases s.len(),
{
    if s.len() > 0 {
        lemma_first_occurrences(s.drop_last());
        let d = first_occurrences(s.drop_last());
        assert forall|x: T| s.contains(x) <==> (s.drop_last().contains(x) || x == s.last()) by {
            if s.contains(x) {
                let k = choose|k: int| 0 <= k < s.len() && s[k] == x;
                if k < s.len() - 1 {
                    assert(s.drop_last()[k] == x);
                }
            }
            if s.drop_last().contains(x) {
                let k = choose|k: int| 0 <= k < s.drop_last().len() && s.drop_last()[k] == x;
                assert(s[k] == x);
            }
            if x == s.last() {
                assert(s[s.len() - 1] == x);
            }
        }
        if !d.contains(s.last()) {
            let e = d.push(s.last());
            assert forall|x: T| e.contains(x) <==> (d.contains(x) || x == s.last()) by {
                if e.contains(x) {
                    let k = choose|k: int| 0 <= k < e.len() && e[k] == x;
                    if k < d.len() {
                        assert(d[k] == x);
                    }
                }
                if d.contains(x) {
                    let k = choose|k: int| 0 <= k < d.len() && d[k] == x;
                    assert(e[k] == x);
                }
                if x == s.last() {
                    assert(e[d.len() as int] == x);
                }
            }
        }
    }
}

/// Law: the two ids of a link are ordered the same whichever side declares
/// it, so a link stored on both memories yields a single edge.
pub proof fn lemma_ordered_pair_symmetric(a: Seq<char>, b: Seq<char>)
    ensures
        ordered_pair(a, b) == ordered_pair(b, a),
{
    lemma_text_lt_total(a, b);
    lemma_text_lt_asymmetric(a, b);
}

/// Law: every edge has its smaller id first.
pub proof fn lemma_edges_ordered(a: Seq<char>, b: Seq<char>)
    ensures
        !text_lt(ordered_pair(a, b).1, ordered_pair(a, b).0),
{
    lemma_text_lt_asymmetric(a, b);
}

/// Law: linking is idempotent: linking an already-linked pair again changes
/// nothing.
pub proof fn lemma_link_idempotent(items: Seq<MemoryItemView>, a: Seq<char>, b: Seq<char>)
    requires
        a != b,
    ensures
        link_all(link_all(items, a, b), a, b) == link_all(items, a, b),
{
    let once = link_all(items, a, b);
    let twice = link_all(once, a, b);
    assert forall|k: int| 0 <= k < items.len() implies twice[k] == once[k] by {
        let m = items[k];
        if m.id == a {
            assert(add_link(m.related_ids, b).contains(b)) by {
                if !m.related_ids.contains(b) {
                    assert(m.related_ids.push(b)[m.related_ids.len() as int] == b);
                }
            }
        } else if m.id == b {
            assert(add_link(m.related_ids, a).contains(a)) by {
                if !m.related_ids.contains(a) {
                    assert(m.related_ids.push(a)[m.related_ids.len() as int] == a);
                }
            }
        }
    }
    assert(twice =~= once);
}

/// Law: linking is symmetric: afterwards every memory with either id lists
/// the other.
pub proof fn lemma_link_symmetric(items: Seq<MemoryItemView>, a: Seq<char>, b: Seq<char>, k: int)
    requires
        a != b,
        0 <= k < items.len(),
    ensures
        items[k].id == a ==> link_all(items, a, b)[k].related_ids.contains(b),
        items[k].id == b ==> link_all(items, a, b)[k].related_ids.contains(a),
{
    let m = items[k];
    if m.id == a && !m.related_ids.contains(b) {
        assert(m.related_ids.push(b)[m.related_ids.len() as int] == b);
    }
    if m.id == b && !m.related_ids.contains(a) {
        assert(m.related_ids.push(a)[m.related_ids.len() as int] == a);
    }
}

proof fn lemma_drop_absent(s: Seq<Seq<char>>, x: Seq<char>)
    requires
        !s.contains(x),
    ensures
        drop_link(s, x) == s,
    decreases s.len(),
{
    reveal_with_fuel(Seq::filter, 1);
    if s.len() > 0 {
        assert(!s.drop_last().contains(x)) by {
            if s.drop_last().contains(x) {
                let k = choose|k: int| 0 <= k < s.drop_last().len() && s.drop_last()[k] == x;
                assert(s[k] == x);
            }
        }
        lemma_drop_absent(s.drop_last(), x);
        assert(s.last() != x) by {
            assert(s[s.len() - 1] == s.last());
        }
        assert(s.drop_last().push(s.last()) =~= s);
    }
}

/// Law: unlinking undoes linking: for two distinct ids not linked before
/// (neither memory lists the other), linking then unlinking them gives back
/// the memories unchanged.
pub proof fn lemma_unlink_undoes_link(items: Seq<MemoryItemView>, a: Seq<char>, b: Seq<char>)
    requires
        a != b,
        forall|k: int|
            0 <= k < items.len() ==> (items[k].id == a ==> !items[k].related_ids.contains(b)) && (
            items[k].id == b ==> !items[k].related_ids.contains(a)),
    ensures
        unlink_all(link_all(items, a, b), a, b) == items,
{
    let r = unlink_all(link_all(items, a, b), a, b);
    assert forall|k: int| 0 <= k < items.len() implies r[k] == items[k] by {
        let m = items[k];
        if m.id == a {
            reveal_with_fuel(Seq::filter, 1);
            lemma_drop_absent(m.related_ids, b);
            assert(m.related_ids.push(b).drop_last() =~= m.related_ids);
        } else if m.id == b {
            reveal_with_fuel(Seq::filter, 1);
            lemma_drop_absent(m.related_ids, a);
            assert(m.related_ids.push(a).drop_last() =~= m.related_ids);
        }
    }
    assert(r =~= items);
}

/// Law: after unlinking, a memory with id `a` no longer lists `b`, and (if
/// its id is `b`) one no longer lists `a`.
pub proof fn lemma_unlink_removes(items: Seq<MemoryItemView>, a: Seq<char>, b: Seq<char>, k: int)
    requires
        0 <= k < items.len(),
    ensures
        items[k].id == a ==> !unlink_all(items, a, b)[k].related_ids.contains(b),
        items[k].id == b && a != b ==> !unlink_all(items, a, b)[k].related_ids.contains(a),
{
    broadcast use vstd::seq_lib::group_filter_ensures;

    let m = items[k];
    if m.id == a {
        let f = drop_link(m.related_ids, b);
        if f.contains(b) {
            let j = choose|j: int| 0 <= j < f.len() && f[j] == b;
            assert(f[j] != b);
        }
    } else if m.id == b {
        let f = drop_link(m.related_ids, a);
        if f.contains(a) {
            let j = choose|j: int| 0 <= j < f.len() && f[j] == a;
            assert(f[j] != a);
        }
    }
}

/// The memory at position `k` lists, at position `j` of its links, an id
/// that makes the ordered pair `p` with its own id.
pub open spec fn declares_link(
    items: Seq<MemoryItemView>,
    k: int,
    j: int,
    p: (Seq<char>, Seq<char>),
) -> bool {
    &&& 0 <= k < items.len()
    &&& 0 <= j < items[k].related_ids.len()
    &&& ordered_pair(items[k].id, items[k].related_ids[j]) == p
}

proof fn lemma_link_pairs_contain(items: Seq<MemoryItemView>, p: (Seq<char>, Seq<char>))
    ensures
        link_pairs(items).contains(p) <==> exists|k: int, j: int| #[trigger]
            declares_link(items, k, j, p),
    decreases items.len(),
{
    if items.len() > 0 {
        let init = items.drop_last();
        let n = items.len() - 1;
        let lp = link_pairs(init);
        let ip = item_pairs(items.last());
        lemma_link_pairs_contain(init, p);
        let all = link_pairs(items);
        assert(all == lp + ip);
        if all.contains(p) {
            let i = choose|i: int| 0 <= i < all.len() && all[i] == p;
            if i < lp.len() {
                assert(lp[i] == p);
                assert(lp.contains(p));
                let (k, j) = choose|k: int, j: int| declares_link(init, k, j, p);
                assert(init[k] == items[k]);
                assert(declares_link(items, k, j, p));
            } else {
                let j = i - lp.len();
                assert(ip[j] == p);
                assert(declares_link(items, n, j, p));
            }
        }
        if exists|k: int, j: int| declares_link(items, k, j, p) {
            let (k, j) = choose|k: int, j: int| declares_link(items, k, j, p);
            if k < n {
                assert(init[k] == items[k]);
                assert(declares_link(init, k, j, p));
                let i = choose|i: int| 0 <= i < lp.len() && lp[i] == p;
                assert(all[i] == p);
            } else {
                assert(ip[j] == p);
                assert(all[lp.len() + j] == p);
            }
        }
    }
}

/// Law: the graph's edges, as `build_graph` builds them from the memories,
/// are exactly the linked pairs, each once: no pair occurs twice, and a pair
/// is an edge exactly when some memory lists the other id, written smaller id
/// first.
pub proof fn lemma_graph_edges(items: Seq<MemoryItemView>)
    ensures
        first_occurrences(link_pairs(items)).no_duplicates(),
        forall|p: (Seq<char>, Seq<char>)|
            #![trigger first_occurrences(link_pairs(items)).contains(p)]
            first_occurrences(link_pairs(items)).contains(p) <==> exists|k: int, j: int|
                #[trigger] declares_link(items, k, j, p),
{
    lemma_first_occurrences(link_pairs(items));
    assert forall|p: (Seq<char>, Seq<char>)|
        #![trigger first_occurrences(link_pairs(items)).contains(p)]
        first_occurrences(link_pairs(items)).contains(p) <==> exists|k: int, j: int|
            #[trigger] declares_link(items, k, j, p) by {
        lemma_link_pairs_contain(items, p);
    }
}

/// Law: the graph has one node per memory, in order, carrying the memory's
/// id, its prompt as the label, and its track.
pub proof fn lemma_graph_nodes(items: Seq<MemoryItemView>, nodes: Seq<GraphNode>)
    requires
        nodes.map_values(|n: GraphNode| node_view(n)) == items.map_values(
            |m: MemoryItemView| node_of(m),
        ),
    ensures
        nodes.len() == items.len(),
        forall|k: int|
            0 <= k < items.len() ==> (#[trigger] nodes[k]).id@ == items[k].id && nodes[k].label@
                == items[k].prompt && nodes[k].track@ == items[k].training_track,
{
    assert(nodes.map_values(|n: GraphNode| node_view(n)).len() == nodes.len());
    assert(items.map_values(|m: MemoryItemView| node_of(m)).len() == items.len());
    assert forall|k: int| 0 <= k < items.len() implies (#[trigger] nodes[k]).id@ == items[k].id
        && nodes[k].label@ == items[k].prompt && nodes[k].track@ == items[k].training_track by {
        assert(nodes.map_values(|n: GraphNode| node_view(n))[k] == node_view(nodes[k]));
        assert(items.map_values(|m: MemoryItemView| node_of(m))[k] == node_of(items[k]));
    }
}

} // verus!
