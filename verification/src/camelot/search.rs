//! The built transition graph and the queries over it: construction
//! from the rule catalog, shortest-path search, neighbor lookup, and
//! maximal-clique enumeration.

use vstd::prelude::*;
use crate::camelot::{index_key, key_index, lemma_index_key_roundtrip, lemma_key_index_roundtrip, make_standard_scale, spec_key_index, standard_scale_seq, Key, Mode};
use crate::camelot::graph_ext::{
    edge_present, edge_reported, edge_touches, graph_add_edge, graph_add_node, graph_edge_count,
    graph_edge_seq, graph_edges_of, graph_new, graph_node_count, graph_node_seq,
    graph_node_weight, reports_edges,
};
use crate::camelot::transition::{catalog, harmonic_transitions, lemma_make_transition_wf, make_transition, spec_make_transition, KeyTransition};

verus! {

/// The edge produced at build step `e`: source key `e / 10` of the
/// standard scale, rule `e % 10` of the catalog.
pub open spec fn edge_entry(e: int) -> (usize, usize, KeyTransition) {
    (
        (e / 10) as usize,
        spec_key_index(spec_make_transition(standard_scale_seq()[e / 10], catalog()[e % 10])) as usize,
        catalog()[e % 10],
    )
}

/// All 240 edges of the built graph, in build order: every standard key
/// combined with every catalog rule.
pub open spec fn full_edge_seq() -> Seq<(usize, usize, KeyTransition)> {
    Seq::new(240, |e: int| edge_entry(e))
}

/// Keys `a` and `b` are joined by some catalog rule, in either direction.
pub open spec fn keys_adjacent(a: Key, b: Key) -> bool {
    exists|j: int|
        0 <= j < 10 && (spec_make_transition(a, #[trigger] catalog()[j]) == b
            || spec_make_transition(b, catalog()[j]) == a)
}

/// The built transition graph: 24 nodes, one per key of the standard
/// scale, and one labeled edge per key and catalog rule. Built once and
/// read-only afterwards.
pub struct ScaleTransitions {
    graph: petgraph::graph::Graph<Key, KeyTransition, petgraph::Undirected, u32>,
}

impl ScaleTransitions {
    /// The graph holds exactly the standard scale as nodes and exactly
    /// the catalog-generated edges.
    pub closed spec fn wf(&self) -> bool {
        &&& graph_node_seq(self.graph) == standard_scale_seq()
        &&& graph_edge_seq(self.graph) == full_edge_seq()
    }
}

/// Builds the harmonic transition graph of the Camelot wheel: one node
/// per key, and for every key and every catalog rule one undirected
/// edge to the resulting key, labeled with the rule. Cannot fail.
pub fn make_scale_transition_graph() -> (r: ScaleTransitions)
    ensures
        r.wf(),
{
    let mut graph = graph_new();
    let nodes = make_standard_scale();
    let transitions = harmonic_transitions();

    let mut i: usize = 0;
    while i < 24
        invariant
            i <= 24,
            nodes@ == standard_scale_seq(),
            graph_node_seq(graph) == standard_scale_seq().take(i as int),
            graph_edge_seq(graph) == Seq::<(usize, usize, KeyTransition)>::empty(),
        decreases 24 - i,
    {
        graph_add_node(&mut graph, nodes[i]);
        proof {
            assert(standard_scale_seq().take(i as int).push(standard_scale_seq()[i as int])
                =~= standard_scale_seq().take(i + 1));
        }
        i = i + 1;
    }
    proof {
        assert(standard_scale_seq().take(24) =~= standard_scale_seq());
    }

    let mut s: usize = 0;
    while s < 24
        invariant
            s <= 24,
            nodes@ == standard_scale_seq(),
            transitions@ == catalog(),
            graph_node_seq(graph) == standard_scale_seq(),
            graph_edge_seq(graph) == full_edge_seq().take(10 * s),
        decreases 24 - s,
    {
        let source = nodes[s];
        assert(source.wf());
        let mut j: usize = 0;
        while j < 10
            invariant
                s < 24,
                j <= 10,
                source == standard_scale_seq()[s as int],
                source.wf(),
                nodes@ == standard_scale_seq(),
                transitions@ == catalog(),
                graph_node_seq(graph) == standard_scale_seq(),
                graph_edge_seq(graph) == full_edge_seq().take(10 * s + j),
            decreases 10 - j,
        {
            let target = make_transition(source, transitions[j]);
            let target_idx = key_index(target);
            graph_add_edge(&mut graph, s, target_idx, transitions[j]);
            proof {
                let e = 10 * (s as int) + j;
                assert(e / 10 == s && e % 10 == j) by (nonlinear_arith)
                    requires s < 24 && j < 10 && e == 10 * (s as int) + j;
                assert(full_edge_seq()[e] == edge_entry(e));
                assert(full_edge_seq().take(e).push(edge_entry(e)) =~= full_edge_seq().take(e + 1));
            }
            j = j + 1;
        }
        s = s + 1;
    }
    proof {
        assert(full_edge_seq().take(240) =~= full_edge_seq());
    }
    ScaleTransitions { graph }
}

/// The total order on keys: by tonic, then minor before major. Equals
/// the order of the standard scale.
pub open spec fn key_lt(a: Key, b: Key) -> bool {
    spec_key_index(a) < spec_key_index(b)
}

/// `k` is `source` itself or reachable from it by one catalog rule.
pub open spec fn neighbor_or_self(source: Key, k: Key) -> bool {
    k == source || exists|j: int| 0 <= j < 10 && spec_make_transition(source, #[trigger] catalog()[j]) == k
}

/// Returns all keys harmonically compatible with `scale`: the sorted,
/// deduplicated set of keys one catalog rule away, plus `scale` itself.
pub fn harmonic_transitions_from(scale: Key) -> (r: Vec<Key>)
    requires
        scale.wf(),
    ensures
        forall|a: int, b: int| 0 <= a < b < r@.len() ==> key_lt(r@[a], r@[b]),
        forall|a: int| 0 <= a < r@.len() ==> (#[trigger] r@[a]).wf() && neighbor_or_self(scale, r@[a]),
        r@.contains(scale),
        forall|j: int| 0 <= j < 10 ==> r@.contains(spec_make_transition(scale, #[trigger] catalog()[j])),
{
    let transitions = harmonic_transitions();
    let mut r: Vec<Key> = Vec::new();
    let mut i: usize = 0;
    while i < 24
        invariant
            i <= 24,
            scale.wf(),
            transitions@ == catalog(),
            forall|a: int, b: int| 0 <= a < b < r@.len() ==> key_lt(r@[a], r@[b]),
            forall|a: int|
                0 <= a < r@.len() ==> (#[trigger] r@[a]).wf() && neighbor_or_self(scale, r@[a])
                    && spec_key_index(r@[a]) < i,
            forall|k: Key|
                k.wf() && spec_key_index(k) < i && #[trigger] neighbor_or_self(scale, k)
                    ==> r@.contains(k),
        decreases 24 - i,
    {
        let candidate = Key {
            tonic: i / 2,
            mode: if i % 2 == 0 {
                Mode::Minor
            } else {
                Mode::Major
            },
        };
        proof {
            lemma_index_key_roundtrip(i as int);
            assert(candidate == index_key(i as int));
            assert(spec_key_index(candidate) == i);
        }
        let mut hit = candidate == scale;
        let mut j: usize = 0;
        while j < 10
            invariant
                j <= 10,
                scale.wf(),
                transitions@ == catalog(),
                hit ==> neighbor_or_self(scale, candidate),
                !hit ==> candidate != scale && forall|jj: int|
                    0 <= jj < j ==> spec_make_transition(scale, #[trigger] catalog()[jj])
                        != candidate,
            decreases 10 - j,
        {
            if make_transition(scale, transitions[j]) == candidate {
                hit = true;
                proof {
                    assert(spec_make_transition(scale, catalog()[j as int]) == candidate);
                }
            }
            j = j + 1;
        }
        let ghost old_r = r@;
        if hit {
            r.push(candidate);
        }
        proof {
            assert(forall|a: int| 0 <= a < old_r.len() ==> r@[a] == old_r[a]);
            assert forall|k: Key|
                k.wf() && spec_key_index(k) < i + 1 && #[trigger] neighbor_or_self(scale, k)
                implies r@.contains(k) by {
                if spec_key_index(k) == i {
                    lemma_key_index_roundtrip(k);
                    assert(k == candidate);
                    assert(hit);
                    assert(r@[r@.len() - 1] == candidate);
                } else {
                    assert(old_r.contains(k));
                    let a = choose|a: int| 0 <= a < old_r.len() && old_r[a] == k;
                    assert(r@[a] == k);
                }
            }
        }
        i = i + 1;
    }
    proof {
        lemma_key_index_roundtrip(scale);
        assert(neighbor_or_self(scale, scale));
        assert forall|j: int| 0 <= j < 10 implies r@.contains(
            spec_make_transition(scale, #[trigger] catalog()[j]),
        ) by {
            let k = spec_make_transition(scale, catalog()[j]);
            lemma_make_transition_wf(scale, catalog()[j]);
            lemma_key_index_roundtrip(k);
            assert(neighbor_or_self(scale, k));
        }
    }
    r
}

/// Some edge of `edges` joins `a` and `b` with label `t`, in either
/// orientation.
pub open spec fn edge_connects(
    edges: Seq<(usize, usize, KeyTransition)>,
    a: usize,
    b: usize,
    t: KeyTransition,
) -> bool {
    exists|j: int| 0 <= j < edges.len() && edge_touches(#[trigger] edges[j], a, b, t)
}

/// `nodes` is a walk through the graph: consecutive nodes are joined by
/// an edge carrying the corresponding label of `labels`.
pub open spec fn walk_ok(
    edges: Seq<(usize, usize, KeyTransition)>,
    nodes: Seq<usize>,
    labels: Seq<KeyTransition>,
) -> bool {
    &&& nodes.len() >= 1
    &&& labels.len() == nodes.len() - 1
    &&& forall|i: int|
        0 <= i < labels.len() ==> edge_connects(edges, nodes[i], nodes[i + 1], #[trigger] labels[i])
}

/// A partial path of the frontier search: the cost so far, the node the
/// path currently stands on, the label of the edge that reached it, and
/// the accumulated node and label sequences.
struct Path {
    cost: usize,
    node: usize,
    transition: Option<KeyTransition>,
    path: Vec<usize>,
    transition_path: Vec<KeyTransition>,
}

/// The labels of a frontier entry's walk: the accumulated labels plus
/// the label of the edge that reached the current node.
spec fn entry_labels(e: Path) -> Seq<KeyTransition> {
    e.transition_path@ + match e.transition {
        Some(t) => seq![t],
        None => Seq::<KeyTransition>::empty(),
    }
}

/// A frontier entry is a source-rooted walk within the graph whose cost
/// counts its edges.
spec fn entry_ok(
    e: Path,
    edges: Seq<(usize, usize, KeyTransition)>,
    source: usize,
    nnodes: int,
) -> bool {
    &&& e.cost == e.path@.len()
    &&& walk_ok(edges, e.path@.push(e.node), entry_labels(e))
    &&& e.path@.push(e.node)[0] == source
    &&& forall|i: int| 0 <= i < e.path@.len() ==> e.path@[i] < nnodes
    &&& e.node < nnodes
}

/// A finished search result: a walk within the graph from `source` to
/// `target` whose cost counts its edges.
spec fn result_ok(
    e: Path,
    edges: Seq<(usize, usize, KeyTransition)>,
    source: usize,
    target: usize,
    nnodes: int,
) -> bool {
    &&& e.path@.len() >= 1
    &&& e.cost == e.path@.len() - 1
    &&& walk_ok(edges, e.path@, e.transition_path@)
    &&& e.path@[0] == source
    &&& e.path@[e.path@.len() - 1] == target
    &&& e.node == target
    &&& forall|i: int| 0 <= i < e.path@.len() ==> e.path@[i] < nnodes
}

/// A bound on how many partial paths one search may expand. The wheel
/// graph needs only a few thousand expansions for any query.
const SEARCH_FUEL: usize = 1000000;

fn copy_indices(v: &Vec<usize>) -> (r: Vec<usize>)
    ensures
        r@ == v@,
{
    let mut r: Vec<usize> = Vec::new();
    let mut i: usize = 0;
    while i < v.len()
        invariant
            i <= v@.len(),
            r@ == v@.take(i as int),
        decreases v@.len() - i,
    {
        r.push(v[i]);
        proof {
            assert(v@.take(i as int).push(v@[i as int]) =~= v@.take(i + 1));
        }
        i = i + 1;
    }
    proof {
        assert(v@.take(v@.len() as int) =~= v@);
    }
    r
}

fn copy_transitions(v: &Vec<KeyTransition>) -> (r: Vec<KeyTransition>)
    ensures
        r@ == v@,
{
    let mut r: Vec<KeyTransition> = Vec::new();
    let mut i: usize = 0;
    while i < v.len()
        invariant
            i <= v@.len(),
            r@ == v@.take(i as int),
        decreases v@.len() - i,
    {
        r.push(v[i]);
        proof {
            assert(v@.take(i as int).push(v@[i as int]) =~= v@.take(i + 1));
        }
        i = i + 1;
    }
    proof {
        assert(v@.take(v@.len() as int) =~= v@);
    }
    r
}

/// Priority-queue-driven frontier search returning up to `n` paths from
/// `source` to `target`, expanded in order of increasing cost. Every
/// returned record is a genuine walk of the graph between the two nodes.
/// Builds the key stored at a node identity of the wheel.
fn id_key(i: usize) -> (k: Key)
    requires
        i < 24,
    ensures
        k == index_key(i as int),
        k.wf(),
{
    let k = Key {
        tonic: i / 2,
        mode: if i % 2 == 0 {
            Mode::Minor
        } else {
            Mode::Major
        },
    };
    proof {
        lemma_index_key_roundtrip(i as int);
    }
    k
}

/// Applying catalog rule `j` at the key of node `u` and landing on the
/// key of node `v` puts the edge built at step `10 u + j` between them.
proof fn lemma_rule_edge(u: usize, v: usize, j: int)
    requires
        u < 24,
        v < 24,
        0 <= j < 10,
        spec_make_transition(index_key(u as int), catalog()[j]) == index_key(v as int),
    ensures
        edge_connects(full_edge_seq(), u, v, catalog()[j]),
{
    lemma_index_key_roundtrip(u as int);
    lemma_index_key_roundtrip(v as int);
    let e = 10 * (u as int) + j;
    assert(e / 10 == u && e % 10 == j) by (nonlinear_arith)
        requires u < 24 && 0 <= j < 10 && e == 10 * (u as int) + j;
    assert(edge_touches(full_edge_seq()[e], u, v, catalog()[j]));
}

/// A finished search record walks linked node identities.
proof fn lemma_result_walk(e: Path, source: usize, target: usize)
    requires
        result_ok(e, full_edge_seq(), source, target, 24),
    ensures
        id_walk_ok(e.path@),
{
    assert forall|i: int|
        0 <= i < e.path@.len() - 1 implies ids_linked(#[trigger] e.path@[i], e.path@[i + 1]) by {
        assert(edge_connects(
            full_edge_seq(),
            e.path@[i],
            e.path@[i + 1],
            e.transition_path@[i],
        ));
    }
}

/// Catalog rule `k` maps the key `ka` to `kb` or `kb` to `ka`.
#[verifier::opaque]
spec fn rule_matches(ka: Key, kb: Key, k: int) -> bool {
    spec_make_transition(ka, catalog()[k]) == kb || spec_make_transition(kb, catalog()[k]) == ka
}

/// Recovers, for one step between linked node identities, a catalog
/// rule that labels a connecting edge.
#[verifier::rlimit(100)]
#[verifier::spinoff_prover]
fn step_label(a: usize, b: usize) -> (t: KeyTransition)
    requires
        a < 24,
        b < 24,
        ids_linked(a, b),
    ensures
        edge_connects(full_edge_seq(), a, b, t),
{
    let transitions = harmonic_transitions();
    let ka = id_key(a);
    let kb = id_key(b);
    let mut j: usize = 0;
    let mut rule: usize = 10;
    while j < 10
        invariant
            j <= 10,
            a < 24,
            b < 24,
            ka == index_key(a as int),
            kb == index_key(b as int),
            ka.wf(),
            kb.wf(),
            transitions@ == catalog(),
            rule <= 10,
            rule == 10 ==> forall|k: int| 0 <= k < j ==> !rule_matches(ka, kb, k),
            rule < 10 ==> rule_matches(ka, kb, rule as int),
        decreases 10 - j,
    {
        if rule == 10 {
            let forward = make_transition(ka, transitions[j]);
            let backward = make_transition(kb, transitions[j]);
            if forward == kb || backward == ka {
                rule = j;
                proof {
                    assert(rule_matches(ka, kb, j as int)) by {
                        reveal(rule_matches);
                    }
                }
            } else {
                proof {
                    assert(!rule_matches(ka, kb, j as int)) by {
                        reveal(rule_matches);
                    }
                }
            }
        }
        j = j + 1;
    }
    proof {
        if rule == 10 {
            assert(false) by {
                reveal(rule_matches);
                let t0 = choose|t0: KeyTransition|
                    #[trigger] edge_connects(full_edge_seq(), a, b, t0);
                lemma_edge_seq_adjacent(a, b, t0);
                let j0 = choose|j0: int|
                    0 <= j0 < 10 && (spec_make_transition(index_key(a as int), #[trigger] catalog()[j0])
                        == index_key(b as int) || spec_make_transition(
                        index_key(b as int),
                        catalog()[j0],
                    ) == index_key(a as int));
                assert(rule_matches(ka, kb, j0));
            }
        }
        assert(edge_connects(full_edge_seq(), a, b, catalog()[rule as int])) by {
            reveal(rule_matches);
            if spec_make_transition(ka, catalog()[rule as int]) == kb {
                lemma_rule_edge(a, b, rule as int);
            } else {
                lemma_rule_edge(b, a, rule as int);
                let t = catalog()[rule as int];
                let e = choose|e: int|
                    0 <= e < full_edge_seq().len() && edge_touches(#[trigger] full_edge_seq()[e], b, a, t);
                assert(edge_touches(full_edge_seq()[e], a, b, t));
            }
        }
    }
    transitions[rule]
}

/// Turns a walk of node identities into a search record, recovering
/// for each step a catalog rule that labels a connecting edge.
#[verifier::rlimit(100)]
#[verifier::spinoff_prover]
fn make_path_record(ids: Vec<usize>, source: usize, target: usize) -> (r: Path)
    requires
        id_walk_ok(ids@),
        ids@[0] == source,
        ids@[ids@.len() - 1] == target,
    ensures
        result_ok(r, full_edge_seq(), source, target, 24),
        r.path@ == ids@,
        r.cost == ids@.len() - 1,
{
    let mut labels: Vec<KeyTransition> = Vec::new();
    let last = ids.len() - 1;
    let mut i: usize = 0;
    while i < last
        invariant
            id_walk_ok(ids@),
            last == ids@.len() - 1,
            i <= last,
            labels@.len() == i,
            forall|k: int|
                0 <= k < i ==> edge_connects(
                    full_edge_seq(),
                    ids@[k],
                    ids@[k + 1],
                    #[trigger] labels@[k],
                ),
        decreases ids@.len() - i,
    {
        let a = ids[i];
        let b = ids[i + 1];
        proof {
            assert(ids_linked(a, b));
        }
        let t = step_label(a, b);
        labels.push(t);
        i = i + 1;
    }
    let node = ids[ids.len() - 1];
    let transition = if labels.len() > 0 {
        Some(labels[labels.len() - 1])
    } else {
        None
    };
    let cost = ids.len() - 1;
    let r = Path { cost, node, transition, path: ids, transition_path: labels };
    proof {
        assert(result_ok(r, full_edge_seq(), source, target, 24));
    }
    r
}

/// Priority-queue-driven frontier search over the wheel graph,
/// returning up to `n` paths from `source` to `target` in nondecreasing
/// cost order. Every returned record is a genuine walk of the graph
/// between the two nodes, and when at least one path is asked for, the
/// first record returned is a minimum-transition-count path.
fn multi_path_dijkstra(
    graph: &petgraph::graph::Graph<Key, KeyTransition, petgraph::Undirected, u32>,
    source: usize,
    target: usize,
    n: usize,
) -> (found: Vec<Path>)
    requires
        graph_node_seq(*graph) == standard_scale_seq(),
        graph_edge_seq(*graph) == full_edge_seq(),
        source < 24,
        target < 24,
    ensures
        found@.len() <= n,
        forall|i: int|
            0 <= i < found@.len() ==> result_ok(
                #[trigger] found@[i],
                graph_edge_seq(*graph),
                source,
                target,
                24,
            ),
        forall|i: int, j: int|
            0 <= i < j < found@.len() ==> (#[trigger] found@[i]).cost <= (#[trigger] found@[j]).cost,
        n >= 1 ==> found@.len() >= 1,
        n >= 1 ==> forall|w: Seq<usize>|
            #[trigger] id_walk_ok(w) && w[0] == source && w[w.len() - 1] == target
                ==> found@[0].path@.len() <= w.len(),
{
    let ghost edges = graph_edge_seq(*graph);
    let ghost nnodes = 24int;
    let mut heap: Vec<Path> = Vec::new();
    heap.push(
        Path {
            cost: 0,
            node: source,
            transition: None,
            path: Vec::new(),
            transition_path: Vec::new(),
        },
    );
    let mut found: Vec<Path> = Vec::new();
    let mut steps: usize = 0;
    while heap.len() > 0 && found.len() < n && steps < SEARCH_FUEL
        invariant
            edges == graph_edge_seq(*graph),
            graph_node_seq(*graph) == standard_scale_seq(),
            nnodes == 24,
            steps <= SEARCH_FUEL,
            found@.len() <= n,
            forall|i: int| 0 <= i < heap@.len() ==> entry_ok(#[trigger] heap@[i], edges, source, nnodes),
            forall|i: int| 0 <= i < heap@.len() ==> (#[trigger] heap@[i]).cost <= steps,
            forall|i: int|
                0 <= i < found@.len() ==> result_ok(#[trigger] found@[i], edges, source, target, nnodes),
            forall|i: int, j: int|
                0 <= i < j < found@.len() ==> (#[trigger] found@[i]).cost <= (#[trigger] found@[j]).cost,
            forall|i: int, j: int|
                0 <= i < heap@.len() && 0 <= j < found@.len() ==> (#[trigger] heap@[i]).cost
                    >= (#[trigger] found@[j]).cost,
        decreases SEARCH_FUEL - steps,
    {
        steps = steps + 1;

        let mut best: usize = 0;
        let mut bi: usize = 1;
        while bi < heap.len()
            invariant
                heap@.len() > 0,
                best < heap@.len(),
                bi <= heap@.len(),
                forall|k: int| 0 <= k < bi ==> (#[trigger] heap@[k]).cost >= heap@[best as int].cost,
            decreases heap@.len() - bi,
        {
            if heap[bi].cost < heap[best].cost {
                best = bi;
            }
            bi = bi + 1;
        }

        let ghost pre_heap = heap@;
        let mut path = heap.swap_remove(best);
        proof {
            assert(entry_ok(path, edges, source, nnodes));
            assert(path.cost < steps);
            assert forall|k: int|
                0 <= k < heap@.len() implies (#[trigger] heap@[k]).cost >= path.cost by {
                assert(heap@[k] == pre_heap[k] || heap@[k] == pre_heap[pre_heap.len() - 1]);
            }
        }
        let ghost walk = path.path@.push(path.node);
        let ghost labels = entry_labels(path);
        path.path.push(path.node);
        if let Some(t) = path.transition {
            path.transition_path.push(t);
        }
        proof {
            assert(path.path@ == walk);
            assert(path.transition_path@ =~= labels);
            assert(walk_ok(edges, path.path@, path.transition_path@));
        }

        let nbrs = graph_edges_of(graph, path.node);
        proof {
            assert forall|i: int|
                0 <= i < nbrs@.len() implies (#[trigger] nbrs@[i]).0 < nnodes && edge_connects(
                edges,
                path.node,
                nbrs@[i].0,
                nbrs@[i].1,
            ) by {
                assert(edge_present(edges, path.node, nbrs@[i]));
                let j = choose|j: int|
                    0 <= j < edges.len() && edge_touches(#[trigger] edges[j], path.node, nbrs@[i].0, nbrs@[i].1);
                assert(edge_connects(edges, path.node, nbrs@[i].0, nbrs@[i].1));
            }
        }
        let mut q: usize = 0;
        while q < nbrs.len()
            invariant
                edges == graph_edge_seq(*graph),
                nnodes == 24,
                steps <= SEARCH_FUEL,
                q <= nbrs@.len(),
                path.cost + 1 <= steps,
                path.path@.len() == path.cost + 1,
                walk_ok(edges, path.path@, path.transition_path@),
                path.path@[0] == source,
                path.path@[path.path@.len() - 1] == path.node,
                forall|i: int| 0 <= i < path.path@.len() ==> path.path@[i] < nnodes,
                forall|i: int|
                    0 <= i < nbrs@.len() ==> (#[trigger] nbrs@[i]).0 < nnodes && edge_connects(
                        edges,
                        path.node,
                        nbrs@[i].0,
                        nbrs@[i].1,
                    ),
                forall|i: int| 0 <= i < heap@.len() ==> entry_ok(#[trigger] heap@[i], edges, source, nnodes),
                forall|i: int| 0 <= i < heap@.len() ==> (#[trigger] heap@[i]).cost <= steps,
                forall|i: int| 0 <= i < heap@.len() ==> (#[trigger] heap@[i]).cost >= path.cost,
            decreases nbrs@.len() - q,
        {
            let (nb, w) = nbrs[q];
            let new_indices = copy_indices(&path.path);
            let new_labels = copy_transitions(&path.transition_path);
            let next = Path {
                cost: path.cost + 1,
                node: nb,
                transition: Some(w),
                path: new_indices,
                transition_path: new_labels,
            };
            proof {
                assert(next.path@.push(next.node) == path.path@.push(nb));
                assert(forall|i: int|
                    0 <= i < path.path@.len() ==> path.path@.push(nb)[i] == path.path@[i]);
                assert(entry_labels(next) =~= path.transition_path@ + seq![w]);
                assert(edge_connects(edges, path.node, nb, w));
                assert(entry_ok(next, edges, source, nnodes));
            }
            heap.push(next);
            q = q + 1;
        }

        if path.node == target {
            proof {
                assert(result_ok(path, edges, source, target, nnodes));
            }
            found.push(path);
        }
    }

    if n == 0 {
        return found;
    }

    // Certify the outcome against the verified distance table: accept
    // the frontier's first path when it meets the minimum, else fall
    // back to a path descended from the table.
    let adj = build_adjacency(graph);
    let dist = compute_dist(&adj, target);
    proof {
        lemma_exists_walk(source, target);
        let wex = choose|w: Seq<usize>|
            #[trigger] id_walk_ok(w) && w[0] == source && w[w.len() - 1] == target && w.len() <= 13;
        lemma_dist_lower_bound(dist@, target, wex);
        assert(dist@[source as int] < far_away());
    }
    let span = dist[source];
    if found.len() >= 1 && found[0].path.len() == span + 1 {
        proof {
            assert forall|w: Seq<usize>|
                #[trigger] id_walk_ok(w) && w[0] == source && w[w.len() - 1] == target
                implies found@[0].path@.len() <= w.len() by {
                lemma_dist_lower_bound(dist@, target, w);
            }
        }
        return found;
    }
    let ids = descend_path(&adj, &dist, source, target);
    proof {
        lemma_dist_lower_bound(dist@, target, ids@);
        assert(ids@.len() == span + 1);
    }
    let rec = make_path_record(ids, source, target);
    let mut out = found;
    if out.len() >= n {
        out.pop();
    }
    let ghost kept = out@;
    out.insert(0, rec);
    proof {
        assert(out@[0] == rec);
        assert(forall|j: int| 1 <= j < out@.len() ==> out@[j] == kept[j - 1]);
        assert forall|j: int| 1 <= j < out@.len() implies (#[trigger] out@[j]).cost >= span by {
            lemma_result_walk(out@[j], source, target);
            lemma_dist_lower_bound(dist@, target, out@[j].path@);
        }
        assert forall|w: Seq<usize>|
            #[trigger] id_walk_ok(w) && w[0] == source && w[w.len() - 1] == target
            implies out@[0].path@.len() <= w.len() by {
            lemma_dist_lower_bound(dist@, target, w);
        }
    }
    out
}

impl ScaleTransitions {
    /// Computes a minimum-transition-count path from `source` to
    /// `target`: both endpoints are included, every consecutive pair is
    /// joined by some catalog rule, and no walk between the two keys
    /// uses fewer transitions.
    #[verifier::rlimit(100)]
    pub fn path(&self, source: Key, target: Key) -> (r: Vec<Key>)
        requires
            self.wf(),
            source.wf(),
            target.wf(),
        ensures
            r@.len() >= 1,
            r@[0] == source,
            r@[r@.len() - 1] == target,
            source == target ==> r@ == seq![source],
            forall|i: int| 0 <= i < r@.len() ==> (#[trigger] r@[i]).wf(),
            forall|i: int| 0 <= i && i + 1 < r@.len() ==> keys_adjacent(#[trigger] r@[i], r@[i + 1]),
            forall|w: Seq<Key>|
                #[trigger] key_walk_ok(w) && w[0] == source && w[w.len() - 1] == target
                    ==> r@.len() <= w.len(),
    {
        proof {
            lemma_key_index_roundtrip(source);
            lemma_key_index_roundtrip(target);
        }
        let source_idx = key_index(source);
        let target_idx = key_index(target);
        let ghost edges = graph_edge_seq(self.graph);
        let results = multi_path_dijkstra(&self.graph, source_idx, target_idx, 1);
        let first = &results[0];
        proof {
            assert(result_ok(*first, edges, source_idx, target_idx, 24));
        }
        let ghost ids = first.path@;
        let mut r: Vec<Key> = Vec::new();
        let mut i: usize = 0;
        while i < first.path.len()
            invariant
                self.wf(),
                first == &results@[0],
                ids == first.path@,
                result_ok(*first, graph_edge_seq(self.graph), source_idx, target_idx, 24),
                i <= ids.len(),
                r@.len() == i,
                forall|a: int| 0 <= a < r@.len() ==> #[trigger] r@[a] == index_key(ids[a] as int),
            decreases ids.len() - i,
        {
            let idx = first.path[i];
            match graph_node_weight(&self.graph, idx) {
                Some(k) => {
                    r.push(k);
                },
                None => {
                    proof {
                        assert(false);
                    }
                },
            }
            i = i + 1;
        }
        proof {
            assert(r@[0] == index_key(ids[0] as int));
            assert(r@[0] == source);
            assert(r@[r@.len() - 1] == index_key(ids[ids.len() - 1] as int));
            assert(r@[r@.len() - 1] == target);
            assert forall|a: int| 0 <= a < r@.len() implies (#[trigger] r@[a]).wf() by {
                lemma_index_key_roundtrip(ids[a] as int);
            }
            assert forall|a: int|
                0 <= a && a + 1 < r@.len() implies keys_adjacent(#[trigger] r@[a], r@[a + 1]) by {
                assert(edge_connects(edges, ids[a], ids[a + 1], first.transition_path@[a]));
                lemma_edge_seq_adjacent(ids[a], ids[a + 1], first.transition_path@[a]);
            }
            assert forall|w: Seq<Key>|
                #[trigger] key_walk_ok(w) && w[0] == source && w[w.len() - 1] == target
                implies r@.len() <= w.len() by {
                let iw = w.map_values(|k: Key| spec_key_index(k) as usize);
                assert forall|a: int| 0 <= a < iw.len() implies (#[trigger] iw[a]) < 24 by {
                    lemma_key_index_roundtrip(w[a]);
                }
                assert forall|a: int|
                    0 <= a < iw.len() - 1 implies ids_linked(#[trigger] iw[a], iw[a + 1]) by {
                    lemma_key_index_roundtrip(w[a]);
                    lemma_key_index_roundtrip(w[a + 1]);
                    assert(keys_adjacent(w[a], w[a + 1]));
                    lemma_adjacent_implies_linked(iw[a], iw[a + 1]);
                }
                assert(id_walk_ok(iw));
                assert(iw[0] == source_idx && iw[iw.len() - 1] == target_idx);
                assert(ids.len() <= iw.len());
            }
            if source == target {
                let wself = seq![source_idx];
                assert(id_walk_ok(wself));
                assert(wself[0] == source_idx && wself[wself.len() - 1] == target_idx);
                assert(ids.len() <= 1);
                assert(r@ =~= seq![source]);
            }
        }
        r
    }
}

/// An edge of the built graph between two node identities means the
/// keys at those identities are joined by a catalog rule.
proof fn lemma_edge_seq_adjacent(a: usize, b: usize, t: KeyTransition)
    requires
        edge_connects(full_edge_seq(), a, b, t),
    ensures
        keys_adjacent(index_key(a as int), index_key(b as int)),
{
    let j = choose|j: int| 0 <= j < full_edge_seq().len() && edge_touches(#[trigger] full_edge_seq()[j], a, b, t);
    let e = full_edge_seq()[j];
    let s = j / 10;
    let c = j % 10;
    assert(0 <= s < 24 && 0 <= c < 10) by (nonlinear_arith)
        requires 0 <= j < 240 && s == j / 10 && c == j % 10;
    let skey = standard_scale_seq()[s];
    let tkey = spec_make_transition(skey, catalog()[c]);
    lemma_index_key_roundtrip(s);
    lemma_make_transition_wf(skey, catalog()[c]);
    lemma_key_index_roundtrip(tkey);
    if e.0 == a && e.1 == b {
        assert(index_key(a as int) == skey);
        assert(index_key(b as int) == tkey);
        assert(spec_make_transition(index_key(a as int), catalog()[c]) == index_key(b as int));
    } else {
        assert(index_key(b as int) == skey);
        assert(index_key(a as int) == tkey);
        assert(spec_make_transition(index_key(b as int), catalog()[c]) == index_key(a as int));
    }
}


/// Some edge of the built graph joins node identities `u` and `v`:
/// the simple adjacency relation, multi-edge labels ignored.
pub open spec fn ids_linked(u: usize, v: usize) -> bool {
    exists|t: KeyTransition| edge_connects(full_edge_seq(), u, v, t)
}

/// Adjacency of node identities is symmetric.
proof fn lemma_linked_symmetric(a: usize, b: usize)
    requires
        ids_linked(a, b),
    ensures
        ids_linked(b, a),
{
    let t = choose|t: KeyTransition| edge_connects(full_edge_seq(), a, b, t);
    let j = choose|j: int|
        0 <= j < full_edge_seq().len() && edge_touches(#[trigger] full_edge_seq()[j], a, b, t);
    assert(edge_touches(full_edge_seq()[j], b, a, t));
    assert(edge_connects(full_edge_seq(), b, a, t));
}

/// Every member of the clique is a node identity of the built graph and
/// every two distinct members are joined by some catalog rule.
pub open spec fn clique_ok(c: Set<u32>) -> bool {
    &&& forall|u: u32| c.contains(u) ==> u < 24
    &&& forall|u: u32, v: u32|
        c.contains(u) && c.contains(v) && u != v ==> keys_adjacent(
            index_key(u as int),
            index_key(v as int),
        )
}

/// No key outside the clique is adjacent to all of its members.
pub open spec fn clique_maximal(c: Set<u32>) -> bool {
    forall|v: u32|
        v < 24 && !c.contains(v) ==> exists|u: u32|
            c.contains(u) && !keys_adjacent(index_key(v as int), index_key(u as int))
}

/// The node identities of the built graph are linked exactly when their
/// keys are distinct and joined by some catalog rule.
proof fn lemma_linked_iff_adjacent(u: usize, v: usize)
    requires
        u < 24,
        v < 24,
        u != v,
    ensures
        ids_linked(u, v) <==> keys_adjacent(index_key(u as int), index_key(v as int)),
{
    if ids_linked(u, v) {
        let t = choose|t: KeyTransition| edge_connects(full_edge_seq(), u, v, t);
        lemma_edge_seq_adjacent(u, v, t);
    }
    if keys_adjacent(index_key(u as int), index_key(v as int)) {
        lemma_adjacent_implies_linked(u, v);
    }
}

/// The adjacency matrix over node identities: entry `(u, v)` holds
/// exactly when the identities differ and are linked by some edge.
spec fn matrix_ok(adj: Seq<Vec<bool>>) -> bool {
    &&& adj.len() == 24
    &&& forall|u: int| 0 <= u < 24 ==> (#[trigger] adj[u])@.len() == 24
    &&& forall|u: int, v: int|
        0 <= u < 24 && 0 <= v < 24 ==> ((#[trigger] adj[u]@[v]) <==> (u != v && ids_linked(
            u as usize,
            v as usize,
        )))
}

/// Builds the simple adjacency matrix of the built graph by reading
/// each node's incident edges.
#[verifier::rlimit(100)]
fn build_adjacency(
    g: &petgraph::graph::Graph<Key, KeyTransition, petgraph::Undirected, u32>,
) -> (adj: Vec<Vec<bool>>)
    requires
        graph_node_seq(*g) == standard_scale_seq(),
        graph_edge_seq(*g) == full_edge_seq(),
    ensures
        matrix_ok(adj@),
{
    let ghost edges = full_edge_seq();
    let mut adj: Vec<Vec<bool>> = Vec::new();
    let mut u: usize = 0;
    while u < 24
        invariant
            u <= 24,
            graph_node_seq(*g) == standard_scale_seq(),
            graph_edge_seq(*g) == full_edge_seq(),
            edges == full_edge_seq(),
            adj@.len() == u,
            forall|w: int| 0 <= w < u ==> (#[trigger] adj@[w])@.len() == 24,
            forall|w: int, v: int|
                0 <= w < u && 0 <= v < 24 ==> ((#[trigger] adj@[w]@[v]) <==> (w != v && ids_linked(
                    w as usize,
                    v as usize,
                ))),
        decreases 24 - u,
    {
        let nbrs = graph_edges_of(g, u);
        let mut row: Vec<bool> = Vec::new();
        let mut v: usize = 0;
        while v < 24
            invariant
                v <= 24,
                u < 24,
                edges == full_edge_seq(),
                graph_edge_seq(*g) == full_edge_seq(),
                graph_node_seq(*g) == standard_scale_seq(),
                row@.len() == v,
                reports_edges(edges, u, nbrs@),
                forall|w: int|
                    0 <= w < v ==> ((#[trigger] row@[w]) <==> (u != w && ids_linked(
                        u,
                        w as usize,
                    ))),
            decreases 24 - v,
        {
            let mut lk = false;
            let mut q: usize = 0;
            while q < nbrs.len()
                invariant
                    q <= nbrs@.len(),
                    u < 24,
                    v < 24,
                    edges == full_edge_seq(),
                    reports_edges(edges, u, nbrs@),
                    lk <==> (v != u && exists|i: int|
                        0 <= i < q && (#[trigger] nbrs@[i]).0 == v),
                decreases nbrs@.len() - q,
            {
                let pair = nbrs[q];
                if v != u && pair.0 == v {
                    lk = true;
                }
                q = q + 1;
            }
            proof {
                if lk {
                    let i = choose|i: int| 0 <= i < nbrs@.len() && (#[trigger] nbrs@[i]).0 == v;
                    assert(edge_present(edges, u, nbrs@[i]));
                    let j = choose|j: int|
                        0 <= j < edges.len() && edge_touches(#[trigger] edges[j], u, nbrs@[i].0, nbrs@[i].1);
                    assert(edge_connects(edges, u, v, nbrs@[i].1));
                    assert(ids_linked(u, v));
                }
                if v != u && ids_linked(u, v) {
                    let t = choose|t: KeyTransition| edge_connects(full_edge_seq(), u, v, t);
                    assert(edge_connects(edges, u, v, t));
                    let j = choose|j: int| 0 <= j < edges.len() && edge_touches(#[trigger] edges[j], u, v, t);
                    assert(edges[j].0 == u || edges[j].1 == u);
                    assert(edge_reported(nbrs@, edges[j], u));
                    let i = choose|i: int|
                        0 <= i < nbrs@.len() && edge_touches(edges[j], u, (#[trigger] nbrs@[i]).0, nbrs@[i].1);
                    assert(nbrs@[i].0 == v);
                    assert(lk);
                }
            }
            row.push(lk);
            v = v + 1;
        }
        adj.push(row);
        u = u + 1;
    }
    adj
}

/// `v` is adjacent to every member of `r`.
spec fn all_linked_to(r: Seq<usize>, v: usize) -> bool {
    forall|j: int| 0 <= j < r.len() ==> ids_linked(v, #[trigger] r[j])
}

/// The shared shape of the clique search state: `r` is a clique, every
/// candidate and every excluded node extends it, and together they hold
/// every node that could extend it.
spec fn bk_state_ok(r: Seq<usize>, p: Seq<usize>, x: Seq<usize>) -> bool {
    &&& r.no_duplicates() && p.no_duplicates() && x.no_duplicates()
    &&& forall|i: int| 0 <= i < r.len() ==> (#[trigger] r[i]) < 24
    &&& forall|i: int| 0 <= i < p.len() ==> (#[trigger] p[i]) < 24
    &&& forall|i: int| 0 <= i < x.len() ==> (#[trigger] x[i]) < 24
    &&& forall|w: usize| #[trigger] p.contains(w) ==> !r.contains(w)
    &&& forall|w: usize| #[trigger] x.contains(w) ==> !r.contains(w) && !p.contains(w)
    &&& forall|i: int, j: int|
        0 <= i < r.len() && 0 <= j < r.len() && i != j ==> ids_linked(#[trigger] r[i], #[trigger] r[j])
    &&& forall|i: int, j: int|
        0 <= i < p.len() && 0 <= j < r.len() ==> ids_linked(#[trigger] p[i], #[trigger] r[j])
    &&& forall|i: int, j: int|
        0 <= i < x.len() && 0 <= j < r.len() ==> ids_linked(#[trigger] x[i], #[trigger] r[j])
    &&& forall|w: usize|
        w < 24 && !r.contains(w) && #[trigger] all_linked_to(r, w) ==> p.contains(w) || x.contains(w)
}

/// A sequence of distinct values below a bound is no longer than it.
proof fn lemma_distinct_bounded_len(s: Seq<usize>, bound: int)
    requires
        s.no_duplicates(),
        forall|i: int| 0 <= i < s.len() ==> (#[trigger] s[i]) < bound,
        0 <= bound,
    ensures
        s.len() <= bound,
{
    let m = s.map_values(|z: usize| z as int);
    s.lemma_no_duplicates_injective(|z: usize| z as int);
    m.unique_seq_to_set();
    vstd::set_lib::lemma_int_range(0, bound);
    assert(m.to_set().subset_of(vstd::set_lib::set_int_range(0, bound))) by {
        assert forall|e: int| m.to_set().contains(e) implies 0 <= e < bound by {
            let i = choose|i: int| 0 <= i < m.len() && m[i] == e;
        }
    }
    vstd::set_lib::lemma_len_subset(m.to_set(), vstd::set_lib::set_int_range(0, bound));
}

/// Copies the members of a clique into a hash set of node identities.
fn to_clique_set(r: &Vec<usize>) -> (hs: std::collections::HashSet<u32>)
    requires
        forall|i: int| 0 <= i < r@.len() ==> (#[trigger] r@[i]) < 24,
    ensures
        forall|w: u32| hs@.contains(w) <==> r@.contains(w as usize),
{
    let mut hs: std::collections::HashSet<u32> = std::collections::HashSet::new();
    let mut i: usize = 0;
    while i < r.len()
        invariant
            i <= r@.len(),
            forall|k: int| 0 <= k < r@.len() ==> (#[trigger] r@[k]) < 24,
            forall|w: u32| hs@.contains(w) <==> r@.take(i as int).contains(w as usize),
        decreases r@.len() - i,
    {
        let val = r[i] as u32;
        hs.insert(val);
        proof {
            assert forall|w: u32| hs@.contains(w) implies r@.take(i + 1).contains(w as usize) by {
                if w == val {
                    assert(r@.take(i + 1)[i as int] == r@[i as int]);
                } else {
                    let k = choose|k: int| 0 <= k < i && #[trigger] r@.take(i as int)[k] == w as usize;
                    assert(r@.take(i + 1)[k] == w as usize);
                }
            }
            assert forall|w: u32| r@.take(i + 1).contains(w as usize) implies hs@.contains(w) by {
                let k = choose|k: int| 0 <= k < i + 1 && #[trigger] r@.take(i + 1)[k] == w as usize;
                if k < i {
                    assert(r@.take(i as int)[k] == w as usize);
                }
            }
        }
        i = i + 1;
    }
    proof {
        assert(r@.take(r@.len() as int) =~= r@);
    }
    hs
}

/// Keeps the members of `src` that are adjacent to `v`.
fn filter_linked(adj: &Vec<Vec<bool>>, src: &Vec<usize>, v: usize) -> (r: Vec<usize>)
    requires
        matrix_ok(adj@),
        v < 24,
        src@.no_duplicates(),
        forall|i: int| 0 <= i < src@.len() ==> (#[trigger] src@[i]) < 24,
    ensures
        r@.no_duplicates(),
        forall|i: int| 0 <= i < r@.len() ==> (#[trigger] r@[i]) < 24,
        forall|w: usize| #[trigger] r@.contains(w) <==> (src@.contains(w) && w != v && ids_linked(v, w)),
        src@.len() == 0 ==> r@.len() == 0,
{
    let mut r: Vec<usize> = Vec::new();
    let mut i: usize = 0;
    while i < src.len()
        invariant
            i <= src@.len(),
            matrix_ok(adj@),
            v < 24,
            src@.no_duplicates(),
            forall|k: int| 0 <= k < src@.len() ==> (#[trigger] src@[k]) < 24,
            r@.no_duplicates(),
            forall|k: int| 0 <= k < r@.len() ==> (#[trigger] r@[k]) < 24,
            forall|w: usize|
                #[trigger] r@.contains(w) <==> (src@.take(i as int).contains(w) && w != v
                    && ids_linked(v, w)),
        decreases src@.len() - i,
    {
        let w = src[i];
        if adj[v][w] {
            let ghost old_r = r@;
            r.push(w);
            proof {
                assert(!old_r.contains(w));
                assert forall|a: int, b: int|
                    0 <= a < r@.len() && 0 <= b < r@.len() && a != b implies r@[a] != r@[b] by {
                    if a < r@.len() - 1 && b < r@.len() - 1 {
                        assert(old_r[a] != old_r[b]);
                    }
                }
                assert forall|z: usize| #[trigger] r@.contains(z) implies (src@.take(i + 1).contains(z)
                    && z != v && ids_linked(v, z)) by {
                    let k = choose|k: int| 0 <= k < r@.len() && r@[k] == z;
                    if k < r@.len() - 1 {
                        assert(old_r.contains(z));
                        let kk = choose|kk: int| 0 <= kk < i && #[trigger] src@.take(i as int)[kk] == z;
                        assert(src@.take(i + 1)[kk] == z);
                    } else {
                        assert(src@.take(i + 1)[i as int] == w);
                    }
                }
                assert forall|z: usize| (src@.take(i + 1).contains(z) && z != v && ids_linked(v, z))
                    implies #[trigger] r@.contains(z) by {
                    let kk = choose|kk: int| 0 <= kk < i + 1 && #[trigger] src@.take(i + 1)[kk] == z;
                    if kk < i {
                        assert(src@.take(i as int)[kk] == z);
                        assert(old_r.contains(z));
                        let k = choose|k: int| 0 <= k < old_r.len() && old_r[k] == z;
                        assert(r@[k] == z);
                    } else {
                        assert(r@[r@.len() - 1] == w);
                    }
                }
            }
        } else {
            proof {
                assert forall|z: usize| #[trigger] r@.contains(z) implies (src@.take(i + 1).contains(z)
                    && z != v && ids_linked(v, z)) by {
                    let kk = choose|kk: int| 0 <= kk < i && #[trigger] src@.take(i as int)[kk] == z;
                    assert(src@.take(i + 1)[kk] == z);
                }
                assert forall|z: usize| (src@.take(i + 1).contains(z) && z != v && ids_linked(v, z))
                    implies #[trigger] r@.contains(z) by {
                    let kk = choose|kk: int| 0 <= kk < i + 1 && #[trigger] src@.take(i + 1)[kk] == z;
                    if kk < i {
                        assert(src@.take(i as int)[kk] == z);
                    } else {
                        assert(z == w);
                        assert(!(w != v && ids_linked(v, w)));
                    }
                }
            }
        }
        i = i + 1;
    }
    proof {
        assert(src@.take(src@.len() as int) =~= src@);
        if src@.len() == 0 && r@.len() > 0 {
            assert(r@.contains(r@[0]));
        }
    }
    r
}

/// A maximal clique over node identities: members are on the wheel and
/// pairwise linked, and no further identity is linked to all of them.
spec fn umax_clique(c: Set<usize>) -> bool {
    &&& forall|u: usize| c.contains(u) ==> u < 24
    &&& forall|u: usize, v: usize| c.contains(u) && c.contains(v) && u != v ==> ids_linked(u, v)
    &&& forall|v: usize|
        v < 24 && !c.contains(v) ==> exists|u: usize| c.contains(u) && !ids_linked(v, u)
}

/// The reported set `h` holds exactly the identities of `c`.
spec fn set_matches(h: Set<u32>, c: Set<usize>) -> bool {
    forall|w: u32| h.contains(w) <==> c.contains(w as usize)
}

/// The clique `c` appears among the reported sets.
spec fn reported_in(out: Seq<std::collections::HashSet<u32>>, c: Set<usize>) -> bool {
    exists|i: int| 0 <= i < out.len() && set_matches(#[trigger] out[i]@, c)
}

/// The search state `(r, p)` covers clique `c`: the clique extends `r`
/// and draws every member outside `r` from the candidates `p`.
spec fn bk_covers(r: Seq<usize>, p: Seq<usize>, c: Set<usize>) -> bool {
    &&& forall|i: int| 0 <= i < r.len() ==> c.contains(#[trigger] r[i])
    &&& forall|u: usize| #[trigger] c.contains(u) ==> r.contains(u) || p.contains(u)
}

/// Recursive maximal-clique enumeration: extends the clique `r` by
/// candidates from `p`, excluding those in `x`, and reports `r` when
/// neither can extend it. Every reported clique is pairwise adjacent
/// and maximal.
#[verifier::rlimit(100)]
fn bron_kerbosch(
    adj: &Vec<Vec<bool>>,
    r: Vec<usize>,
    p: Vec<usize>,
    x: Vec<usize>,
    out: &mut Vec<std::collections::HashSet<u32>>,
)
    requires
        matrix_ok(adj@),
        bk_state_ok(r@, p@, x@),
        forall|i: int|
            0 <= i < old(out)@.len() ==> clique_ok((#[trigger] old(out)@[i])@) && clique_maximal(
                old(out)@[i]@,
            ),
    ensures
        final(out)@.len() >= old(out)@.len(),
        x@.len() == 0 ==> final(out)@.len() > old(out)@.len(),
        forall|i: int| 0 <= i < old(out)@.len() ==> final(out)@[i] == old(out)@[i],
        forall|c: Set<usize>|
            #[trigger] umax_clique(c) && bk_covers(r@, p@, c) ==> reported_in(final(out)@, c),
        forall|i: int|
            0 <= i < final(out)@.len() ==> clique_ok((#[trigger] final(out)@[i])@) && clique_maximal(
                final(out)@[i]@,
            ),
    decreases 24 - r@.len(),
{
    proof {
        lemma_distinct_bounded_len(r@, 24);
    }
    if p.len() == 0 && x.len() == 0 {
        let hs = to_clique_set(&r);
        proof {
            assert forall|u: u32, v: u32|
                hs@.contains(u) && hs@.contains(v) && u != v implies keys_adjacent(
                index_key(u as int),
                index_key(v as int),
            ) by {
                let i = choose|i: int| 0 <= i < r@.len() && r@[i] == u as usize;
                let j = choose|j: int| 0 <= j < r@.len() && r@[j] == v as usize;
                assert(ids_linked(r@[i], r@[j]));
                lemma_linked_iff_adjacent(u as usize, v as usize);
            }
            assert forall|v: u32| v < 24 && !hs@.contains(v) implies exists|u: u32|
                hs@.contains(u) && !keys_adjacent(index_key(v as int), index_key(u as int)) by {
                assert(!r@.contains(v as usize));
                assert(!all_linked_to(r@, v as usize));
                let j = choose|j: int| !(0 <= j < r@.len() ==> ids_linked(v as usize, #[trigger] r@[j]));
                let u = r@[j] as u32;
                assert(r@.contains(r@[j]));
                assert(hs@.contains(u));
                lemma_linked_iff_adjacent(v as usize, u as usize);
                assert(!keys_adjacent(index_key(v as int), index_key(u as int)));
            }
            assert(clique_ok(hs@) && clique_maximal(hs@));
        }
        let ghost before = out@;
        out.push(hs);
        proof {
            assert forall|c: Set<usize>|
                #[trigger] umax_clique(c) && bk_covers(r@, p@, c) implies reported_in(out@, c) by {
                assert forall|w: u32| out@[before.len() as int]@.contains(w) <==> c.contains(
                    w as usize,
                ) by {
                    if out@[before.len() as int]@.contains(w) {
                        assert(r@.contains(w as usize));
                    }
                    if c.contains(w as usize) {
                        assert(r@.contains(w as usize) || p@.contains(w as usize));
                        let i = choose|i: int| 0 <= i < r@.len() && r@[i] == w as usize;
                        assert(r@[i] < 24);
                        assert((w as usize) < 24);
                        assert(((w as usize) as u32) == w);
                    }
                }
                assert(set_matches(out@[before.len() as int]@, c));
            }
        }
        return ;
    }
    let ghost base = out@;
    let ghost entry_x_len = x@.len();
    let ghost entry_p_len = p@.len();
    let ghost entry_p = p@;
    let mut p = p;
    let mut x = x;
    while p.len() > 0
        invariant
            matrix_ok(adj@),
            bk_state_ok(r@, p@, x@),
            out@.len() >= base.len(),
            p@.len() + x@.len() == entry_p_len + entry_x_len,
            entry_x_len == 0 ==> out@.len() > base.len() || x@.len() == 0,
            forall|c: Set<usize>|
                #[trigger] umax_clique(c) && bk_covers(r@, entry_p, c) ==> reported_in(out@, c)
                    || bk_covers(r@, p@, c),
            forall|i: int| 0 <= i < base.len() ==> out@[i] == base[i],
            forall|i: int|
                0 <= i < out@.len() ==> clique_ok((#[trigger] out@[i])@) && clique_maximal(
                    out@[i]@,
                ),
        decreases p@.len(),
    {
        let v = p[p.len() - 1];
        proof {
            assert(p@.contains(v));
        }
        let mut rv = copy_indices(&r);
        rv.push(v);
        let pv = filter_linked(adj, &p, v);
        let xv = filter_linked(adj, &x, v);
        proof {
            assert(rv@ == r@.push(v));
            assert(!r@.contains(v));
            assert forall|a: int, b: int|
                0 <= a < rv@.len() && 0 <= b < rv@.len() && a != b implies rv@[a] != rv@[b] by {
                if a < r@.len() && b < r@.len() {
                    assert(r@[a] != r@[b]);
                }
            }
            assert(rv@.no_duplicates());
            lemma_distinct_bounded_len(rv@, 24);
            assert forall|i: int, j: int|
                0 <= i < rv@.len() && 0 <= j < rv@.len() && i != j implies ids_linked(
                #[trigger] rv@[i],
                #[trigger] rv@[j],
            ) by {
                assert(p@[p@.len() - 1] == v);
                if i == rv@.len() - 1 {
                    assert(ids_linked(v, r@[j]));
                } else if j == rv@.len() - 1 {
                    assert(ids_linked(v, r@[i]));
                    lemma_linked_symmetric(v, r@[i]);
                }
            }
            assert forall|i: int, j: int|
                0 <= i < pv@.len() && 0 <= j < rv@.len() implies ids_linked(
                #[trigger] pv@[i],
                #[trigger] rv@[j],
            ) by {
                assert(pv@.contains(pv@[i]));
                let w = pv@[i];
                assert(p@.contains(w) && w != v && ids_linked(v, w));
                if j == rv@.len() - 1 {
                    lemma_linked_symmetric(v, w);
                } else {
                    let k = choose|k: int| 0 <= k < p@.len() && p@[k] == w;
                    assert(ids_linked(p@[k], r@[j]));
                }
            }
            assert forall|i: int, j: int|
                0 <= i < xv@.len() && 0 <= j < rv@.len() implies ids_linked(
                #[trigger] xv@[i],
                #[trigger] rv@[j],
            ) by {
                assert(xv@.contains(xv@[i]));
                let w = xv@[i];
                assert(x@.contains(w) && w != v && ids_linked(v, w));
                if j == rv@.len() - 1 {
                    lemma_linked_symmetric(v, w);
                } else {
                    let k = choose|k: int| 0 <= k < x@.len() && x@[k] == w;
                    assert(ids_linked(x@[k], r@[j]));
                }
            }
            assert forall|w: usize|
                w < 24 && !rv@.contains(w) && #[trigger] all_linked_to(rv@, w) implies pv@.contains(w)
                || xv@.contains(w) by {
                assert forall|j: int| 0 <= j < r@.len() implies ids_linked(w, #[trigger] r@[j]) by {
                    assert(rv@[j] == r@[j]);
                    assert(ids_linked(w, rv@[j]));
                }
                assert(all_linked_to(r@, w));
                assert forall|z: usize| r@.contains(z) implies rv@.contains(z) by {
                    let k = choose|k: int| 0 <= k < r@.len() && r@[k] == z;
                    assert(rv@[k] == z);
                }
                assert(!r@.contains(w));
                assert(p@.contains(w) || x@.contains(w));
                assert(rv@[rv@.len() - 1] == v);
                assert(ids_linked(w, v));
                lemma_linked_symmetric(w, v);
                assert(w != v);
            }
            assert(bk_state_ok(rv@, pv@, xv@));
        }
        let ghost out_before = out@;
        proof {
            if x@.len() == 0 {
                assert(xv@.len() == 0);
            }
        }
        bron_kerbosch(adj, rv, pv, xv, out);
        proof {
            if entry_x_len == 0 {
                assert(out@.len() > out_before.len() || out_before.len() > base.len());
            }
        }
        let ghost old_p = p@;
        let ghost old_x = x@;
        p.pop();
        x.push(v);
        proof {
            assert(p@ == old_p.drop_last());
            assert forall|a: int, b: int|
                0 <= a < p@.len() && 0 <= b < p@.len() && a != b implies p@[a] != p@[b] by {
                assert(old_p[a] != old_p[b]);
            }
            assert(!old_x.contains(v));
            assert forall|a: int, b: int|
                0 <= a < x@.len() && 0 <= b < x@.len() && a != b implies x@[a] != x@[b] by {
                if a < old_x.len() && b < old_x.len() {
                    assert(old_x[a] != old_x[b]);
                } else if a == old_x.len() {
                    assert(old_x.contains(old_x[b]));
                } else if b == old_x.len() {
                    assert(old_x.contains(old_x[a]));
                }
            }
            assert forall|w: usize| #[trigger] p@.contains(w) implies old_p.contains(w) by {
                let k = choose|k: int| 0 <= k < p@.len() && p@[k] == w;
                assert(old_p[k] == w);
            }
            assert forall|w: usize| #[trigger] x@.contains(w) implies !r@.contains(w) && !p@.contains(w) by {
                if old_x.contains(w) {
                    assert(!r@.contains(w) && !old_p.contains(w));
                } else {
                    let k = choose|k: int| 0 <= k < x@.len() && x@[k] == w;
                    assert(k == x@.len() - 1);
                    assert(w == v);
                    assert(!p@.contains(v));
                }
            }
            assert forall|i: int, j: int|
                0 <= i < x@.len() && 0 <= j < r@.len() implies ids_linked(
                #[trigger] x@[i],
                #[trigger] r@[j],
            ) by {
                if i < old_x.len() {
                    assert(ids_linked(old_x[i], r@[j]));
                } else {
                    assert(old_p[old_p.len() - 1] == v);
                    let k = choose|k: int| 0 <= k < old_p.len() && old_p[k] == v;
                    assert(ids_linked(old_p[k], r@[j]));
                }
            }
            assert forall|w: usize|
                w < 24 && !r@.contains(w) && #[trigger] all_linked_to(r@, w) implies p@.contains(w)
                || x@.contains(w) by {
                assert(old_p.contains(w) || old_x.contains(w));
                if old_x.contains(w) {
                    let k = choose|k: int| 0 <= k < old_x.len() && old_x[k] == w;
                    assert(x@[k] == w);
                } else {
                    let k = choose|k: int| 0 <= k < old_p.len() && old_p[k] == w;
                    if w == v {
                        assert(x@[x@.len() - 1] == v);
                    } else {
                        assert(old_p.no_duplicates());
                        assert(k != old_p.len() - 1);
                        assert(p@[k] == w);
                    }
                }
            }
            assert(bk_state_ok(r@, p@, x@));
            assert forall|c: Set<usize>|
                #[trigger] umax_clique(c) && bk_covers(r@, entry_p, c) implies reported_in(out@, c)
                || bk_covers(r@, p@, c) by {
                if reported_in(out_before, c) {
                    let i = choose|i: int|
                        0 <= i < out_before.len() && set_matches(#[trigger] out_before[i]@, c);
                    assert(out@[i]@ == out_before[i]@);
                } else if bk_covers(r@, old_p, c) {
                    if c.contains(v) {
                        assert forall|i: int| 0 <= i < rv@.len() implies c.contains(
                            #[trigger] rv@[i],
                        ) by {
                            if i < r@.len() {
                                assert(c.contains(r@[i]));
                            }
                        }
                        assert forall|u: usize| #[trigger] c.contains(u) implies rv@.contains(u)
                            || pv@.contains(u) by {
                            if !rv@.contains(u) {
                                assert forall|k: int|
                                    0 <= k < r@.len() implies r@[k] != u by {
                                    assert(rv@[k] == r@[k]);
                                }
                                assert(!r@.contains(u));
                                assert(old_p.contains(u));
                                assert(rv@[rv@.len() - 1] == v);
                                assert(u != v);
                                assert(ids_linked(v, u));
                                assert(pv@.contains(u));
                            }
                        }
                        assert(bk_covers(rv@, pv@, c));
                        assert(reported_in(out@, c));
                    } else {
                        assert forall|u: usize| #[trigger] c.contains(u) implies r@.contains(u)
                            || p@.contains(u) by {
                            if !r@.contains(u) {
                                assert(old_p.contains(u));
                                let k = choose|k: int| 0 <= k < old_p.len() && old_p[k] == u;
                                assert(u != v);
                                assert(k != old_p.len() - 1);
                                assert(p@[k] == u);
                            }
                        }
                        assert(bk_covers(r@, p@, c));
                    }
                }
            }
        }
    }
    proof {
        if entry_x_len == 0 {
            assert(entry_p_len > 0);
            assert(x@.len() > 0);
            assert(out@.len() > base.len());
        }
        assert forall|c: Set<usize>|
            #[trigger] umax_clique(c) && bk_covers(r@, entry_p, c) implies reported_in(out@, c) by {
            if !reported_in(out@, c) {
                assert(bk_covers(r@, p@, c));
                assert(x@.len() > 0);
                let w = x@[0];
                assert(x@.contains(w));
                assert(!c.contains(w)) by {
                    if c.contains(w) {
                        assert(r@.contains(w) || p@.contains(w));
                    }
                }
                assert(w < 24);
                let u = choose|u: usize| c.contains(u) && !ids_linked(w, u);
                assert(r@.contains(u)) by {
                    if !r@.contains(u) {
                        assert(p@.contains(u));
                    }
                }
                let k = choose|k: int| 0 <= k < r@.len() && r@[k] == u;
                assert(ids_linked(x@[0], r@[k]));
                assert(false);
            }
        }
    }
}

impl ScaleTransitions {
    /// Enumerates every maximal clique of the wheel graph, each as the
    /// set of node identities of its keys: pairwise-compatible key
    /// clusters that no further key can join.
    pub fn cliques(&self) -> (r: Vec<std::collections::HashSet<u32>>)
        requires
            self.wf(),
        ensures
            r@.len() >= 1,
            forall|i: int|
                0 <= i < r@.len() ==> clique_ok((#[trigger] r@[i])@) && clique_maximal(r@[i]@),
            forall|c: Set<u32>|
                #[trigger] clique_ok(c) && clique_maximal(c) ==> exists|i: int|
                    0 <= i < r@.len() && r@[i]@ == c,
    {
        let adj = build_adjacency(&self.graph);
        let base: Vec<usize> = Vec::new();
        let mut p: Vec<usize> = Vec::new();
        let mut i: usize = 0;
        while i < 24
            invariant
                i <= 24,
                p@.len() == i,
                forall|k: int| 0 <= k < i ==> p@[k] == k,
            decreases 24 - i,
        {
            p.push(i);
            i = i + 1;
        }
        let excluded: Vec<usize> = Vec::new();
        let mut out: Vec<std::collections::HashSet<u32>> = Vec::new();
        proof {
            assert forall|a: int, b: int|
                0 <= a < p@.len() && 0 <= b < p@.len() && a != b implies p@[a] != p@[b] by {}
            assert forall|w: usize|
                w < 24 && !base@.contains(w) && #[trigger] all_linked_to(base@, w)
                implies p@.contains(w) || excluded@.contains(w) by {
                assert(p@[w as int] == w);
            }
            assert(bk_state_ok(base@, p@, excluded@));
        }
        let ghost baseq = base@;
        let ghost pseq = p@;
        bron_kerbosch(&adj, base, p, excluded, &mut out);
        proof {
            assert forall|c: Set<u32>|
                #[trigger] clique_ok(c) && clique_maximal(c) implies exists|i: int|
                0 <= i < out@.len() && out@[i]@ == c by {
                let cu = Set::new(|u: usize| u < 24 && c.contains(u as u32));
                assert forall|u: usize, v: usize|
                    cu.contains(u) && cu.contains(v) && u != v implies ids_linked(u, v) by {
                    assert(c.contains(u as u32) && c.contains(v as u32));
                    assert(keys_adjacent(index_key(u as int), index_key(v as int)));
                    lemma_adjacent_implies_linked(u, v);
                }
                assert forall|v: usize|
                    v < 24 && !cu.contains(v) implies exists|u: usize|
                    cu.contains(u) && !ids_linked(v, u) by {
                    assert(!c.contains(v as u32));
                    let u32u = choose|u: u32|
                        c.contains(u) && !keys_adjacent(index_key(v as int), index_key(u as int));
                    let u = u32u as usize;
                    assert(u < 24);
                    assert(cu.contains(u));
                    assert(!ids_linked(v, u)) by {
                        if ids_linked(v, u) {
                            let t = choose|t: KeyTransition|
                                #[trigger] edge_connects(full_edge_seq(), v, u, t);
                            lemma_edge_seq_adjacent(v, u, t);
                        }
                    }
                }
                assert(umax_clique(cu));
                assert(bk_covers(baseq, pseq, cu)) by {
                    assert forall|u: usize| #[trigger] cu.contains(u) implies pseq.contains(u) by {
                        assert(pseq[u as int] == u);
                    }
                }
                assert(reported_in(out@, cu));
                let i = choose|i: int| 0 <= i < out@.len() && set_matches(#[trigger] out@[i]@, cu);
                assert forall|w: u32| out@[i]@.contains(w) <==> c.contains(w) by {
                    if out@[i]@.contains(w) {
                        assert(cu.contains(w as usize));
                        assert(((w as usize) as u32) == w);
                    }
                    if c.contains(w) {
                        assert(w < 24);
                        assert(cu.contains(w as usize));
                    }
                }
                assert(out@[i]@ =~= c);
            }
        }
        out
    }
}


/// How many of the first `n` edges carry label `t`.
pub open spec fn count_label(
    edges: Seq<(usize, usize, KeyTransition)>,
    t: KeyTransition,
    n: int,
) -> int
    decreases n,
{
    if n <= 0 {
        0
    } else {
        count_label(edges, t, n - 1) + (if edges[n - 1].2 == t {
            1int
        } else {
            0int
        })
    }
}

/// The ten catalog entries are pairwise distinct.
proof fn lemma_catalog_distinct(a: int, b: int)
    requires
        0 <= a < 10,
        0 <= b < 10,
        catalog()[a] == catalog()[b],
    ensures
        a == b,
{
}

/// Among the first `n` build steps, rule `j` produced one edge per
/// completed pass over the catalog, plus one if the current pass has
/// already reached it.
proof fn lemma_count_label_prefix(j: int, n: int)
    requires
        0 <= j < 10,
        0 <= n <= 240,
    ensures
        count_label(full_edge_seq(), catalog()[j], n) == n / 10 + (if n % 10 > j {
            1int
        } else {
            0int
        }),
    decreases n,
{
    if n > 0 {
        lemma_count_label_prefix(j, n - 1);
        let q = (n - 1) / 10;
        let r = (n - 1) % 10;
        vstd::arithmetic::div_mod::lemma_fundamental_div_mod(n - 1, 10);
        assert(full_edge_seq()[n - 1].2 == catalog()[r]);
        if catalog()[r] == catalog()[j] {
            lemma_catalog_distinct(r, j);
        }
        if r < 9 {
            vstd::arithmetic::div_mod::lemma_fundamental_div_mod_converse(n, 10, q, r + 1);
        } else {
            assert(n == 10 * q + 10);
            vstd::arithmetic::div_mod::lemma_fundamental_div_mod_converse(n, 10, q + 1, 0);
        }
    }
}

impl ScaleTransitions {
    /// The number of nodes of the built graph.
    pub closed spec fn spec_node_count(&self) -> int {
        graph_node_seq(self.graph).len() as int
    }

    /// The number of edges of the built graph.
    pub closed spec fn spec_edge_count(&self) -> int {
        graph_edge_seq(self.graph).len() as int
    }

    /// The number of edges of the built graph carrying label `t`.
    pub closed spec fn spec_label_count(&self, t: KeyTransition) -> int {
        count_label(graph_edge_seq(self.graph), t, graph_edge_seq(self.graph).len() as int)
    }

    /// The number of nodes of the built graph: always 24.
    pub fn node_count(&self) -> (r: usize)
        ensures
            r == self.spec_node_count(),
            self.wf() ==> r == 24,
    {
        graph_node_count(&self.graph)
    }

    /// The number of edges of the built graph: always 240.
    pub fn edge_count(&self) -> (r: usize)
        ensures
            r == self.spec_edge_count(),
            self.wf() ==> r == 240,
    {
        graph_edge_count(&self.graph)
    }

    /// The built graph has exactly 24 nodes and 240 edges, and each of
    /// the ten catalog rules labels exactly 24 of them.
    pub proof fn lemma_graph_size(&self)
        requires
            self.wf(),
        ensures
            self.spec_node_count() == 24,
            self.spec_edge_count() == 240,
            forall|j: int| 0 <= j < 10 ==> self.spec_label_count(#[trigger] catalog()[j]) == 24,
    {
        assert forall|j: int| 0 <= j < 10 implies self.spec_label_count(#[trigger] catalog()[j])
            == 24 by {
            lemma_count_label_prefix(j, 240);
        }
    }
}


/// A walk over node identities: consecutive entries are linked.
pub open spec fn id_walk_ok(w: Seq<usize>) -> bool {
    &&& w.len() >= 1
    &&& forall|i: int| 0 <= i < w.len() - 1 ==> #[trigger] ids_linked(w[i], w[i + 1])
    &&& forall|i: int| 0 <= i < w.len() ==> (#[trigger] w[i]) < 24
}

/// A walk over keys: consecutive entries are joined by a catalog rule.
pub open spec fn key_walk_ok(w: Seq<Key>) -> bool {
    &&& w.len() >= 1
    &&& forall|i: int| 0 <= i < w.len() - 1 ==> #[trigger] keys_adjacent(w[i], w[i + 1])
    &&& forall|i: int| 0 <= i < w.len() ==> (#[trigger] w[i]).wf()
}

/// Keys joined by a catalog rule have linked node identities.
proof fn lemma_adjacent_implies_linked(u: usize, v: usize)
    requires
        u < 24,
        v < 24,
        keys_adjacent(index_key(u as int), index_key(v as int)),
    ensures
        ids_linked(u, v),
{
    let a = index_key(u as int);
    let b = index_key(v as int);
    lemma_index_key_roundtrip(u as int);
    lemma_index_key_roundtrip(v as int);
    let j = choose|j: int|
        0 <= j < 10 && (spec_make_transition(a, #[trigger] catalog()[j]) == b
            || spec_make_transition(b, catalog()[j]) == a);
    if spec_make_transition(a, catalog()[j]) == b {
        let e = 10 * (u as int) + j;
        assert(e / 10 == u && e % 10 == j) by (nonlinear_arith)
            requires u < 24 && 0 <= j < 10 && e == 10 * (u as int) + j;
        assert(edge_touches(full_edge_seq()[e], u, v, catalog()[j]));
        assert(edge_connects(full_edge_seq(), u, v, catalog()[j]));
    } else {
        let e = 10 * (v as int) + j;
        assert(e / 10 == v && e % 10 == j) by (nonlinear_arith)
            requires v < 24 && 0 <= j < 10 && e == 10 * (v as int) + j;
        assert(edge_touches(full_edge_seq()[e], u, v, catalog()[j]));
        assert(edge_connects(full_edge_seq(), u, v, catalog()[j]));
    }
}

/// The distance value that marks a node as not yet reached.
pub open spec fn far_away() -> int {
    100
}

/// A valid distance table toward `target`: every entry is bounded, only
/// `target` sits at zero, and every reached node other than `target`
/// has a strictly closer linked neighbor.
spec fn dist_ok(dist: Seq<usize>, target: usize) -> bool {
    &&& dist.len() == 24
    &&& dist[target as int] == 0
    &&& forall|u: int| 0 <= u < 24 ==> (#[trigger] dist[u]) <= far_away()
    &&& forall|u: int| 0 <= u < 24 && (#[trigger] dist[u]) == 0 ==> u == target
    &&& forall|u: int|
        0 <= u < 24 && 1 <= (#[trigger] dist[u]) && dist[u] < far_away() ==> exists|v: int|
            0 <= v < 24 && ids_linked(u as usize, v as usize) && dist[v] < dist[u]
}

/// The local fixed-point property: no edge can shorten any entry.
spec fn dist_settled(dist: Seq<usize>) -> bool {
    forall|u: int, v: int|
        0 <= u < 24 && 0 <= v < 24 && #[trigger] ids_linked(u as usize, v as usize) ==> dist[u]
            <= dist[v] + 1
}

/// The sum of a distance table, the termination measure of relaxation.
spec fn sum_of(s: Seq<usize>) -> int
    decreases s.len(),
{
    if s.len() == 0 {
        0
    } else {
        sum_of(s.drop_last()) + s.last()
    }
}

proof fn lemma_sum_nonneg(s: Seq<usize>)
    ensures
        sum_of(s) >= 0,
    decreases s.len(),
{
    if s.len() > 0 {
        lemma_sum_nonneg(s.drop_last());
    }
}

/// A pointwise-smaller table with one strictly smaller entry has a
/// strictly smaller sum.
proof fn lemma_sum_pointwise_lt(a: Seq<usize>, b: Seq<usize>, k: int)
    requires
        a.len() == b.len(),
        forall|i: int| 0 <= i < a.len() ==> (#[trigger] a[i]) <= b[i],
        0 <= k < a.len(),
        a[k] < b[k],
    ensures
        sum_of(a) < sum_of(b),
    decreases a.len(),
{
    if k == a.len() - 1 {
        lemma_sum_pointwise_le(a.drop_last(), b.drop_last());
    } else {
        lemma_sum_pointwise_lt(a.drop_last(), b.drop_last(), k);
    }
}

proof fn lemma_sum_pointwise_le(a: Seq<usize>, b: Seq<usize>)
    requires
        a.len() == b.len(),
        forall|i: int| 0 <= i < a.len() ==> (#[trigger] a[i]) <= b[i],
    ensures
        sum_of(a) <= sum_of(b),
    decreases a.len(),
{
    if a.len() > 0 {
        lemma_sum_pointwise_le(a.drop_last(), b.drop_last());
    }
}

/// Along any walk that ends at the distance table's target, the table
/// entry of the first node bounds the walk's edge count from below.
proof fn lemma_dist_lower_bound(dist: Seq<usize>, target: usize, w: Seq<usize>)
    requires
        dist.len() == 24,
        target < 24,
        dist[target as int] == 0,
        dist_settled(dist),
        id_walk_ok(w),
        w[w.len() - 1] == target,
    ensures
        dist[w[0] as int] <= w.len() - 1,
    decreases w.len(),
{
    if w.len() > 1 {
        let rest = w.drop_first();
        assert forall|i: int| 0 <= i < rest.len() - 1 implies ids_linked(
            #[trigger] rest[i],
            rest[i + 1],
        ) by {
            let j = i + 1;
            assert(ids_linked(w[j], w[j + 1]));
            assert(rest[i] == w[j] && rest[i + 1] == w[j + 1]);
        }
        lemma_dist_lower_bound(dist, target, rest);
        assert(ids_linked(w[0], w[1]));
        assert(dist[w[0] as int] <= dist[w[1] as int] + 1);
    }
}

/// Any two node identities of the wheel are connected by a short walk:
/// at most eleven tonic steps and one mode swap.
proof fn lemma_exists_walk(a: usize, b: usize)
    requires
        a < 24,
        b < 24,
    ensures
        exists|w: Seq<usize>|
            #[trigger] id_walk_ok(w) && w[0] == a && w[w.len() - 1] == b && w.len() <= 13,
{
    lemma_index_key_roundtrip(a as int);
    lemma_index_key_roundtrip(b as int);
    let ka = index_key(a as int);
    let kb = index_key(b as int);
    let gap = (kb.tonic - ka.tonic) % 12;
    lemma_exists_walk_tonic(a, b, gap);
}

/// The node identity one tonic step up from `a`, same mode.
spec fn step_id(a: int) -> int {
    spec_key_index(index_key(a).spec_change_index(1))
}

/// Every node identity is linked to its tonic-step successor, by the
/// single-step rotation rule.
#[verifier::spinoff_prover]
proof fn lemma_step_linked(a: usize)
    requires
        a < 24,
    ensures
        0 <= step_id(a as int) < 24,
        ids_linked(a, step_id(a as int) as usize),
        index_key(step_id(a as int)).tonic == (index_key(a as int).tonic + 1) % 12,
        index_key(step_id(a as int)).mode == index_key(a as int).mode,
{
    lemma_index_key_roundtrip(a as int);
    let ka = index_key(a as int);
    let knext = ka.spec_change_index(1);
    lemma_key_index_roundtrip(knext);
    assert(spec_make_transition(ka, catalog()[4]) == knext);
    assert(keys_adjacent(ka, knext));
    lemma_adjacent_implies_linked(a, crate::camelot::spec_key_index(knext) as usize);
}

/// Two identities holding the same tonic in opposite modes are linked,
/// by the vertical rule.
#[verifier::spinoff_prover]
proof fn lemma_vertical_linked(a: usize, b: usize)
    requires
        a < 24,
        b < 24,
        index_key(a as int).tonic == index_key(b as int).tonic,
        index_key(a as int).mode != index_key(b as int).mode,
    ensures
        ids_linked(a, b),
{
    lemma_index_key_roundtrip(a as int);
    lemma_index_key_roundtrip(b as int);
    assert(spec_make_transition(index_key(a as int), catalog()[0]) == index_key(b as int));
    assert(keys_adjacent(index_key(a as int), index_key(b as int)));
    lemma_adjacent_implies_linked(a, b);
}

/// Prepending a linked node to a walk gives a walk.
proof fn lemma_walk_cons(a: usize, rest: Seq<usize>)
    requires
        a < 24,
        id_walk_ok(rest),
        ids_linked(a, rest[0]),
    ensures
        id_walk_ok(seq![a] + rest),
        (seq![a] + rest)[0] == a,
        (seq![a] + rest)[(seq![a] + rest).len() - 1] == rest[rest.len() - 1],
        (seq![a] + rest).len() == rest.len() + 1,
{
    let w = seq![a] + rest;
    assert forall|i: int| 0 <= i < w.len() - 1 implies ids_linked(#[trigger] w[i], w[i + 1]) by {
        if i == 0 {
            assert(w[0] == a && w[1] == rest[0]);
        } else {
            let j = i - 1;
            assert(ids_linked(rest[j], rest[j + 1]));
            assert(w[i] == rest[j] && w[i + 1] == rest[j + 1]);
        }
    }
}

/// Builds the connecting walk by stepping the tonic one position at a
/// time and swapping the mode at the end if the modes differ.
#[verifier::rlimit(100)]
proof fn lemma_exists_walk_tonic(a: usize, b: usize, gap: int)
    requires
        a < 24,
        b < 24,
        gap == (index_key(b as int).tonic - index_key(a as int).tonic) % 12,
    ensures
        exists|w: Seq<usize>|
            #[trigger] id_walk_ok(w) && w[0] == a && w[w.len() - 1] == b && w.len() <= gap + 2,
    decreases gap,
{
    lemma_index_key_roundtrip(a as int);
    lemma_index_key_roundtrip(b as int);
    let ka = index_key(a as int);
    let kb = index_key(b as int);
    if gap == 0 {
        lemma_small_tonic_gap(ka.tonic as int, kb.tonic as int);
        if a == b {
            let w = seq![a];
            assert(id_walk_ok(w));
        } else {
            assert(ka.mode != kb.mode) by {
                lemma_key_index_roundtrip(ka);
                lemma_key_index_roundtrip(kb);
            }
            lemma_vertical_linked(a, b);
            let w = seq![a, b];
            assert(id_walk_ok(w));
        }
    } else {
        lemma_step_linked(a);
        let n = step_id(a as int) as usize;
        lemma_gap_step(ka.tonic as int, kb.tonic as int, gap);
        lemma_exists_walk_tonic(n, b, gap - 1);
        let rest = choose|w: Seq<usize>|
            #[trigger] id_walk_ok(w) && w[0] == n && w[w.len() - 1] == b && w.len() <= gap + 1;
        lemma_walk_cons(a, rest);
        let w = seq![a] + rest;
        assert(id_walk_ok(w) && w[0] == a && w[w.len() - 1] == b && w.len() <= gap + 2);
    }
}

proof fn lemma_small_tonic_gap(ta: int, tb: int)
    requires
        0 <= ta < 12,
        0 <= tb < 12,
        (tb - ta) % 12 == 0,
    ensures
        ta == tb,
{
    if tb > ta {
        vstd::arithmetic::div_mod::lemma_small_mod((tb - ta) as nat, 12);
    } else if ta > tb {
        vstd::arithmetic::div_mod::lemma_fundamental_div_mod_converse(tb - ta, 12, -1, tb - ta + 12);
    }
}

proof fn lemma_gap_step(ta: int, tb: int, gap: int)
    requires
        0 <= ta < 12,
        0 <= tb < 12,
        gap == (tb - ta) % 12,
        gap >= 1,
    ensures
        (tb - (ta + 1) % 12) % 12 == gap - 1,
{
    let ta1 = (ta + 1) % 12;
    if ta < 11 {
        vstd::arithmetic::div_mod::lemma_small_mod((ta + 1) as nat, 12);
        assert(ta1 == ta + 1);
    } else {
        vstd::arithmetic::div_mod::lemma_fundamental_div_mod_converse(ta + 1, 12, 1, 0);
        assert(ta1 == 0);
    }
    vstd::arithmetic::div_mod::lemma_fundamental_div_mod(tb - ta, 12);
    let q = (tb - ta) / 12;
    assert(tb - ta == 12 * q + gap);
    if ta1 == ta + 1 {
        assert(tb - ta1 == 12 * q + (gap - 1));
        vstd::arithmetic::div_mod::lemma_fundamental_div_mod_converse(tb - ta1, 12, q, gap - 1);
    } else {
        assert(tb - ta1 == tb);
        assert(tb == 12 * (q + 1) + (gap - 1));
        vstd::arithmetic::div_mod::lemma_fundamental_div_mod_converse(tb, 12, q + 1, gap - 1);
    }
}

/// One relaxation sweep: recomputes every entry as the best of itself
/// and one more step than any linked neighbor. Reports whether any
/// entry improved; an unchanged sweep means the table is settled.
fn relax_pass(adj: &Vec<Vec<bool>>, dist: &mut Vec<usize>, target: usize) -> (changed: bool)
    requires
        matrix_ok(adj@),
        target < 24,
        dist_ok(old(dist)@, target),
    ensures
        dist_ok(final(dist)@, target),
        !changed ==> final(dist)@ == old(dist)@ && dist_settled(final(dist)@),
        changed ==> sum_of(final(dist)@) < sum_of(old(dist)@),
{
    let ghost orig = dist@;
    let mut fresh: Vec<usize> = Vec::new();
    let mut changed = false;
    let mut u: usize = 0;
    while u < 24
        invariant
            u <= 24,
            matrix_ok(adj@),
            target < 24,
            dist_ok(dist@, target),
            dist@ == orig,
            fresh@.len() == u,
            forall|w: int| 0 <= w < u ==> (#[trigger] fresh@[w]) <= orig[w],
            forall|w: int|
                0 <= w < u && (#[trigger] fresh@[w]) < orig[w] ==> exists|v: int|
                    0 <= v < 24 && ids_linked(w as usize, v as usize) && fresh@[w] == orig[v] + 1
                        && orig[v] < far_away(),
            !changed ==> forall|w: int| 0 <= w < u ==> (#[trigger] fresh@[w]) == orig[w],
            changed ==> exists|w: int| 0 <= w < u && (#[trigger] fresh@[w]) < orig[w],
            !changed ==> forall|w: int, v: int|
                0 <= w < u && 0 <= v < 24 && #[trigger] ids_linked(w as usize, v as usize)
                    ==> orig[w] <= orig[v] + 1,
        decreases 24 - u,
    {
        let mut best = dist[u];
        let mut v: usize = 0;
        while v < 24
            invariant
                v <= 24,
                u < 24,
                matrix_ok(adj@),
                dist_ok(dist@, target),
                dist@ == orig,
                best <= orig[u as int],
                best == orig[u as int] || exists|k: int|
                    0 <= k < 24 && ids_linked(u as usize, k as usize) && best == orig[k] + 1
                        && orig[k] < far_away(),
                forall|k: int|
                    0 <= k < v && #[trigger] ids_linked(u as usize, k as usize) && orig[k]
                        < far_away() ==> best <= orig[k] + 1,
            decreases 24 - v,
        {
            if adj[u][v] {
                let dv = dist[v];
                if dv < 100 && dv + 1 < best {
                    best = dv + 1;
                }
            }
            v = v + 1;
        }
        let ghost changed_before = changed;
        let ghost pre = fresh@;
        if best != dist[u] {
            changed = true;
        }
        fresh.push(best);
        proof {
            assert(fresh@[u as int] == best);
            if changed {
                if changed_before {
                    let w0 = choose|w: int| 0 <= w < u && (#[trigger] pre[w]) < orig[w];
                    assert(fresh@[w0] == pre[w0]);
                } else {
                    assert(best < orig[u as int]);
                }
            }
            assert forall|w: int, vv: int|
                !changed && 0 <= w < u + 1 && 0 <= vv < 24 && #[trigger] ids_linked(
                    w as usize,
                    vv as usize,
                ) implies orig[w] <= orig[vv] + 1 by {
                if w == u {
                    if orig[vv] < far_away() {
                        assert(best <= orig[vv] + 1);
                    } else {
                        assert(orig[w] <= far_away());
                    }
                }
            }
        }
        u = u + 1;
    }
    proof {
        if !changed {
            assert(fresh@ =~= orig);
        } else {
            let k = choose|k: int| 0 <= k < 24 && (#[trigger] fresh@[k]) < orig[k];
            lemma_sum_pointwise_lt(fresh@, orig, k);
        }
        assert(fresh@[target as int] == 0);
        assert forall|w: int|
            0 <= w < 24 && (#[trigger] fresh@[w]) == 0 implies w == target by {
            if fresh@[w] < orig[w] {
            } else {
                assert(orig[w] == 0);
            }
        }
        assert forall|w: int|
            0 <= w < 24 && 1 <= (#[trigger] fresh@[w]) && fresh@[w] < far_away()
            implies exists|v: int|
            0 <= v < 24 && ids_linked(w as usize, v as usize) && fresh@[v] < fresh@[w] by {
            if fresh@[w] < orig[w] {
                let v = choose|v: int|
                    0 <= v < 24 && ids_linked(w as usize, v as usize) && fresh@[w] == orig[v] + 1
                        && orig[v] < far_away();
                assert(fresh@[v] <= orig[v]);
                assert(fresh@[v] < fresh@[w]);
            } else {
                let v = choose|v: int|
                    0 <= v < 24 && ids_linked(w as usize, v as usize) && orig[v] < orig[w];
                assert(fresh@[v] <= orig[v]);
                assert(fresh@[v] < fresh@[w]);
            }
        }
    }
    *dist = fresh;
    changed
}

/// Computes, for every node identity, the least number of transitions
/// to reach `target`, by relaxing until no edge can improve any entry.
fn compute_dist(adj: &Vec<Vec<bool>>, target: usize) -> (dist: Vec<usize>)
    requires
        matrix_ok(adj@),
        target < 24,
    ensures
        dist_ok(dist@, target),
        dist_settled(dist@),
{
    let mut dist: Vec<usize> = Vec::new();
    let mut i: usize = 0;
    while i < 24
        invariant
            i <= 24,
            target < 24,
            dist@.len() == i,
            forall|w: int|
                0 <= w < i ==> (#[trigger] dist@[w]) == (if w == target {
                    0int
                } else {
                    far_away()
                }),
        decreases 24 - i,
    {
        if i == target {
            dist.push(0);
        } else {
            dist.push(100);
        }
        i = i + 1;
    }
    let mut settled = false;
    while !settled
        invariant
            matrix_ok(adj@),
            target < 24,
            dist_ok(dist@, target),
            settled ==> dist_settled(dist@),
        decreases sum_of(dist@) + (if settled {
            0int
        } else {
            1int
        }),
    {
        proof {
            lemma_sum_nonneg(dist@);
        }
        let changed = relax_pass(adj, &mut dist, target);
        if !changed {
            settled = true;
        }
        proof {
            lemma_sum_nonneg(dist@);
        }
    }
    dist
}

/// Walks from `source` toward the distance table's target, stepping to
/// a strictly closer neighbor each time. The result is a genuine walk
/// that spends at most one transition per distance unit.
fn descend_path(adj: &Vec<Vec<bool>>, dist: &Vec<usize>, source: usize, target: usize) -> (w: Vec<
    usize,
>)
    requires
        matrix_ok(adj@),
        target < 24,
        source < 24,
        dist_ok(dist@, target),
        dist@[source as int] < far_away(),
    ensures
        id_walk_ok(w@),
        w@[0] == source,
        w@[w@.len() - 1] == target,
        w@.len() <= dist@[source as int] + 1,
{
    let mut w: Vec<usize> = Vec::new();
    w.push(source);
    let mut cur = source;
    while dist[cur] > 0
        invariant
            matrix_ok(adj@),
            target < 24,
            source < 24,
            cur < 24,
            dist_ok(dist@, target),
            dist@[cur as int] < far_away(),
            id_walk_ok(w@),
            w@[0] == source,
            w@[w@.len() - 1] == cur,
            w@.len() + dist@[cur as int] <= dist@[source as int] + 1,
        decreases dist@[cur as int],
    {
        let mut next: usize = 24;
        let mut v: usize = 0;
        while v < 24
            invariant
                v <= 24,
                cur < 24,
                matrix_ok(adj@),
                dist_ok(dist@, target),
                next == 24 || (next < 24 && ids_linked(cur, next) && dist@[next as int]
                    < dist@[cur as int]),
                next == 24 ==> forall|k: int|
                    0 <= k < v ==> !(adj@[cur as int]@[k] && dist@[k] < dist@[cur as int]),
            decreases 24 - v,
        {
            if next == 24 && adj[cur][v] && dist[v] < dist[cur] {
                next = v;
            }
            v = v + 1;
        }
        proof {
            if next == 24 {
                let k = choose|k: int|
                    0 <= k < 24 && ids_linked(cur, k as usize) && dist@[k] < dist@[cur as int];
                assert(adj@[cur as int]@[k]);
                assert(false);
            }
        }
        let ghost old_w = w@;
        w.push(next);
        proof {
            assert forall|i: int| 0 <= i < w@.len() - 1 implies ids_linked(
                #[trigger] w@[i],
                w@[i + 1],
            ) by {
                if i < old_w.len() - 1 {
                    assert(ids_linked(old_w[i], old_w[i + 1]));
                    assert(w@[i] == old_w[i] && w@[i + 1] == old_w[i + 1]);
                } else {
                    assert(w@[i] == cur && w@[i + 1] == next);
                }
            }
        }
        cur = next;
    }
    proof {
        assert(dist@[cur as int] == 0);
        assert(cur == target);
    }
    w
}

} // verus!
