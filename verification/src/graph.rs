use vstd::prelude::*;

verus! {

/// One undirected step along some edge of the list.
pub open spec fn edge_connects(es: Seq<(usize, usize)>, k: int, a: usize, b: usize) -> bool {
    0 <= k < es.len() && ((es[k].0 == a && es[k].1 == b) || (es[k].0 == b && es[k].1 == a))
}

/// Step `j` of a walk is covered by some edge.
pub open spec fn walk_step(es: Seq<(usize, usize)>, vs: Seq<usize>, j: int) -> bool {
    exists|k: int| #[trigger] edge_connects(es, k, vs[j], vs[j + 1])
}

/// A walk through the graph: consecutive entries joined by some edge.
pub open spec fn is_walk(es: Seq<(usize, usize)>, vs: Seq<usize>) -> bool {
    vs.len() >= 1 && forall|j: int| 0 <= j < vs.len() - 1 ==> #[trigger] walk_step(es, vs, j)
}

/// Two vertices joined by a walk.
pub open spec fn connected(es: Seq<(usize, usize)>, a: usize, b: usize) -> bool {
    exists|vs: Seq<usize>| #[trigger] is_walk(es, vs) && vs[0] == a && vs[vs.len() - 1] == b
}

/// Walks concatenate.
proof fn lemma_connected_trans(es: Seq<(usize, usize)>, a: usize, b: usize, c: usize)
    requires
        connected(es, a, b),
        connected(es, b, c),
    ensures
        connected(es, a, c),
{
    let vs1 = choose|vs: Seq<usize>| #[trigger] is_walk(es, vs) && vs[0] == a && vs[vs.len() - 1]
        == b;
    let vs2 = choose|vs: Seq<usize>| #[trigger] is_walk(es, vs) && vs[0] == b && vs[vs.len() - 1]
        == c;
    let joined = vs1 + vs2.drop_first();
    assert forall|j: int| 0 <= j < joined.len() - 1 implies #[trigger] walk_step(
        es,
        joined,
        j,
    ) by {
        if j < vs1.len() - 1 {
            assert(walk_step(es, vs1, j));
            let k = choose|k: int| #[trigger] edge_connects(es, k, vs1[j], vs1[j + 1]);
            assert(joined[j] == vs1[j] && joined[j + 1] == vs1[j + 1]);
            assert(edge_connects(es, k, joined[j], joined[j + 1]));
        } else {
            let j2 = j - (vs1.len() - 1);
            assert(0 <= j2 < vs2.len() - 1);
            assert(walk_step(es, vs2, j2));
            let k = choose|k: int| #[trigger] edge_connects(es, k, vs2[j2], vs2[j2 + 1]);
            if j2 == 0 {
                assert(joined[j] == vs1[vs1.len() - 1]);
                assert(joined[j] == vs2[0]);
            } else {
                assert(joined[j] == vs2.drop_first()[j2 - 1]);
                assert(joined[j] == vs2[j2]);
            }
            assert(joined[j + 1] == vs2.drop_first()[j2]);
            assert(joined[j + 1] == vs2[j2 + 1]);
            assert(edge_connects(es, k, joined[j], joined[j + 1]));
        }
    }
    assert(is_walk(es, joined));
    assert(joined[0] == a);
    assert(joined[joined.len() - 1] == vs2[vs2.len() - 1]);
}

/// A single vertex is connected to itself.
proof fn lemma_connected_refl(es: Seq<(usize, usize)>, a: usize)
    ensures
        connected(es, a, a),
{
    let vs = seq![a];
    assert(is_walk(es, vs));
}

/// One edge connects its endpoints.
proof fn lemma_connected_edge(es: Seq<(usize, usize)>, k: int)
    requires
        0 <= k < es.len(),
    ensures
        connected(es, es[k].0, es[k].1),
        connected(es, es[k].1, es[k].0),
{
    let vs1 = seq![es[k].0, es[k].1];
    assert forall|j: int| 0 <= j < vs1.len() - 1 implies #[trigger] walk_step(es, vs1, j) by {
        assert(edge_connects(es, k, vs1[j], vs1[j + 1]));
    }
    assert(is_walk(es, vs1));
    let vs2 = seq![es[k].1, es[k].0];
    assert forall|j: int| 0 <= j < vs2.len() - 1 implies #[trigger] walk_step(es, vs2, j) by {
        assert(edge_connects(es, k, vs2[j], vs2[j + 1]));
    }
    assert(is_walk(es, vs2));
}

/// Connectivity survives appending more edges.
proof fn lemma_connected_extend(
    es: Seq<(usize, usize)>,
    es2: Seq<(usize, usize)>,
    a: usize,
    b: usize,
)
    requires
        connected(es, a, b),
        es.is_prefix_of(es2),
    ensures
        connected(es2, a, b),
{
    let vs = choose|vs: Seq<usize>| #[trigger] is_walk(es, vs) && vs[0] == a && vs[vs.len() - 1]
        == b;
    assert forall|j: int| 0 <= j < vs.len() - 1 implies #[trigger] walk_step(es2, vs, j) by {
        assert(walk_step(es, vs, j));
        let k = choose|k: int| #[trigger] edge_connects(es, k, vs[j], vs[j + 1]);
        assert(es2[k] == es[k]);
        assert(edge_connects(es2, k, vs[j], vs[j + 1]));
    }
    assert(is_walk(es2, vs));
}

/// Dropping the first entry of a walk leaves a walk.
proof fn lemma_subwalk(es: Seq<(usize, usize)>, vs: Seq<usize>)
    requires
        is_walk(es, vs),
        vs.len() >= 2,
    ensures
        is_walk(es, vs.drop_first()),
{
    let tail = vs.drop_first();
    assert forall|j: int| 0 <= j < tail.len() - 1 implies #[trigger] walk_step(es, tail, j) by {
        assert(walk_step(es, vs, j + 1));
        let k = choose|k: int| #[trigger] edge_connects(es, k, vs[j + 1], vs[j + 2]);
        assert(tail[j] == vs[j + 1] && tail[j + 1] == vs[j + 2]);
        assert(edge_connects(es, k, tail[j], tail[j + 1]));
    }
}

/// When every edge joins two vertices with the same label, the two
/// ends of any walk share a label.
proof fn lemma_walk_labels(es: Seq<(usize, usize)>, comp: Seq<usize>, vs: Seq<usize>)
    requires
        forall|k: int|
            0 <= k < es.len() ==> (#[trigger] es[k]).0 < comp.len() && es[k].1 < comp.len()
                && comp[es[k].0 as int] == comp[es[k].1 as int],
        is_walk(es, vs),
    ensures
        vs.len() == 1 || ((vs[0] as int) < comp.len() && (vs[vs.len() - 1] as int) < comp.len()
            && comp[vs[0] as int] == comp[vs[vs.len() - 1] as int]),
    decreases vs.len(),
{
    if vs.len() >= 2 {
        assert(walk_step(es, vs, 0));
        let k = choose|k: int| #[trigger] edge_connects(es, k, vs[0], vs[1]);
        lemma_subwalk(es, vs);
        lemma_walk_labels(es, comp, vs.drop_first());
        assert(vs.drop_first()[0] == vs[1]);
        assert(vs.drop_first()[vs.len() - 2] == vs[vs.len() - 1]);
    }
}

/// Detect whether the undirected graph given by the edge list contains
/// a cycle, by joining components edge by edge over the vertex range
/// `0..n`: an edge whose endpoints already share a component closes a
/// cycle.
///
/// The list must describe a simple graph: each edge with its smaller
/// vertex first and no edge listed twice, so that a mirrored or
/// repeated pair is not mistaken for a cycle.  On such lists the
/// answer is exact: a cycle exists precisely when some edge's two
/// endpoints are already joined by the edges listed before it.
pub fn has_cycle(edges: &Vec<(usize, usize)>, n: usize) -> (r: bool)
    requires
        forall|k: int|
            0 <= k < edges@.len() ==> (#[trigger] edges@[k]).0 < edges@[k].1 && edges@[k].1 < n,
        forall|k1: int, k2: int|
            0 <= k1 < k2 < edges@.len() ==> #[trigger] edges@[k1] != #[trigger] edges@[k2],
    ensures
        r == exists|i: int|
            0 <= i < edges@.len() && #[trigger] connected(
                edges@.take(i),
                edges@[i].0,
                edges@[i].1,
            ),
{
    let mut comp: Vec<usize> = Vec::new();
    let mut v: usize = 0;
    while v < n
        invariant
            v <= n,
            comp@.len() == v,
            forall|x: int| 0 <= x < v ==> #[trigger] comp@[x] == x,
        decreases n - v,
    {
        comp.push(v);
        v += 1;
    }
    proof {
        assert forall|x: usize, y: usize|
            x < n && y < n && comp@[x as int] == comp@[y as int] implies #[trigger] connected(
            edges@.take(0),
            x,
            y,
        ) by {
            assert(x == y);
            lemma_connected_refl(edges@.take(0), x);
        }
    }
    let mut i: usize = 0;
    while i < edges.len()
        invariant
            i <= edges@.len(),
            comp@.len() == n,
            forall|k: int|
                0 <= k < edges@.len() ==> (#[trigger] edges@[k]).0 < n && edges@[k].1 < n,
            forall|x: int| 0 <= x < n ==> (#[trigger] comp@[x]) < n,
            forall|x: usize, y: usize|
                x < n && y < n && comp@[x as int] == comp@[y as int] ==> #[trigger] connected(
                    edges@.take(i as int),
                    x,
                    y,
                ),
            forall|j: int|
                0 <= j < i ==> comp@[(#[trigger] edges@[j]).0 as int] == comp@[edges@[j].1 as int],
            forall|j: int|
                0 <= j < i ==> !#[trigger] connected(edges@.take(j), edges@[j].0, edges@[j].1),
        decreases edges@.len() - i,
    {
        let (a, b) = edges[i];
        let ca = comp[a];
        let cb = comp[b];
        if ca == cb {
            proof {
                assert(connected(edges@.take(i as int), a, b));
                assert(edges@[i as int].0 == a && edges@[i as int].1 == b);
                assert(exists|iw: int|
                    0 <= iw < edges@.len() && #[trigger] connected(
                        edges@.take(iw),
                        edges@[iw].0,
                        edges@[iw].1,
                    ));
            }
            return true;
        }
        // merge the two components
        let ghost pre = comp@;
        let mut x: usize = 0;
        while x < n
            invariant
                x <= n,
                comp@.len() == n,
                a < n,
                b < n,
                ca == pre[a as int],
                cb == pre[b as int],
                ca != cb,
                pre.len() == n,
                forall|y: int| 0 <= y < n ==> (#[trigger] pre[y]) < n,
                forall|y: int|
                    0 <= y < x ==> #[trigger] comp@[y] == if pre[y] == ca {
                        cb
                    } else {
                        pre[y]
                    },
                forall|y: int| x <= y < n ==> #[trigger] comp@[y] == pre[y],
            decreases n - x,
        {
            if comp[x] == ca {
                comp.set(x, cb);
            }
            x += 1;
        }
        proof {
            // the labels at the top of this step refute a cycle ending
            // at this edge
            if connected(edges@.take(i as int), a, b) {
                let vs = choose|vs: Seq<usize>|
                    #[trigger] is_walk(edges@.take(i as int), vs) && vs[0] == a && vs[vs.len()
                        - 1] == b;
                assert forall|k: int|
                    0 <= k < edges@.take(i as int).len() implies (#[trigger] edges@.take(
                    i as int,
                )[k]).0 < pre.len() && edges@.take(i as int)[k].1 < pre.len() && pre[edges@.take(
                    i as int,
                )[k].0 as int] == pre[edges@.take(i as int)[k].1 as int] by {
                    assert(edges@.take(i as int)[k] == edges@[k]);
                }
                lemma_walk_labels(edges@.take(i as int), pre, vs);
                assert(false);
            }
        }
        proof {
            let esi = edges@.take(i as int);
            let esi1 = edges@.take(i as int + 1);
            assert(esi.is_prefix_of(esi1));
            assert(esi1[i as int] == edges@[i as int]);
            lemma_connected_edge(esi1, i as int);
            assert(connected(esi1, a, b));
            assert(connected(esi1, b, a));
            assert forall|xx: usize, yy: usize|
                xx < n && yy < n && comp@[xx as int] == comp@[yy as int]
                implies #[trigger] connected(esi1, xx, yy) by {
                let cx = pre[xx as int];
                let cy = pre[yy as int];
                if cx == cy {
                    assert(connected(esi, xx, yy));
                    lemma_connected_extend(esi, esi1, xx, yy);
                } else {
                    // one side was relabelled: both are joined through
                    // the new edge
                    assert((cx == ca && cy == cb) || (cx == cb && cy == ca));
                    if cx == ca && cy == cb {
                        assert(connected(esi, xx, a));
                        assert(connected(esi, b, yy));
                        lemma_connected_extend(esi, esi1, xx, a);
                        lemma_connected_extend(esi, esi1, b, yy);
                        lemma_connected_trans(esi1, xx, a, b);
                        lemma_connected_trans(esi1, xx, b, yy);
                    } else {
                        assert(connected(esi, xx, b));
                        assert(connected(esi, a, yy));
                        lemma_connected_extend(esi, esi1, xx, b);
                        lemma_connected_extend(esi, esi1, a, yy);
                        lemma_connected_trans(esi1, b, a, yy);
                        lemma_connected_trans(esi1, xx, b, yy);
                    }
                }
            }
        }
        i += 1;
    }
    proof {
        if exists|iw: int|
            0 <= iw < edges@.len() && #[trigger] connected(
                edges@.take(iw),
                edges@[iw].0,
                edges@[iw].1,
            ) {
            let iw = choose|iw: int|
                0 <= iw < edges@.len() && #[trigger] connected(
                    edges@.take(iw),
                    edges@[iw].0,
                    edges@[iw].1,
                );
            assert(!connected(edges@.take(iw), edges@[iw].0, edges@[iw].1));
        }
    }
    false
}

} // verus!
