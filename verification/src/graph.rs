//! Kahn's algorithm: an order of the nodes of a graph in which every edge
//! points forward.

use vstd::prelude::*;

verus! {

/// How often `x` stands in `s`.
pub open spec fn count_of(s: Seq<usize>, x: usize) -> nat
    decreases s.len(),
{
    if s.len() == 0 {
        0
    } else {
        count_of(s.drop_last(), x) + if s.last() == x {
            1nat
        } else {
            0nat
        }
    }
}

proof fn count_of_take(s: Seq<usize>, x: usize, k: int)
    requires
        0 <= k <= s.len(),
    ensures
        count_of(s.take(k), x) <= count_of(s, x),
        count_of(s, x) <= s.len(),
        k < s.len() ==> count_of(s.take(k + 1), x) == count_of(s.take(k), x) + if s[k] == x {
            1nat
        } else {
            0nat
        },
    decreases s.len(),
{
    if k == s.len() {
        assert(s.take(k) =~= s);
        if s.len() > 0 {
            count_of_take(s.drop_last(), x, k - 1);
        }
    } else {
        assert(s.take(k + 1).drop_last() =~= s.take(k));
        count_of_take(s.drop_last(), x, k);
        assert(s.drop_last().take(k) =~= s.take(k));
    }
}

proof fn count_of_contains(s: Seq<usize>, x: usize)
    ensures
        count_of(s, x) > 0 <==> s.contains(x),
    decreases s.len(),
{
    if s.len() > 0 {
        count_of_contains(s.drop_last(), x);
        if s.contains(x) {
            let i = s.index_of(x);
            if i < s.len() - 1 {
                assert(s.drop_last()[i] == x);
            }
        }
        if s.drop_last().contains(x) {
            let i = s.drop_last().index_of(x);
            assert(s[i] == x);
        }
        if s.last() == x {
            assert(s[s.len() - 1] == x);
        }
    }
}

/// How many flags of `s` are down.
pub open spec fn count_down(s: Seq<bool>) -> nat
    decreases s.len(),
{
    if s.len() == 0 {
        0
    } else {
        count_down(s.drop_last()) + if s.last() {
            0nat
        } else {
            1nat
        }
    }
}

/// Raising a flag that is down leaves one less.
pub proof fn raise_counts(s: Seq<bool>, i: int)
    requires
        0 <= i < s.len(),
        !s[i],
    ensures
        count_down(s.update(i, true)) + 1 == count_down(s),
    decreases s.len(),
{
    let t = s.update(i, true);
    if i == s.len() - 1 {
        assert(t.drop_last() =~= s.drop_last());
    } else {
        assert(t.drop_last() =~= s.drop_last().update(i, true));
        raise_counts(s.drop_last(), i);
    }
}

/// An edge leads from `i` to `j`.
pub open spec fn has_edge(edges: Seq<Vec<usize>>, i: int, j: int) -> bool {
    0 <= i < edges.len() && edges[i]@.contains(j as usize)
}

/// The edges to `j` from those of the first `m` nodes that are not done.
spec fn pending(edges: Seq<Vec<usize>>, done: Seq<bool>, j: usize, m: nat) -> nat
    decreases m,
{
    if m == 0 {
        0
    } else {
        pending(edges, done, j, (m - 1) as nat) + if done[m - 1] {
            0nat
        } else {
            count_of(edges[m - 1]@, j)
        }
    }
}

proof fn pending_done(edges: Seq<Vec<usize>>, done: Seq<bool>, j: usize, m: nat, i: int)
    requires
        m <= edges.len(),
        edges.len() == done.len(),
        0 <= i < done.len(),
        !done[i],
    ensures
        pending(edges, done.update(i, true), j, m) == pending(edges, done, j, m) - if i < m {
            count_of(edges[i]@, j) as int
        } else {
            0int
        },
        i < m ==> pending(edges, done, j, m) >= count_of(edges[i]@, j),
    decreases m,
{
    if m > 0 {
        pending_done(edges, done, j, (m - 1) as nat, i);
    }
}

proof fn pending_zero(edges: Seq<Vec<usize>>, done: Seq<bool>, j: usize, m: nat, i: int)
    requires
        m <= edges.len(),
        pending(edges, done, j, m) == 0,
        0 <= i < m,
        !done[i],
    ensures
        count_of(edges[i]@, j) == 0,
    decreases m,
{
    if i < m - 1 {
        pending_zero(edges, done, j, (m - 1) as nat, i);
    }
}

proof fn pending_some(edges: Seq<Vec<usize>>, done: Seq<bool>, j: usize, m: nat) -> (i: int)
    requires
        m <= edges.len(),
        pending(edges, done, j, m) > 0,
    ensures
        0 <= i < m,
        !done[i],
        count_of(edges[i]@, j) > 0,
    decreases m,
{
    if !done[m - 1] && count_of(edges[m - 1]@, j) > 0 {
        m - 1
    } else {
        pending_some(edges, done, j, (m - 1) as nat)
    }
}

/// How many edges lead to each node.
fn in_degrees(edges: &Vec<Vec<usize>>) -> (r: Vec<u128>)
    requires
        forall|i: int, k: int|
            0 <= i < edges@.len() && 0 <= k < edges@[i]@.len() ==> (#[trigger] edges@[i]@[k])
                < edges@.len(),
    ensures
        r@.len() == edges@.len(),
        forall|j: int|
            0 <= j < r@.len() ==> #[trigger] r@[j] == pending(
                edges@,
                Seq::new(edges@.len(), |x: int| false),
                j as usize,
                edges@.len(),
            ),
{
    let n: usize = edges.len();
    let ghost none = Seq::new(edges@.len(), |x: int| false);
    let mut degrees: Vec<u128> = Vec::new();
    let mut i: usize = 0;
    while i < n
        invariant
            i <= n,
            degrees@.len() == i,
            forall|j: int| 0 <= j < i ==> #[trigger] degrees@[j] == 0,
        decreases n - i,
    {
        degrees.push(0);
        i += 1;
    }
    i = 0;
    while i < n
        invariant
            i <= n == edges@.len() == degrees@.len(),
            none == Seq::new(edges@.len(), |x: int| false),
            forall|x: int, k: int|
                0 <= x < edges@.len() && 0 <= k < edges@[x]@.len() ==> (#[trigger] edges@[x]@[k])
                    < edges@.len(),
            forall|j: int|
                0 <= j < n ==> #[trigger] degrees@[j] == pending(
                    edges@,
                    none,
                    j as usize,
                    i as nat,
                ),
            forall|j: int| 0 <= j < n ==> #[trigger] degrees@[j] <= i * 0xffff_ffff_ffff_ffff,
        decreases n - i,
    {
        let list = &edges[i];
        let len: usize = list.len();
        let mut k: usize = 0;
        while k < len
            invariant
                i < n == edges@.len() == degrees@.len(),
                *list == edges@[i as int],
                k <= len == list@.len(),
                none == Seq::new(edges@.len(), |x: int| false),
                forall|x: int, y: int|
                    0 <= x < edges@.len() && 0 <= y < edges@[x]@.len() ==> (
                    #[trigger] edges@[x]@[y]) < edges@.len(),
                forall|j: int|
                    0 <= j < n ==> #[trigger] degrees@[j] == pending(
                        edges@,
                        none,
                        j as usize,
                        i as nat,
                    ) + count_of(list@.take(k as int), j as usize),
                forall|j: int|
                    0 <= j < n ==> #[trigger] degrees@[j] <= i * 0xffff_ffff_ffff_ffff + k,
            decreases len - k,
        {
            let t: usize = list[k];
            assert(edges@[i as int]@[k as int] < edges@.len());
            proof {
                assert(i * 0xffff_ffff_ffff_ffff + k + 1 <= u128::MAX) by (nonlinear_arith)
                    requires
                        0 <= i < 0xffff_ffff_ffff_ffff,
                        0 <= k < 0xffff_ffff_ffff_ffff,
                ;
                assert forall|j: int| 0 <= j < n implies #[trigger] count_of(
                    list@.take(k as int + 1),
                    j as usize,
                ) == count_of(list@.take(k as int), j as usize) + if list@[k as int] == j as usize {
                    1nat
                } else {
                    0nat
                } by {
                    count_of_take(list@, j as usize, k as int);
                }
            }
            degrees[t] = degrees[t] + 1;
            k += 1;
        }
        proof {
            assert(list@.take(k as int) =~= list@);
            assert((i + 1) * 0xffff_ffff_ffff_ffff == i * 0xffff_ffff_ffff_ffff
                + 0xffff_ffff_ffff_ffff) by (nonlinear_arith);
        }
        i += 1;
    }
    degrees
}

/// Nodes in an order in which every edge points forward, as far as there is
/// one: what is left out has an edge to it from something else left out.
pub fn kahn(edges: &Vec<Vec<usize>>) -> (r: Vec<usize>)
    requires
        forall|i: int, k: int|
            0 <= i < edges@.len() && 0 <= k < edges@[i]@.len() ==> (#[trigger] edges@[i]@[k])
                < edges@.len(),
    ensures
        r@.no_duplicates(),
        forall|y: int| 0 <= y < r@.len() ==> (#[trigger] r@[y]) < edges@.len(),
        forall|y: int, i: int|
            0 <= y < r@.len() && #[trigger] has_edge(edges@, i, r@[y] as int) ==> exists|x: int|
                0 <= x < y && r@[x] == i,
        forall|j: usize|
            j < edges@.len() && !(#[trigger] r@.contains(j)) ==> exists|i: int|
                #[trigger] has_edge(edges@, i, j as int) && !r@.contains(i as usize),
{
    let n: usize = edges.len();
    let mut degrees = in_degrees(edges);
    let ghost mut done: Seq<bool> = Seq::new(edges@.len(), |x: int| false);
    let mut ready: Vec<usize> = Vec::new();
    let mut i: usize = 0;
    while i < n
        invariant
            i <= n == degrees@.len(),
            ready@.no_duplicates(),
            forall|y: int| 0 <= y < ready@.len() ==> (#[trigger] ready@[y]) < i,
            forall|j: usize| j < i ==> (#[trigger] ready@.contains(j) <==> degrees@[j as int] == 0),
        decreases n - i,
    {
        let ghost prior = ready@;
        if degrees[i] == 0 {
            ready.push(i);
        }
        i += 1;
        proof {
            assert forall|j: usize| j < i implies (#[trigger] ready@.contains(j)
                <==> degrees@[j as int] == 0) by {
                if j < i - 1 {
                    assert(prior.contains(j) <==> degrees@[j as int] == 0);
                    if prior.contains(j) {
                        assert(ready@[prior.index_of(j)] == j);
                    }
                    if ready@.contains(j) {
                        let w = ready@.index_of(j);
                        assert(w < prior.len());
                        assert(prior[w] == j);
                    }
                } else if degrees@[j as int] == 0 {
                    assert(ready@[ready@.len() - 1] == j);
                } else if ready@.contains(j) {
                    assert(prior[ready@.index_of(j)] == j);
                }
            }
        }
    }
    let mut order: Vec<usize> = Vec::new();
    while ready.len() > 0
        invariant
            n == edges@.len() == degrees@.len() == done.len(),
            forall|x: int, k: int|
                0 <= x < edges@.len() && 0 <= k < edges@[x]@.len() ==> (#[trigger] edges@[x]@[k])
                    < edges@.len(),
            forall|j: int|
                0 <= j < n ==> #[trigger] degrees@[j] == pending(
                    edges@,
                    done,
                    j as usize,
                    n as nat,
                ),
            forall|j: int| 0 <= j < n && #[trigger] done[j] ==> degrees@[j] == 0,
            ready@.no_duplicates(),
            forall|y: int| 0 <= y < ready@.len() ==> (#[trigger] ready@[y]) < n,
            forall|j: usize|
                j < n ==> (#[trigger] ready@.contains(j) <==> !done[j as int] && degrees@[j as int]
                    == 0),
            order@.no_duplicates(),
            forall|y: int| 0 <= y < order@.len() ==> (#[trigger] order@[y]) < n,
            forall|j: usize| j < n ==> (#[trigger] order@.contains(j) <==> done[j as int]),
            forall|y: int, p: int|
                0 <= y < order@.len() && #[trigger] has_edge(edges@, p, order@[y] as int)
                    ==> exists|x: int| 0 <= x < y && order@[x] == p,
        decreases count_down(done),
    {
        let ghost waiting = ready@;
        let node: usize = ready.pop().unwrap();
        let ghost was = done;
        let ghost so_far = order@;
        proof {
            assert(waiting[waiting.len() - 1] == node);
            assert(waiting.contains(node));
            raise_counts(done, node as int);
            done = done.update(node as int, true);
            assert forall|j: int| 0 <= j < n implies #[trigger] pending(
                edges@,
                done,
                j as usize,
                n as nat,
            ) == degrees@[j] - count_of(edges@[node as int]@, j as usize) && (done[j]
                ==> count_of(edges@[node as int]@, j as usize) == 0) by {
                pending_done(edges@, was, j as usize, n as nat, node as int);
            }
        }
        order.push(node);
        proof {
            assert forall|j: usize| j < n implies (#[trigger] order@.contains(j)
                <==> done[j as int]) by {
                if so_far.contains(j) {
                    assert(order@[so_far.index_of(j)] == j);
                }
                if j == node {
                    assert(order@[so_far.len() as int] == j);
                }
                if order@.contains(j) && j != node {
                    assert(so_far[order@.index_of(j)] == j);
                }
            }
            assert(!so_far.contains(node));
            assert forall|y: int, p: int|
                0 <= y < order@.len() && #[trigger] has_edge(
                    edges@,
                    p,
                    order@[y] as int,
                ) implies exists|x: int| 0 <= x < y && order@[x] == p by {
                if y < so_far.len() {
                    let x = choose|x: int| 0 <= x < y && so_far[x] == p;
                    assert(order@[x] == p);
                } else {
                    count_of_contains(edges@[p]@, node);
                    if !was[p] {
                        pending_zero(edges@, was, node, n as nat, p);
                    }
                    assert(so_far.contains(p as usize));
                    let x = so_far.index_of(p as usize);
                    assert(order@[x] == p);
                }
            }
            assert forall|j: usize| j < n implies (#[trigger] ready@.contains(j)
                <==> !done[j as int] && degrees@[j as int] == 0) by {
                if ready@.contains(j) {
                    let w = ready@.index_of(j);
                    assert(waiting[w] == j);
                    assert(waiting.contains(j));
                }
                if waiting.contains(j) && j != node {
                    let w = waiting.index_of(j);
                    assert(ready@[w] == j);
                }
            }
        }
        let list = &edges[node];
        let len: usize = list.len();
        let mut k: usize = 0;
        assert(list@.take(0) =~= Seq::<usize>::empty());
        while k < len
            invariant
                n == edges@.len() == degrees@.len() == done.len(),
                node < n,
                *list == edges@[node as int],
                k <= len == list@.len(),
                forall|x: int, y: int|
                    0 <= x < edges@.len() && 0 <= y < edges@[x]@.len() ==> (
                    #[trigger] edges@[x]@[y]) < edges@.len(),
                forall|j: int|
                    0 <= j < n ==> #[trigger] degrees@[j] == pending(
                        edges@,
                        done,
                        j as usize,
                        n as nat,
                    ) + count_of(list@, j as usize) - count_of(list@.take(k as int), j as usize),
                forall|j: int| 0 <= j < n && #[trigger] done[j] ==> degrees@[j] == 0,
                ready@.no_duplicates(),
                forall|y: int| 0 <= y < ready@.len() ==> (#[trigger] ready@[y]) < n,
                forall|j: usize|
                    j < n ==> (#[trigger] ready@.contains(j) <==> !done[j as int]
                        && degrees@[j as int] == 0),
            decreases len - k,
        {
            let t: usize = list[k];
            let ghost earlier = ready@;
            let ghost d = degrees@;
            assert(edges@[node as int]@[k as int] < edges@.len());
            proof {
                assert forall|j: int| 0 <= j < n implies #[trigger] count_of(
                    list@.take(k as int + 1),
                    j as usize,
                ) == count_of(list@.take(k as int), j as usize) + if list@[k as int] == j as usize {
                    1nat
                } else {
                    0nat
                } by {
                    count_of_take(list@, j as usize, k as int);
                }
                count_of_take(list@, t, k as int + 1);
                assert(degrees@[t as int] >= 1);
                assert(earlier.contains(t) <==> !done[t as int] && d[t as int] == 0);
            }
            degrees[t] = degrees[t] - 1;
            if degrees[t] == 0 {
                ready.push(t);
            }
            k += 1;
            proof {
                assert forall|j: usize| j < n implies (#[trigger] ready@.contains(j)
                    <==> !done[j as int] && degrees@[j as int] == 0) by {
                    assert(earlier.contains(j) <==> !done[j as int] && d[j as int] == 0);
                    if earlier.contains(j) {
                        assert(ready@[earlier.index_of(j)] == j);
                    }
                    if j == t && degrees@[t as int] == 0 {
                        assert(ready@[earlier.len() as int] == j);
                    }
                    if ready@.contains(j) {
                        let w = ready@.index_of(j);
                        if w < earlier.len() {
                            assert(earlier[w] == j);
                        }
                    }
                }
            }
        }
        assert(list@.take(k as int) =~= list@);
    }
    proof {
        assert forall|j: usize| j < edges@.len() && !(#[trigger] order@.contains(j)) implies exists|
            i: int,
        |
            #[trigger] has_edge(edges@, i, j as int) && !order@.contains(i as usize) by {
            assert(!ready@.contains(j));
            let i = pending_some(edges@, done, j, n as nat);
            count_of_contains(edges@[i]@, j);
            assert(has_edge(edges@, i, j as int));
            assert(!order@.contains(i as usize));
        }
    }
    order
}

/// There is an edge if, and only if, it is listed.
pub proof fn edges_are_those_listed(edges: Seq<Vec<usize>>, i: int, k: int, j: usize)
    requires
        0 <= i < edges.len(),
    ensures
        0 <= k < edges[i]@.len() ==> has_edge(edges, i, edges[i]@[k] as int),
        has_edge(edges, i, j as int) ==> exists|m: int|
            0 <= m < edges[i]@.len() && #[trigger] edges[i]@[m] == j,
{
}

} // verus!
