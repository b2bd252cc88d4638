//! Breadth-first shortest-path search over an index-based adjacency structure.
//!
//! The word graph stores its edges as lists of word indices; this module
//! proves that breadth-first search over such a structure returns a path of
//! minimum possible length whenever any path exists, and returns nothing
//! exactly when no path exists.

use vstd::prelude::*;

verus! {

/// There is an edge from `a` to `b` in the adjacency structure.
pub open spec fn edge(adjs: Seq<Seq<usize>>, a: usize, b: usize) -> bool {
    a < adjs.len() && adjs[a as int].contains(b)
}

/// Every listed neighbor is a valid index.
pub open spec fn adj_wf(adjs: Seq<Seq<usize>>) -> bool {
    forall|i: int, k: int|
        0 <= i < adjs.len() && 0 <= k < adjs[i].len() ==> (#[trigger] adjs[i][k]) < adjs.len()
}

/// A non-empty sequence of indices in which each consecutive pair is an edge.
pub open spec fn is_path(adjs: Seq<Seq<usize>>, p: Seq<usize>) -> bool {
    p.len() >= 1 && forall|i: int| 0 <= i < p.len() - 1 ==> edge(adjs, #[trigger] p[i], p[i + 1])
}

/// A path that starts at `s` and ends at `t`.
pub open spec fn is_path_between(adjs: Seq<Seq<usize>>, p: Seq<usize>, s: usize, t: usize) -> bool {
    is_path(adjs, p) && p[0] == s && p[p.len() - 1] == t
}

/// The number of `true` entries in a sequence of flags.
pub open spec fn count_true(s: Seq<bool>) -> int
    decreases s.len(),
{
    if s.len() == 0 {
        0
    } else {
        count_true(s.drop_last()) + if s.last() {
            1int
        } else {
            0int
        }
    }
}

proof fn lemma_count_true_bounds(s: Seq<bool>)
    ensures
        0 <= count_true(s) <= s.len(),
    decreases s.len(),
{
    if s.len() > 0 {
        lemma_count_true_bounds(s.drop_last());
    }
}

proof fn lemma_count_true_update(s: Seq<bool>, i: int)
    requires
        0 <= i < s.len(),
        !s[i],
    ensures
        count_true(s.update(i, true)) == count_true(s) + 1,
    decreases s.len(),
{
    let t = s.update(i, true);
    if i == s.len() - 1 {
        assert(t.drop_last() =~= s.drop_last());
    } else {
        assert(t.drop_last() =~= s.drop_last().update(i, true));
        lemma_count_true_update(s.drop_last(), i);
    }
}

/// Walking any path that starts at a visited node through a neighbor-closed
/// visited set, every node along the way — the endpoint included — is visited.
proof fn lemma_path_stays_in_closed_set(
    adjs: Seq<Seq<usize>>,
    visited: Seq<bool>,
    q: Seq<usize>,
    t: usize,
)
    requires
        visited.len() == adjs.len(),
        is_path(adjs, q),
        q[0] < adjs.len(),
        visited[q[0] as int],
        forall|x: int, j: int|
            0 <= x < adjs.len() && visited[x] && 0 <= j < adjs[x].len() ==> visited[#[trigger] adjs[x][j] as int],
        q[q.len() - 1] == t,
        t < adjs.len(),
    ensures
        visited[t as int],
    decreases q.len(),
{
    if q.len() > 1 {
        let q2 = q.drop_last();
        let z = q[q.len() - 2];
        assert(edge(adjs, z, t));
        assert(is_path(adjs, q2)) by {
            assert(forall|i: int|
                0 <= i < q2.len() - 1 ==> edge(adjs, #[trigger] q2[i], q2[i + 1]) && q2[i] == q[i]);
        }
        lemma_path_stays_in_closed_set(adjs, visited, q2, z);
        let j = choose|j: int| 0 <= j < adjs[z as int].len() && adjs[z as int][j] == t;
        assert(visited[adjs[z as int][j] as int]);
    }
}

/// Every path from the start to a visited node is at least as long as the
/// distance breadth-first search recorded for that node. `proc` is the set
/// of fully processed nodes; `dmin` is a floor on the distance of every
/// visited node outside `proc`, and `dmin + 1` a cap on every recorded
/// distance.
proof fn lemma_recorded_distance_is_minimal(
    adjs: Seq<Seq<usize>>,
    visited: Seq<bool>,
    dist: Map<int, nat>,
    proc: Set<int>,
    dmin: nat,
    start: usize,
    q: Seq<usize>,
    t: usize,
)
    requires
        visited.len() == adjs.len(),
        start < adjs.len(),
        visited[start as int],
        dist[start as int] == 0,
        forall|x: int| 0 <= x < adjs.len() && visited[x] ==> dist.dom().contains(x),
        // processed nodes are visited and their neighbors are visited with bounded distance
        forall|x: int| #[trigger] proc.contains(x) ==> 0 <= x < adjs.len() && visited[x],
        forall|x: int, j: int|
            proc.contains(x) && 0 <= j < adjs[x].len() ==> visited[#[trigger] adjs[x][j] as int]
                && dist[adjs[x][j] as int] <= dist[x] + 1,
        // visited nodes outside proc are at distance at least dmin
        forall|x: int|
            0 <= x < adjs.len() && visited[x] && !proc.contains(x) ==> dist[x] >= dmin,
        // every recorded distance is at most dmin + 1
        forall|x: int| 0 <= x < adjs.len() && visited[x] ==> dist[x] <= dmin + 1,
        is_path(adjs, q),
        q[0] == start,
        q[q.len() - 1] == t,
        t < adjs.len(),
    ensures
        visited[t as int] ==> q.len() - 1 >= dist[t as int],
        !visited[t as int] ==> q.len() - 1 >= dmin + 1,
    decreases q.len(),
{
    if q.len() == 1 {
        assert(t == start);
    } else {
        let q2 = q.drop_last();
        let z = q[q.len() - 2];
        assert(edge(adjs, z, t));
        assert(z < adjs.len());
        assert(is_path(adjs, q2)) by {
            assert(forall|i: int|
                0 <= i < q2.len() - 1 ==> edge(adjs, #[trigger] q2[i], q2[i + 1]) && q2[i] == q[i]);
        }
        assert(q2[q2.len() - 1] == z);
        lemma_recorded_distance_is_minimal(adjs, visited, dist, proc, dmin, start, q2, z);
        let k = q.len() - 1;
        if visited[t as int] {
            if proc.contains(z as int) {
                let j = choose|j: int|
                    0 <= j < adjs[z as int].len() && adjs[z as int][j] == t;
                assert(dist[t as int] <= dist[z as int] + 1);
            } else if visited[z as int] {
                assert(dist[z as int] >= dmin);
                assert(dist[t as int] <= dmin + 1);
            } else {
                assert(k - 1 >= dmin + 1);
                assert(dist[t as int] <= dmin + 1);
            }
        } else {
            if proc.contains(z as int) {
                let j = choose|j: int|
                    0 <= j < adjs[z as int].len() && adjs[z as int][j] == t;
                assert(visited[adjs[z as int][j] as int]);
            } else if visited[z as int] {
                assert(dist[z as int] >= dmin);
            } else {
                assert(k - 1 >= dmin + 1);
            }
        }
    }
}

/// Rebuilds the path found by the search by following parent pointers from
/// `end` back to `start`, then reversing.
fn reconstruct_path(
    parent: &Vec<usize>,
    start: usize,
    end: usize,
    Ghost(adjs): Ghost<Seq<Seq<usize>>>,
    Ghost(visited): Ghost<Seq<bool>>,
    Ghost(dist): Ghost<Map<int, nat>>,
) -> (r: Vec<usize>)
    requires
        parent@.len() == adjs.len(),
        visited.len() == adjs.len(),
        start < adjs.len(),
        end < adjs.len(),
        visited[start as int],
        visited[end as int],
        forall|x: int| 0 <= x < adjs.len() && visited[x] ==> dist.dom().contains(x),
        dist[start as int] == 0,
        forall|x: int|
            0 <= x < adjs.len() && visited[x] && x != start ==> (#[trigger] parent@[x]) < adjs.len()
                && visited[parent@[x] as int] && edge(adjs, parent@[x], x as usize) && dist[parent@[x] as int]
                + 1 == dist[x],
    ensures
        is_path_between(adjs, r@, start, end),
        r@.len() == dist[end as int] + 1,
{
    let mut rev: Vec<usize> = Vec::new();
    rev.push(end);
    let mut current = end;
    while current != start
        invariant
            parent@.len() == adjs.len(),
            visited.len() == adjs.len(),
            start < adjs.len(),
            end < adjs.len(),
            visited[start as int],
            current < adjs.len(),
            visited[current as int],
            forall|x: int| 0 <= x < adjs.len() && visited[x] ==> dist.dom().contains(x),
            dist[start as int] == 0,
            forall|x: int|
                0 <= x < adjs.len() && visited[x] && x != start ==> (#[trigger] parent@[x])
                    < adjs.len() && visited[parent@[x] as int] && edge(adjs, parent@[x], x as usize)
                    && dist[parent@[x] as int] + 1 == dist[x],
            rev@.len() >= 1,
            rev@[0] == end,
            rev@[rev@.len() - 1] == current,
            forall|k: int| 0 <= k < rev@.len() ==> (#[trigger] rev@[k]) < adjs.len() && visited[rev@[k] as int],
            forall|k: int| 0 <= k < rev@.len() - 1 ==> edge(adjs, #[trigger] rev@[k + 1], rev@[k]),
            forall|k: int| 0 <= k < rev@.len() ==> dist[(#[trigger] rev@[k]) as int] + k == dist[end as int],
        decreases dist[current as int],
    {
        let prev = parent[current];
        rev.push(prev);
        current = prev;
    }
    let rev_len = rev.len();
    let ghost dist_end = dist[end as int];
    proof {
        assert(dist[rev@[rev_len - 1] as int] + (rev_len - 1) == dist_end);
        assert(rev@.len() == dist_end + 1);
    }
    let mut path: Vec<usize> = Vec::new();
    let mut i: usize = 0;
    while i < rev_len
        invariant
            rev_len == rev@.len(),
            i <= rev_len,
            path@.len() == i as int,
            forall|k: int| 0 <= k < i ==> #[trigger] path@[k] == rev@[rev_len - 1 - k],
        decreases rev_len - i,
    {
        path.push(rev[rev_len - 1 - i]);
        i += 1;
    }
    proof {
        assert(path@[0] == rev@[rev_len - 1]);
        assert(path@[path@.len() - 1] == rev@[0]);
        assert forall|k: int| 0 <= k < path@.len() - 1 implies edge(
            adjs,
            #[trigger] path@[k],
            path@[k + 1],
        ) by {
            assert(path@[k] == rev@[rev_len - 1 - k]);
            assert(path@[k + 1] == rev@[rev_len - 2 - k]);
            assert(edge(adjs, rev@[(rev_len - 2 - k) + 1], rev@[rev_len - 2 - k]));
        }
    }
    path
}

/// Breadth-first search for a shortest path from `start` to `end`.
///
/// Returns a path of minimum possible length when one exists, and `None`
/// exactly when no path connects the two indices.
pub fn bfs_shortest_path(adj: &Vec<Vec<usize>>, start: usize, end: usize) -> (r: Option<
    Vec<usize>,
>)
    requires
        adj_wf(adj.deep_view()),
        start < adj@.len(),
        end < adj@.len(),
        start != end,
    ensures
        match r {
            Some(p) => is_path_between(adj.deep_view(), p@, start, end) && forall|q: Seq<usize>|
                is_path_between(adj.deep_view(), q, start, end) ==> p@.len() <= q.len(),
            None => forall|q: Seq<usize>| !is_path_between(adj.deep_view(), q, start, end),
        },
{
    let ghost adjs = adj.deep_view();
    let n = adj.len();
    proof {
        assert(adjs.len() == n);
    }
    let mut visited: Vec<bool> = Vec::new();
    let mut parent: Vec<usize> = Vec::new();
    let mut i: usize = 0;
    while i < n
        invariant
            i <= n,
            visited@.len() == i as int,
            parent@.len() == i as int,
            forall|k: int| 0 <= k < i ==> !(#[trigger] visited@[k]),
        decreases n - i,
    {
        visited.push(false);
        parent.push(0);
        i += 1;
    }
    let ghost mut dist: Map<int, nat> = Map::empty().insert(start as int, 0nat);
    let ghost mut proc: Set<int> = Set::empty();
    let mut queue: Vec<usize> = Vec::new();
    queue.push(start);
    visited.set(start, true);
    proof {
        lemma_count_true_bounds(visited@);
        assert((queue@[0]) as int == start as int);
        assert forall|x: int| 0 <= x < n && visited@[x] implies (proc.contains(x) || exists|k: int|
            0 <= k < queue@.len() && (#[trigger] queue@[k]) as int == x) by {
            assert(x == start as int);
            assert((queue@[0]) as int == x);
        }
    }
    let mut head: usize = 0;
    while head < queue.len()
        invariant
            adjs == adj.deep_view(),
            adjs.len() == n,
            adj_wf(adjs),
            start < n,
            end < n,
            start != end,
            visited@.len() == n,
            parent@.len() == n,
            head <= queue@.len(),
            queue@.len() >= 1,
            queue@[0] == start,
            forall|k: int|
                0 <= k < queue@.len() ==> (#[trigger] queue@[k]) < n && visited@[queue@[k] as int],
            forall|k1: int, k2: int|
                0 <= k1 < k2 < queue@.len() ==> queue@[k1] != queue@[k2],
            visited@[start as int],
            !visited@[end as int],
            forall|x: int| 0 <= x < n && visited@[x] ==> dist.dom().contains(x),
            dist[start as int] == 0,
            forall|x: int|
                0 <= x < n && visited@[x] && x != start ==> (#[trigger] parent@[x]) < n
                    && visited@[parent@[x] as int] && edge(adjs, parent@[x], x as usize)
                    && dist[parent@[x] as int] + 1 == dist[x],
            forall|x: int| #[trigger] proc.contains(x) ==> 0 <= x < n && visited@[x],
            forall|x: int, j: int|
                proc.contains(x) && 0 <= j < adjs[x].len() ==> visited@[#[trigger] adjs[x][j] as int]
                    && dist[adjs[x][j] as int] <= dist[x] + 1,
            forall|x: int|
                0 <= x < n ==> (visited@[x] <==> (proc.contains(x) || exists|k: int|
                    head <= k < queue@.len() && (#[trigger] queue@[k]) as int == x)),
            forall|k1: int, k2: int|
                0 <= k1 <= k2 < queue@.len() ==> dist[(#[trigger] queue@[k1]) as int] <= dist[(
                #[trigger] queue@[k2]) as int],
            head < queue@.len() ==> forall|k: int|
                head <= k < queue@.len() ==> dist[(#[trigger] queue@[k]) as int] <= dist[queue@[head as int] as int] + 1,
            head < queue@.len() ==> forall|x: int|
                0 <= x < n && visited@[x] ==> dist[x] <= dist[queue@[head as int] as int] + 1,
            head == queue@.len() ==> forall|x: int| 0 <= x < n && visited@[x] ==> proc.contains(x),
        decreases n - count_true(visited@), queue@.len() - head,
    {
        let current = queue[head];
        let ghost d_cur = dist[current as int];
        let ghost visited_at_entry = visited@;
        let ghost queue_len_at_entry = queue@.len();
        let num_neighbors = adj[current].len();
        proof {
            assert(adjs[current as int] =~= adj@[current as int]@);
            lemma_count_true_bounds(visited@);
            // every queue entry, processed or pending, sits at distance at most d_cur + 1
            assert forall|k: int| 0 <= k < queue@.len() implies dist[(#[trigger] queue@[k]) as int]
                <= d_cur + 1 by {
                if k < head {
                    assert(dist[(queue@[k]) as int] <= dist[(queue@[head as int]) as int]);
                }
            }
        }
        let mut j: usize = 0;
        while j < num_neighbors
            invariant
                adjs == adj.deep_view(),
                adjs.len() == n,
                adj_wf(adjs),
                start < n,
                end < n,
                start != end,
                visited@.len() == n,
                parent@.len() == n,
                head < queue@.len(),
                queue@.len() >= 1,
                queue@[0] == start,
                current == queue@[head as int],
                current < n,
                d_cur == dist[current as int],
                num_neighbors == adjs[current as int].len(),
                j <= num_neighbors,
                forall|k: int|
                    0 <= k < queue@.len() ==> (#[trigger] queue@[k]) < n && visited@[queue@[k] as int],
                forall|k1: int, k2: int|
                    0 <= k1 < k2 < queue@.len() ==> queue@[k1] != queue@[k2],
                visited@[start as int],
                !visited@[end as int],
                forall|x: int| 0 <= x < n && visited@[x] ==> dist.dom().contains(x),
                dist[start as int] == 0,
                forall|x: int|
                    0 <= x < n && visited@[x] && x != start ==> (#[trigger] parent@[x]) < n
                        && visited@[parent@[x] as int] && edge(adjs, parent@[x], x as usize)
                        && dist[parent@[x] as int] + 1 == dist[x],
                forall|x: int| #[trigger] proc.contains(x) ==> 0 <= x < n && visited@[x],
                forall|x: int, j2: int|
                    proc.contains(x) && 0 <= j2 < adjs[x].len() ==> visited@[#[trigger] adjs[x][j2] as int]
                        && dist[adjs[x][j2] as int] <= dist[x] + 1,
                forall|x: int|
                    0 <= x < n ==> (visited@[x] <==> (proc.contains(x) || exists|k: int|
                        head <= k < queue@.len() && (#[trigger] queue@[k]) as int == x)),
                forall|k1: int, k2: int|
                    0 <= k1 <= k2 < queue@.len() ==> dist[(#[trigger] queue@[k1]) as int] <= dist[(
                    #[trigger] queue@[k2]) as int],
                forall|k: int|
                    head <= k < queue@.len() ==> dist[(#[trigger] queue@[k]) as int] <= d_cur + 1,
                forall|x: int| 0 <= x < n && visited@[x] ==> dist[x] <= d_cur + 1,
                forall|k: int| 0 <= k < queue@.len() ==> dist[(#[trigger] queue@[k]) as int] <= d_cur + 1,
                // neighbors of current processed so far
                forall|j2: int|
                    0 <= j2 < j ==> visited@[#[trigger] adjs[current as int][j2] as int] && dist[adjs[current as int][j2] as int]
                        <= d_cur + 1,
                // visited only grows, for the termination measure
                count_true(visited_at_entry) <= count_true(visited@) <= n,
                queue@.len() >= queue_len_at_entry,
                count_true(visited@) - count_true(visited_at_entry) >= queue@.len()
                    - queue_len_at_entry,
                queue@.len() - head >= 1,
            decreases num_neighbors - j,
        {
            proof {
                assert(adjs[current as int] =~= adj@[current as int]@);
            }
            let w = adj[current][j];
            proof {
                assert(adjs[current as int][j as int] == w);
                assert(w < n);
            }
            if !visited[w] {
                let ghost visited_before = visited@;
                let ghost queue_before = queue@;
                proof {
                    lemma_count_true_update(visited@, w as int);
                    // w is new, so it cannot already sit in the queue
                    assert forall|k: int| 0 <= k < queue@.len() implies (#[trigger] queue@[k]) as int
                        != w as int by {
                        assert(visited_before[(queue@[k]) as int]);
                    }
                }
                visited.set(w, true);
                parent.set(w, current);
                proof {
                    dist = dist.insert(w as int, (d_cur + 1) as nat);
                    lemma_count_true_bounds(visited@);
                    assert(edge(adjs, current, w)) by {
                        assert(adjs[current as int][j as int] == w);
                    }
                }
                if w == end {
                    // A shortest path to `end` is now recorded: rebuild it and
                    // justify its minimality.
                    let path = reconstruct_path(
                        &parent,
                        start,
                        end,
                        Ghost(adjs),
                        Ghost(visited@),
                        Ghost(dist),
                    );
                    proof {
                        assert(path@.len() == d_cur + 2);
                        assert forall|q: Seq<usize>|
                            is_path_between(adjs, q, start, end) implies path@.len() <= q.len() by {
                            lemma_recorded_distance_is_minimal(
                                adjs,
                                visited@,
                                dist,
                                proc,
                                d_cur,
                                start,
                                q,
                                end,
                            );
                        }
                    }
                    return Some(path);
                }
                queue.push(w);
                proof {
                    assert(queue@ =~= queue_before.push(w));
                    assert forall|x: int|
                        0 <= x < n && visited@[x] && !proc.contains(x) implies exists|k: int|
                        head <= k < queue@.len() && (#[trigger] queue@[k]) as int == x by {
                        if x == w as int {
                            assert((queue@[queue@.len() - 1]) as int == x);
                        } else {
                            assert(visited_before[x]);
                            let k0 = choose|k: int|
                                head <= k < queue_before.len() && (#[trigger] queue_before[k]) as int
                                    == x;
                            assert((queue@[k0]) as int == x);
                        }
                    }
                }
            }
            j += 1;
        }
        head += 1;
        proof {
            let ghost old_proc = proc;
            proc = proc.insert(current as int);
            assert forall|x: int|
                0 <= x < n && visited@[x] implies (proc.contains(x) || exists|k: int|
                head <= k < queue@.len() && (#[trigger] queue@[k]) as int == x) by {
                if x != current as int && !proc.contains(x) {
                    let k0 = choose|k: int|
                        head - 1 <= k < queue@.len() && (#[trigger] queue@[k]) as int == x;
                    if k0 == head - 1 {
                        assert(x == current as int);
                    } else {
                        assert(head <= k0 < queue@.len() && (queue@[k0]) as int == x);
                    }
                }
            }
        }
    }
    proof {
        assert forall|q: Seq<usize>| !is_path_between(adjs, q, start, end) by {
            if is_path_between(adjs, q, start, end) {
                lemma_path_stays_in_closed_set(adjs, visited@, q, end);
            }
        }
    }
    None
}

} // verus!
