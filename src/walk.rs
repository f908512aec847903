//! Walking parent edges from a set of changed symbols.

use vstd::prelude::*;

verus! {

/// `path` starts at a symbol of `start` and goes up parent edges at each step.
pub open spec fn is_parent_path(parents: Seq<Vec<usize>>, start: Seq<usize>, path: Seq<usize>) -> bool {
    &&& path.len() > 0
    &&& start.contains(path[0])
    &&& forall|k: int| 0 <= k < path.len() - 1 ==> parents[path[k] as int]@.contains(#[trigger] path[k + 1])
}

/// Symbol `v` is reached from `start` by zero or more parent edges.
pub open spec fn reaches(parents: Seq<Vec<usize>>, start: Seq<usize>, v: int) -> bool {
    exists|path: Seq<usize>| #[trigger] is_parent_path(parents, start, path) && path.last() == v
}

/// Every edge of `parents` stays below `n`.
pub open spec fn edges_below(parents: Seq<Vec<usize>>, n: int) -> bool {
    &&& parents.len() == n
    &&& forall|c: int, k: int| 0 <= c < n && 0 <= k < parents[c].len() ==> parents[c][k] < n
}

/// Number of `true` entries of `s`.
pub open spec fn count_true(s: Seq<bool>) -> nat
    decreases s.len(),
{
    if s.len() == 0 {
        0
    } else {
        count_true(s.drop_last()) + if s.last() {
            1nat
        } else {
            0nat
        }
    }
}

proof fn lemma_count_bound(s: Seq<bool>)
    ensures
        count_true(s) <= s.len(),
    decreases s.len(),
{
    if s.len() > 0 {
        lemma_count_bound(s.drop_last());
    }
}

proof fn lemma_count_mark(s: Seq<bool>, i: int)
    requires
        0 <= i < s.len(),
        !s[i],
    ensures
        count_true(s.update(i, true)) == count_true(s) + 1,
    decreases s.len(),
{
    let t = s.update(i, true);
    if i == s.len() - 1 {
        assert(t.drop_last() =~= s.drop_last());
    } else {
        assert(t.drop_last() =~= s.drop_last().update(i, true));
        lemma_count_mark(s.drop_last(), i);
    }
}

/// The symbols reached from `start` through `parents`, as a table of flags:
/// every flagged symbol is reached from `start`, every symbol of `start` is
/// flagged, and the parents of a flagged symbol are flagged.
pub fn collect_ancestors(parents: &Vec<Vec<usize>>, start: &Vec<usize>) -> (seen: Vec<bool>)
    requires
        edges_below(parents@, parents.len() as int),
        forall|k: int| 0 <= k < start.len() ==> start[k] < parents.len(),
    ensures
        seen.len() == parents.len(),
        forall|v: int| 0 <= v < seen.len() && seen[v] ==> reaches(parents@, start@, v),
        forall|k: int| 0 <= k < start.len() ==> seen[start[k] as int],
        forall|v: int, k: int|
            0 <= v < seen.len() && seen[v] && 0 <= k < parents[v].len() ==> seen[parents[v][k] as int],
{
    let n = parents.len();
    let mut seen: Vec<bool> = Vec::new();
    let mut i: usize = 0;
    while i < n
        invariant
            i <= n,
            seen.len() == i,
            forall|v: int| 0 <= v < i ==> !seen[v],
        decreases n - i,
    {
        seen.push(false);
        i += 1;
    }
    let mut stack: Vec<usize> = Vec::new();
    let mut j: usize = 0;
    while j < start.len()
        invariant
            n == parents.len(),
            forall|k: int| 0 <= k < start.len() ==> start[k] < parents.len(),
            j <= start.len(),
            seen.len() == n,
            forall|v: int| 0 <= v < n && seen[v] ==> reaches(parents@, start@, v),
            forall|k: int| 0 <= k < j ==> seen[start[k] as int],
            forall|k: int| 0 <= k < stack.len() ==> stack[k] < n && seen[stack[k] as int],
            forall|v: int| 0 <= v < n && seen[v] ==> stack@.contains(v as usize),
        decreases start.len() - j,
    {
        let x = start[j];
        if !seen[x] {
            proof {
                let path = seq![x];
                assert(start@.contains(x)) by {
                    assert(start@[j as int] == x);
                }
                assert(is_parent_path(parents@, start@, path));
            }
            let ghost before = stack@;
            seen.set(x, true);
            stack.push(x);
            proof {
                assert forall|v: int| 0 <= v < n && seen[v] implies stack@.contains(v as usize) by {
                    if v == x {
                        assert(stack@[stack.len() - 1] == x);
                    } else {
                        let k = choose|k: int| 0 <= k < before.len() && before[k] == v as usize;
                        assert(stack@[k] == v as usize);
                    }
                }
            }
        }
        j += 1;
    }
    proof {
        lemma_count_bound(seen@);
    }
    while stack.len() > 0
        invariant
            n == parents.len(),
            edges_below(parents@, n as int),
            forall|k: int| 0 <= k < start.len() ==> start[k] < parents.len(),
            seen.len() == n,
            forall|v: int| 0 <= v < n && seen[v] ==> reaches(parents@, start@, v),
            forall|k: int| 0 <= k < start.len() ==> seen[start[k] as int],
            forall|k: int| 0 <= k < stack.len() ==> stack[k] < n && seen[stack[k] as int],
            forall|v: int, k: int|
                0 <= v < n && seen[v] && !stack@.contains(v as usize) && 0 <= k < parents[v].len()
                    ==> seen[parents[v][k] as int],
            count_true(seen@) <= n,
        decreases n - count_true(seen@), stack.len(),
    {
        let ghost stack_before = stack@;
        let x = stack.pop().unwrap();
        let ghost seen_at_pop = seen@;
        let ghost stack_at_pop = stack@;
        assert(stack_at_pop =~= stack_before.drop_last());
        let mut k: usize = 0;
        while k < parents[x].len()
            invariant
                n == parents.len(),
                edges_below(parents@, n as int),
                x < n,
                seen[x as int],
                forall|k: int| 0 <= k < start.len() ==> start[k] < parents.len(),
                seen_at_pop.len() == n,
                stack_before.len() == stack_at_pop.len() + 1,
                x == stack_before.last(),
                forall|q: int| 0 <= q < stack_at_pop.len() ==> stack_before[q] == stack_at_pop[q],
                forall|v: int, k: int|
                    0 <= v < n && seen_at_pop[v] && !stack_before.contains(v as usize) && 0 <= k < parents[v].len()
                        ==> seen_at_pop[parents[v][k] as int],
                k <= parents[x as int].len(),
                seen.len() == n,
                forall|v: int| 0 <= v < n && seen[v] ==> reaches(parents@, start@, v),
                forall|k: int| 0 <= k < start.len() ==> seen[start[k] as int],
                forall|q: int| 0 <= q < stack.len() ==> stack[q] < n && seen[stack[q] as int],
                forall|q: int| 0 <= q < k ==> seen[parents[x as int][q] as int],
                forall|v: int| 0 <= v < n && seen_at_pop[v] ==> seen[v],
                forall|v: int| 0 <= v < n && seen[v] && !seen_at_pop[v] ==> stack@.contains(v as usize),
                stack_at_pop.len() <= stack.len(),
                forall|q: int| 0 <= q < stack_at_pop.len() ==> stack@[q] == stack_at_pop[q],
                count_true(seen@) == count_true(seen_at_pop) + (stack.len() - stack_at_pop.len()),
                count_true(seen@) <= n,
            decreases parents[x as int].len() - k,
        {
            let q = parents[x][k];
            if !seen[q] {
                proof {
                    let px = choose|path: Seq<usize>| #[trigger] is_parent_path(parents@, start@, path) && path.last() == x;
                    let pq = px.push(q);
                    assert(parents@[x as int]@[k as int] == q);
                    assert forall|i: int| 0 <= i < pq.len() - 1 implies parents@[pq[i] as int]@.contains(#[trigger] pq[i + 1]) by {
                        if i < px.len() - 1 {
                            assert(pq[i + 1] == px[i + 1]);
                        }
                    }
                    assert(is_parent_path(parents@, start@, pq));
                    lemma_count_mark(seen@, q as int);
                    lemma_count_bound(seen@.update(q as int, true));
                }
                let ghost before = stack@;
                seen.set(q, true);
                stack.push(q);
                proof {
                    assert forall|v: int| 0 <= v < n && seen[v] && !seen_at_pop[v] implies stack@.contains(v as usize) by {
                        if v == q {
                            assert(stack@[stack.len() - 1] == q);
                        } else {
                            let i = choose|i: int| 0 <= i < before.len() && before[i] == v as usize;
                            assert(stack@[i] == v as usize);
                        }
                    }
                }
            }
            k += 1;
        }
        proof {
            assert forall|v: int, i: int|
                0 <= v < n && seen[v] && !stack@.contains(v as usize) && 0 <= i < parents[v].len()
                implies seen[parents[v][i] as int] by {
                if v != x {
                    assert(seen_at_pop[v]) by {
                        if !seen_at_pop[v] {
                            assert(stack@.contains(v as usize));
                        }
                    }
                    if stack_at_pop.contains(v as usize) {
                        let w = choose|w: int| 0 <= w < stack_at_pop.len() && stack_at_pop[w] == v as usize;
                        assert(stack@[w] == v as usize);
                    }
                    if stack_before.contains(v as usize) {
                        let w = choose|w: int| 0 <= w < stack_before.len() && stack_before[w] == v as usize;
                        if w < stack_at_pop.len() {
                            assert(stack_at_pop[w] == v as usize);
                        }
                    }
                    assert(seen_at_pop[parents[v][i] as int]);
                }
            }
        }
    }
    seen
}

proof fn lemma_path_prefix_seen(parents: Seq<Vec<usize>>, start: Seq<usize>, seen: Seq<bool>, path: Seq<usize>, i: int)
    requires
        edges_below(parents, parents.len() as int),
        seen.len() == parents.len(),
        forall|k: int| 0 <= k < start.len() ==> start[k] < parents.len() && seen[start[k] as int],
        forall|u: int, k: int|
            0 <= u < seen.len() && seen[u] && 0 <= k < parents[u].len() ==> seen[parents[u][k] as int],
        is_parent_path(parents, start, path),
        0 <= i < path.len(),
    ensures
        path[i] < seen.len() && seen[path[i] as int],
    decreases i,
{
    if i == 0 {
        let k0 = choose|k: int| 0 <= k < start.len() && start[k] == path[0];
    } else {
        lemma_path_prefix_seen(parents, start, seen, path, i - 1);
        let j = i - 1;
        assert(parents[path[j] as int]@.contains(path[j + 1]));
        assert(j + 1 == i);
        let row = parents[path[i - 1] as int]@;
        let k = choose|k: int| 0 <= k < row.len() && #[trigger] row[k] == path[i];
        assert(parents[path[i - 1] as int][k] == path[i]);
    }
}

/// With `seen` closed under parent edges and holding `start`, every symbol
/// reached from `start` is in `seen`.
pub proof fn lemma_reached_is_seen(parents: Seq<Vec<usize>>, start: Seq<usize>, seen: Seq<bool>, v: int)
    requires
        edges_below(parents, parents.len() as int),
        seen.len() == parents.len(),
        forall|k: int| 0 <= k < start.len() ==> start[k] < parents.len() && seen[start[k] as int],
        forall|u: int, k: int|
            0 <= u < seen.len() && seen[u] && 0 <= k < parents[u].len() ==> seen[parents[u][k] as int],
        reaches(parents, start, v),
    ensures
        0 <= v < seen.len() && seen[v],
{
    let path = choose|path: Seq<usize>| #[trigger] is_parent_path(parents, start, path) && path.last() == v;
    lemma_path_prefix_seen(parents, start, seen, path, path.len() - 1);
}

} // verus!
