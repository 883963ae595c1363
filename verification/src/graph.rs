use vstd::prelude::*;

verus! {

// ---------------------------------------------------------------------------
// Directed graphs over the nodes 0..n, given as adjacency lists.
// ---------------------------------------------------------------------------

/// `u -> v` is an edge of the adjacency lists `adj`.
pub open spec fn has_edge(adj: Seq<Vec<usize>>, u: usize, v: usize) -> bool {
    &&& (u as int) < adj.len()
    &&& adj[u as int]@.contains(v)
}

/// Step `i` of the walk `w` follows an edge.
pub open spec fn walk_step(adj: Seq<Vec<usize>>, w: Seq<usize>, i: int) -> bool {
    has_edge(adj, w[i], w[i + 1])
}

/// `w` is a non-empty sequence of nodes in which each node is joined to the next by an edge.
pub open spec fn is_walk(adj: Seq<Vec<usize>>, w: Seq<usize>) -> bool {
    &&& w.len() >= 1
    &&& forall|i: int| 0 <= i < w.len() - 1 ==> #[trigger] walk_step(adj, w, i)
}

/// `b` can be reached from `a` by following zero or more edges.
pub open spec fn reaches(adj: Seq<Vec<usize>>, a: usize, b: usize) -> bool {
    exists|w: Seq<usize>| #[trigger] is_walk(adj, w) && w[0] == a && w.last() == b
}

/// Some node of `sources` reaches `v`.
pub open spec fn reached_from(adj: Seq<Vec<usize>>, sources: Seq<usize>, v: usize) -> bool {
    exists|i: int| 0 <= i < sources.len() && reaches(adj, #[trigger] sources[i], v)
}

/// No edge closes a cycle: the target of an edge never reaches its source.
pub open spec fn acyclic(adj: Seq<Vec<usize>>) -> bool {
    forall|u: usize, v: usize| #[trigger] has_edge(adj, u, v) ==> !reaches(adj, v, u)
}

/// `b` can be reached from `a` by a walk on which every node but the last is below `bound`:
/// only the edges leaving nodes below `bound` are followed.
pub open spec fn reaches_below(adj: Seq<Vec<usize>>, a: usize, b: usize, bound: int) -> bool {
    exists|w: Seq<usize>| #[trigger] is_walk(adj, w) && w[0] == a && w.last() == b
        && forall|i: int| 0 <= i < w.len() - 1 ==> (w[i] as int) < bound
}

/// Adjacency lists over the nodes 0..n: one list per node, every target below n,
/// no target listed twice.
pub open spec fn well_formed_adj(adj: Seq<Vec<usize>>, n: nat) -> bool {
    &&& adj.len() == n
    &&& forall|u: int| 0 <= u < n ==> (#[trigger] adj[u])@.no_duplicates()
    &&& forall|u: int, j: int| 0 <= u < n && 0 <= j < adj[u]@.len() ==> (#[trigger] adj[u]@[j]) < n
}

/// `rev` holds exactly the edges of `adj`, reversed.
pub open spec fn is_reverse(adj: Seq<Vec<usize>>, rev: Seq<Vec<usize>>) -> bool {
    forall|u: usize, v: usize| #[trigger] has_edge(adj, u, v) <==> #[trigger] has_edge(rev, v, u)
}

// ---------------------------------------------------------------------------
// Lemmas on walks
// ---------------------------------------------------------------------------

pub proof fn lemma_reaches_refl(adj: Seq<Vec<usize>>, a: usize)
    ensures
        reaches(adj, a, a),
{
    let w = seq![a];
    assert(is_walk(adj, w));
}

pub proof fn lemma_reaches_step(adj: Seq<Vec<usize>>, a: usize, b: usize, c: usize)
    requires
        reaches(adj, a, b),
        has_edge(adj, b, c),
    ensures
        reaches(adj, a, c),
{
    let w = choose|w: Seq<usize>| #[trigger] is_walk(adj, w) && w[0] == a && w.last() == b;
    let w2 = w.push(c);
    assert forall|i: int| 0 <= i < w2.len() - 1 implies #[trigger] walk_step(adj, w2, i) by {
        if i < w.len() - 1 {
            assert(walk_step(adj, w, i));
        }
    }
    assert(is_walk(adj, w2));
}

/// A node reached by a walk that starts in a set closed under edges lies in that set.
/// Walks that follow only edges leaving nodes below `bound` are the same in two graphs
/// that agree on those edges.
pub proof fn lemma_reaches_below_frame(adj1: Seq<Vec<usize>>, adj2: Seq<Vec<usize>>, a: usize, b: usize, bound: int)
    requires
        forall|u: usize, v: usize| (u as int) < bound ==> (has_edge(adj1, u, v) <==> has_edge(adj2, u, v)),
    ensures
        reaches_below(adj1, a, b, bound) <==> reaches_below(adj2, a, b, bound),
{
    if reaches_below(adj1, a, b, bound) {
        let w = choose|w: Seq<usize>| #[trigger] is_walk(adj1, w) && w[0] == a && w.last() == b
            && forall|i: int| 0 <= i < w.len() - 1 ==> (w[i] as int) < bound;
        assert forall|i: int| 0 <= i < w.len() - 1 implies #[trigger] walk_step(adj2, w, i) by {
            assert(walk_step(adj1, w, i));
        }
        assert(is_walk(adj2, w));
    }
    if reaches_below(adj2, a, b, bound) {
        let w = choose|w: Seq<usize>| #[trigger] is_walk(adj2, w) && w[0] == a && w.last() == b
            && forall|i: int| 0 <= i < w.len() - 1 ==> (w[i] as int) < bound;
        assert forall|i: int| 0 <= i < w.len() - 1 implies #[trigger] walk_step(adj1, w, i) by {
            assert(walk_step(adj2, w, i));
        }
        assert(is_walk(adj1, w));
    }
}

/// When every edge leaves a node below `bound`, every walk follows only such edges.
pub proof fn lemma_reaches_all_below(adj: Seq<Vec<usize>>, a: usize, b: usize, bound: int)
    requires
        forall|u: usize, v: usize| #[trigger] has_edge(adj, u, v) ==> (u as int) < bound,
    ensures
        reaches(adj, a, b) <==> reaches_below(adj, a, b, bound),
{
    if reaches(adj, a, b) {
        let w = choose|w: Seq<usize>| #[trigger] is_walk(adj, w) && w[0] == a && w.last() == b;
        assert forall|i: int| 0 <= i < w.len() - 1 implies (w[i] as int) < bound by {
            assert(walk_step(adj, w, i));
        }
    }
}

pub proof fn lemma_closed_contains_walk(adj: Seq<Vec<usize>>, s: Set<usize>, w: Seq<usize>)
    requires
        is_walk(adj, w),
        s.contains(w[0]),
        forall|u: usize, v: usize| s.contains(u) && #[trigger] has_edge(adj, u, v) ==> s.contains(v),
    ensures
        forall|i: int| 0 <= i < w.len() ==> s.contains(#[trigger] w[i]),
    decreases w.len(),
{
    if w.len() > 1 {
        let w0 = w.drop_last();
        assert forall|i: int| 0 <= i < w0.len() - 1 implies #[trigger] walk_step(adj, w0, i) by {
            assert(walk_step(adj, w, i));
        }
        lemma_closed_contains_walk(adj, s, w0);
        assert forall|i: int| 0 <= i < w.len() implies s.contains(#[trigger] w[i]) by {
            if i < w.len() - 1 {
                assert(w0[i] == w[i]);
            } else {
                assert(walk_step(adj, w, i - 1));
                assert(w0[i - 1] == w[i - 1]);
            }
        }
    }
}

pub proof fn lemma_closed_contains_reached(adj: Seq<Vec<usize>>, s: Set<usize>, a: usize, b: usize)
    requires
        reaches(adj, a, b),
        s.contains(a),
        forall|u: usize, v: usize| s.contains(u) && #[trigger] has_edge(adj, u, v) ==> s.contains(v),
    ensures
        s.contains(b),
{
    let w = choose|w: Seq<usize>| #[trigger] is_walk(adj, w) && w[0] == a && w.last() == b;
    lemma_closed_contains_walk(adj, s, w);
    assert(s.contains(w[w.len() - 1]));
}

/// Walking `adj` backwards walks its reverse.
pub proof fn lemma_reverse_walk(adj: Seq<Vec<usize>>, rev: Seq<Vec<usize>>, w: Seq<usize>)
    requires
        is_reverse(adj, rev),
        is_walk(adj, w),
    ensures
        is_walk(rev, w.reverse()),
{
    let r = w.reverse();
    assert forall|i: int| 0 <= i < r.len() - 1 implies #[trigger] walk_step(rev, r, i) by {
        let k = w.len() - 2 - i;
        assert(walk_step(adj, w, k));
        assert(r[i] == w[k + 1]);
        assert(r[i + 1] == w[k]);
    }
}

pub proof fn lemma_reverse_reaches(adj: Seq<Vec<usize>>, rev: Seq<Vec<usize>>, a: usize, b: usize)
    requires
        is_reverse(adj, rev),
        reaches(adj, a, b),
    ensures
        reaches(rev, b, a),
{
    let w = choose|w: Seq<usize>| #[trigger] is_walk(adj, w) && w[0] == a && w.last() == b;
    lemma_reverse_walk(adj, rev, w);
    let r = w.reverse();
    assert(r[0] == b);
    assert(r.last() == a);
}

/// The reverse of an acyclic graph is acyclic.
pub proof fn lemma_reverse_acyclic(adj: Seq<Vec<usize>>, rev: Seq<Vec<usize>>)
    requires
        is_reverse(adj, rev),
        acyclic(adj),
    ensures
        acyclic(rev),
{
    assert(is_reverse(rev, adj));
    assert forall|u: usize, v: usize| #[trigger] has_edge(rev, u, v) implies !reaches(rev, v, u) by {
        assert(has_edge(adj, v, u));
        if reaches(rev, v, u) {
            lemma_reverse_reaches(rev, adj, v, u);
        }
    }
}

/// In an acyclic graph no node has an edge to itself.
pub proof fn lemma_acyclic_no_self_loop(adj: Seq<Vec<usize>>, u: usize)
    requires
        acyclic(adj),
    ensures
        !has_edge(adj, u, u),
{
    lemma_reaches_refl(adj, u);
}

/// A walk in which a node repeats contains a cycle.
proof fn lemma_repeat_gives_cycle(adj: Seq<Vec<usize>>, w: Seq<usize>, i: int, j: int)
    requires
        is_walk(adj, w),
        0 <= i < j < w.len(),
        w[i] == w[j],
    ensures
        !acyclic(adj),
{
    let sub = w.subrange(i + 1, j + 1);
    assert forall|k: int| 0 <= k < sub.len() - 1 implies #[trigger] walk_step(adj, sub, k) by {
        assert(walk_step(adj, w, i + 1 + k));
    }
    assert(is_walk(adj, sub));
    assert(walk_step(adj, w, i));
    assert(has_edge(adj, w[i], w[i + 1]));
    assert(sub[0] == w[i + 1]);
    assert(sub.last() == w[i]);
    assert(reaches(adj, w[i + 1], w[i]));
}

/// Some member of `s` has an edge to `v`.
#[verifier::opaque]
pub open spec fn has_pred_in(adj: Seq<Vec<usize>>, s: Set<usize>, v: usize) -> bool {
    exists|u: usize| s.contains(u) && #[trigger] has_edge(adj, u, v)
}

/// Walks of every length inside a set where every node has a predecessor in the set.
proof fn lemma_backward_walk(adj: Seq<Vec<usize>>, s: Set<usize>, k: nat) -> (w: Seq<usize>)
    requires
        k >= 1,
        !s.is_empty(),
        forall|v: usize| s.contains(v) ==> #[trigger] has_pred_in(adj, s, v),
    ensures
        w.len() == k,
        is_walk(adj, w),
        forall|i: int| 0 <= i < w.len() ==> s.contains(#[trigger] w[i]),
    decreases k,
{
    if k == 1 {
        let v = s.choose();
        let w = seq![v];
        assert(is_walk(adj, w));
        w
    } else {
        let w0 = lemma_backward_walk(adj, s, (k - 1) as nat);
        let v = w0[0];
        assert(s.contains(w0[0]));
        assert(has_pred_in(adj, s, v));
        reveal(has_pred_in);
        let u = choose|u: usize| s.contains(u) && #[trigger] has_edge(adj, u, v);
        let w = seq![u] + w0;
        assert forall|i: int| 0 <= i < w.len() - 1 implies #[trigger] walk_step(adj, w, i) by {
            if i > 0 {
                assert(walk_step(adj, w0, i - 1));
                assert(w[i] == w0[i - 1]);
                assert(w[i + 1] == w0[i]);
            }
        }
        assert forall|i: int| 0 <= i < w.len() implies s.contains(#[trigger] w[i]) by {
            if i > 0 {
                assert(w[i] == w0[i - 1]);
            }
        }
        w
    }
}

/// A walk longer than a finite set it stays inside repeats a node.
proof fn lemma_long_walk_repeats(w: Seq<usize>, s: Set<usize>)
    requires
        s.finite(),
        w.len() > s.len(),
        forall|i: int| 0 <= i < w.len() ==> s.contains(#[trigger] w[i]),
    ensures
        !w.no_duplicates(),
{
    if w.no_duplicates() {
        w.unique_seq_to_set();
        assert(w.to_set().subset_of(s));
        vstd::set_lib::lemma_len_subset(w.to_set(), s);
    }
}

/// In an acyclic graph, a finite non-empty set cannot give every member a predecessor
/// inside the set.
pub proof fn lemma_acyclic_has_source(adj: Seq<Vec<usize>>, s: Set<usize>)
    requires
        acyclic(adj),
        s.finite(),
        !s.is_empty(),
    ensures
        exists|v: usize| s.contains(v) && !#[trigger] has_pred_in(adj, s, v),
{
    if forall|v: usize| s.contains(v) ==> #[trigger] has_pred_in(adj, s, v) {
        let w = lemma_backward_walk(adj, s, s.len() + 1);
        lemma_long_walk_repeats(w, s);
        assert(exists|i: int, j: int| 0 <= i < w.len() && 0 <= j < w.len() && i != j && w[i] == w[j]);
        let i = choose|i: int| exists|j: int| 0 <= i < w.len() && 0 <= j < w.len() && i != j && #[trigger] w[i] == #[trigger] w[j];
        let j = choose|j: int| 0 <= i < w.len() && 0 <= j < w.len() && i != j && w[i] == w[j];
        if i < j {
            lemma_repeat_gives_cycle(adj, w, i, j);
        } else {
            lemma_repeat_gives_cycle(adj, w, j, i);
        }
    }
}

pub proof fn lemma_reached_from_step(adj: Seq<Vec<usize>>, sources: Seq<usize>, u: usize, v: usize)
    requires
        reached_from(adj, sources, u),
        has_edge(adj, u, v),
    ensures
        reached_from(adj, sources, v),
{
    let i = choose|i: int| 0 <= i < sources.len() && reaches(adj, #[trigger] sources[i], u);
    lemma_reaches_step(adj, sources[i], u, v);
}

// ---------------------------------------------------------------------------
// Small vector builders
// ---------------------------------------------------------------------------

/// `n` copies of `false`.
pub fn falses(n: usize) -> (v: Vec<bool>)
    ensures
        v.len() == n,
        forall|i: int| 0 <= i < n ==> !v@[i],
{
    let mut v: Vec<bool> = Vec::new();
    while v.len() < n
        invariant
            v.len() <= n,
            forall|i: int| 0 <= i < v.len() ==> !v@[i],
        decreases n - v.len(),
    {
        v.push(false);
    }
    v
}

/// `n` copies of `0`.
pub fn zeros(n: usize) -> (v: Vec<usize>)
    ensures
        v.len() == n,
        forall|i: int| 0 <= i < n ==> v@[i] == 0,
{
    let mut v: Vec<usize> = Vec::new();
    while v.len() < n
        invariant
            v.len() <= n,
            forall|i: int| 0 <= i < v.len() ==> v@[i] == 0,
        decreases n - v.len(),
    {
        v.push(0);
    }
    v
}

// ---------------------------------------------------------------------------
// Depth-first search
// ---------------------------------------------------------------------------

/// Marks every node that some node of `sources` reaches, by an explicit-stack depth-first
/// search.
pub fn reachable_from(adj: &Vec<Vec<usize>>, n: usize, sources: &Vec<usize>) -> (seen: Vec<bool>)
    requires
        well_formed_adj(adj@, n as nat),
        forall|i: int| 0 <= i < sources.len() ==> sources@[i] < n,
    ensures
        seen.len() == n,
        forall|v: usize| v < n ==> (seen@[v as int] <==> reached_from(adj@, sources@, v)),
{
    broadcast use vstd::set_lib::range_set_properties;
    let mut seen = falses(n);
    let mut stack: Vec<usize> = Vec::new();
    let mut k: usize = 0;
    while k < sources.len()
        invariant
            k <= sources.len(),
            stack@ == sources@.subrange(0, k as int),
        decreases sources.len() - k,
    {
        stack.push(sources[k]);
        k = k + 1;
    }
    proof {
        assert forall|i: int| 0 <= i < stack.len() implies reached_from(adj@, sources@, stack@[i]) by {
            lemma_reaches_refl(adj@, sources@[i]);
        }
        assert forall|i: int| 0 <= i < sources.len() implies stack@.contains(#[trigger] sources@[i]) by {
            assert(stack@[i] == sources@[i]);
        }
    }
    let ghost mut vset: Set<usize> = Set::empty();
    while stack.len() > 0
        invariant
            well_formed_adj(adj@, n as nat),
            forall|i: int| 0 <= i < sources.len() ==> sources@[i] < n,
            seen.len() == n,
            vset.finite(),
            vset.subset_of(Set::<usize>::range(0, n)),
            forall|v: usize| v < n ==> (seen@[v as int] <==> vset.contains(v)),
            forall|i: int| 0 <= i < stack.len() ==> stack@[i] < n && reached_from(adj@, sources@, stack@[i]),
            forall|v: usize| vset.contains(v) ==> reached_from(adj@, sources@, v),
            forall|u: usize, v: usize| vset.contains(u) && #[trigger] has_edge(adj@, u, v) ==> vset.contains(v) || stack@.contains(v),
            forall|i: int| 0 <= i < sources.len() ==> vset.contains(#[trigger] sources@[i]) || stack@.contains(sources@[i]),
        decreases n - vset.len(), stack.len(),
    {
        proof {
            vstd::set_lib::lemma_len_subset(vset, Set::<usize>::range(0, n));
        }
        let ghost old_stack = stack@;
        let u = stack.pop().unwrap();
        proof {
            assert(old_stack == stack@.push(u));
            assert forall|x: usize| old_stack.contains(x) && x != u implies stack@.contains(x) by {
                let i = choose|i: int| 0 <= i < old_stack.len() && old_stack[i] == x;
                assert(stack@[i] == x);
            }
        }
        if !seen[u] {
            seen.set(u, true);
            let ghost old_vset = vset;
            proof {
                vset = vset.insert(u);
                assert(vset.subset_of(Set::<usize>::range(0, n)));
            }
            let nb = &adj[u];
            let ghost base = stack@;
            let mut j: usize = 0;
            while j < nb.len()
                invariant
                    well_formed_adj(adj@, n as nat),
                    u < n,
                    nb == &adj@[u as int],
                    reached_from(adj@, sources@, u),
                    j <= nb.len(),
                    stack@ == base + nb@.subrange(0, j as int),
                    forall|i: int| 0 <= i < base.len() ==> base[i] < n && reached_from(adj@, sources@, base[i]),
                decreases nb.len() - j,
            {
                let v = nb[j];
                proof {
                    assert(has_edge(adj@, u, v));
                    lemma_reached_from_step(adj@, sources@, u, v);
                }
                stack.push(v);
                j = j + 1;
                proof {
                    assert(nb@.subrange(0, j as int) == nb@.subrange(0, j - 1).push(v));
                }
            }
            proof {
                assert(nb@.subrange(0, j as int) == nb@);
                assert forall|i: int| 0 <= i < stack.len() implies stack@[i] < n && reached_from(adj@, sources@, stack@[i]) by {
                    if i >= base.len() {
                        let jj = i - base.len();
                        assert(stack@[i] == nb@[jj]);
                        assert(has_edge(adj@, u, nb@[jj]));
                        lemma_reached_from_step(adj@, sources@, u, nb@[jj]);
                    }
                }
                assert forall|x: usize| base.contains(x) implies stack@.contains(x) by {
                    let i = choose|i: int| 0 <= i < base.len() && base[i] == x;
                    assert(stack@[i] == x);
                }
                assert forall|v: usize| has_edge(adj@, u, v) implies stack@.contains(v) by {
                    let i = choose|i: int| 0 <= i < nb@.len() && nb@[i] == v;
                    assert(stack@[base.len() + i] == v);
                }
                vstd::set_lib::lemma_len_subset(vset, Set::<usize>::range(0, n));
            }
        }
    }
    proof {
        assert forall|x: usize| !stack@.contains(x) by {}
        assert forall|u: usize, v: usize| vset.contains(u) && #[trigger] has_edge(adj@, u, v) implies vset.contains(v) by {}
        assert forall|v: usize| v < n implies (seen@[v as int] <==> reached_from(adj@, sources@, v)) by {
            if reached_from(adj@, sources@, v) {
                let i = choose|i: int| 0 <= i < sources.len() && reaches(adj@, #[trigger] sources@[i], v);
                assert(vset.contains(sources@[i]));
                lemma_closed_contains_reached(adj@, vset, sources@[i], v);
                assert(vset.contains(v));
                assert(seen@[v as int]);
            }
            if seen@[v as int] {
                assert(vset.contains(v));
            }
        }
    }
    seen
}

// ---------------------------------------------------------------------------
// Topological order (Kahn's algorithm)
// ---------------------------------------------------------------------------

pub proof fn lemma_push_contains<A>(s: Seq<A>, a: A)
    ensures
        forall|y: A| #[trigger] s.push(a).contains(y) <==> (s.contains(y) || y == a),
{
    assert forall|y: A| #[trigger] s.push(a).contains(y) <==> (s.contains(y) || y == a) by {
        if s.contains(y) {
            let i = choose|i: int| 0 <= i < s.len() && s[i] == y;
            assert(s.push(a)[i] == y);
        }
        if y == a {
            assert(s.push(a)[s.len() as int] == y);
        }
        if s.push(a).contains(y) {
            let i = choose|i: int| 0 <= i < s.push(a).len() && s.push(a)[i] == y;
            if i < s.len() {
                assert(s[i] == y);
            }
        }
    }
}

/// A finite set holding an element is not of size zero.
pub proof fn lemma_len_pos<A>(s: Set<A>, a: A)
    requires
        s.finite(),
        s.contains(a),
    ensures
        s.len() > 0,
{
    assert(s.remove(a).len() + 1 == s.len());
}

pub proof fn lemma_walk_prefix_reaches(adj: Seq<Vec<usize>>, w: Seq<usize>, k: int)
    requires
        is_walk(adj, w),
        1 <= k <= w.len(),
    ensures
        reaches(adj, w[0], w[k - 1]),
{
    let p = w.subrange(0, k);
    assert forall|i: int| 0 <= i < p.len() - 1 implies #[trigger] walk_step(adj, p, i) by {
        assert(walk_step(adj, w, i));
    }
    assert(is_walk(adj, p));
}

/// The nodes among the marked ones (`r`), not yet in `done`, with an edge to `v`.
pub open spec fn preds_left(adj: Seq<Vec<usize>>, r: Seq<bool>, done: Set<usize>, n: nat, v: usize) -> Set<usize> {
    Set::new(|u: usize| (u as int) < n && r[u as int] && !done.contains(u) && has_edge(adj, u, v))
}

/// The marked nodes below `k` with an edge to `v`.
pub open spec fn preds_below(adj: Seq<Vec<usize>>, r: Seq<bool>, k: nat, v: usize) -> Set<usize> {
    Set::new(|u: usize| (u as int) < k && r[u as int] && has_edge(adj, u, v))
}

proof fn lemma_preds_left_bounded(adj: Seq<Vec<usize>>, r: Seq<bool>, done: Set<usize>, n: usize, v: usize)
    ensures
        preds_left(adj, r, done, n as nat, v).finite(),
        preds_left(adj, r, done, n as nat, v).len() <= n,
{
    broadcast use vstd::set_lib::range_set_properties;
    let s = preds_left(adj, r, done, n as nat, v);
    assert(s.subset_of(Set::<usize>::range(0, n)));
    vstd::set_lib::lemma_len_subset(s, Set::<usize>::range(0, n));
}

proof fn lemma_preds_below_bounded(adj: Seq<Vec<usize>>, r: Seq<bool>, k: usize, v: usize)
    ensures
        preds_below(adj, r, k as nat, v).finite(),
        preds_below(adj, r, k as nat, v).len() <= k,
{
    broadcast use vstd::set_lib::range_set_properties;
    let s = preds_below(adj, r, k as nat, v);
    assert(s.subset_of(Set::<usize>::range(0, k)));
    vstd::set_lib::lemma_len_subset(s, Set::<usize>::range(0, k));
}

/// Orders the nodes that `start` reaches so that every edge between two of them points
/// forward: the source of an edge comes before its target.
pub fn topological_order(adj: &Vec<Vec<usize>>, n: usize, start: usize) -> (order: Vec<usize>)
    requires
        well_formed_adj(adj@, n as nat),
        acyclic(adj@),
        start < n,
    ensures
        order@.no_duplicates(),
        forall|v: usize| v < n ==> (order@.contains(v) <==> reaches(adj@, start, v)),
        forall|i: int| 0 <= i < order.len() ==> order@[i] < n,
        forall|i: int, j: int|
            0 <= i < order.len() && 0 <= j < order.len() && #[trigger] has_edge(adj@, order@[i], order@[j]) ==> i < j,
        order.len() > 0,
        order@[0] == start,
{
    broadcast use vstd::set_lib::range_set_properties;
    let mut srcs: Vec<usize> = Vec::new();
    srcs.push(start);
    let inr = reachable_from(adj, n, &srcs);
    let ghost r = inr@;
    proof {
        assert forall|v: usize| v < n implies (r[v as int] <==> reaches(adj@, start, v)) by {
            if reaches(adj@, start, v) {
                assert(srcs@[0] == start);
                assert(reached_from(adj@, srcs@, v));
            }
            if r[v as int] {
                let i = choose|i: int| 0 <= i < srcs@.len() && reaches(adj@, #[trigger] srcs@[i], v);
                assert(i == 0);
            }
        }
    }

    // In-degrees inside the reached part.
    let mut indeg = zeros(n);
    proof {
        assert forall|v: usize| v < n && r[v as int] implies indeg@[v as int] == preds_below(adj@, r, 0, v).len() by {
            assert(preds_below(adj@, r, 0, v) == Set::<usize>::empty());
        }
    }
    let mut u: usize = 0;
    while u < n
        invariant
            well_formed_adj(adj@, n as nat),
            inr@ == r,
            r.len() == n,
            indeg.len() == n,
            u <= n,
            forall|v: usize| v < n && r[v as int] ==> indeg@[v as int] == preds_below(adj@, r, u as nat, v).len(),
        decreases n - u,
    {
        if inr[u] {
            let nb = &adj[u];
            let mut j: usize = 0;
            while j < nb.len()
                invariant
                    well_formed_adj(adj@, n as nat),
                    inr@ == r,
                    r.len() == n,
                    indeg.len() == n,
                    u < n,
                    nb == &adj@[u as int],
                    j <= nb.len(),
                    forall|v: usize| v < n && r[v as int] ==> indeg@[v as int] == preds_below(adj@, r, u as nat, v).len()
                        + (if nb@.subrange(0, j as int).contains(v) { 1int } else { 0int }),
                decreases nb.len() - j,
            {
                let v = nb[j];
                proof {
                    assert(!nb@.subrange(0, j as int).contains(v));
                    assert(nb@.subrange(0, j + 1) == nb@.subrange(0, j as int).push(v));
                    lemma_preds_below_bounded(adj@, r, u, v);
                }
                if inr[v] {
                    indeg.set(v, indeg[v] + 1);
                }
                j = j + 1;
                proof {
                    lemma_push_contains(nb@.subrange(0, j - 1), v);
                }
            }
            proof {
                assert(nb@.subrange(0, j as int) == nb@);
                assert forall|v: usize| v < n && r[v as int] implies indeg@[v as int] == preds_below(adj@, r, (u + 1) as nat, v).len() by {
                    lemma_preds_below_bounded(adj@, r, u, v);
                    if has_edge(adj@, u, v) {
                        assert(preds_below(adj@, r, (u + 1) as nat, v) == preds_below(adj@, r, u as nat, v).insert(u));
                    } else {
                        assert(preds_below(adj@, r, (u + 1) as nat, v) == preds_below(adj@, r, u as nat, v));
                    }
                }
            }
        } else {
            proof {
                assert forall|v: usize| v < n && r[v as int] implies indeg@[v as int] == preds_below(adj@, r, (u + 1) as nat, v).len() by {
                    assert(preds_below(adj@, r, (u + 1) as nat, v) == preds_below(adj@, r, u as nat, v));
                }
            }
        }
        u = u + 1;
    }
    let ghost done: Set<usize> = Set::empty();
    proof {
        assert forall|v: usize| v < n && r[v as int] implies indeg@[v as int] == preds_left(adj@, r, done, n as nat, v).len() by {
            assert(preds_left(adj@, r, done, n as nat, v) == preds_below(adj@, r, n as nat, v));
        }
        // Inside the reached part, only `start` has no predecessor.
        assert forall|x: usize| x < n && r[x as int] implies (indeg@[x as int] == 0 <==> x == start) by {
            lemma_preds_left_bounded(adj@, r, done, n, x);
            let ps = preds_left(adj@, r, done, n as nat, x);
            if x == start {
                if ps.len() != 0 {
                    let p = ps.choose();
                    assert(ps.contains(p));
                    assert(has_edge(adj@, p, start));
                    assert(reaches(adj@, start, p));
                }
            } else {
                assert(reaches(adj@, start, x));
                let w = choose|w: Seq<usize>| #[trigger] is_walk(adj@, w) && w[0] == start && w.last() == x;
                assert(w.len() >= 2);
                let p = w[w.len() - 2];
                assert(walk_step(adj@, w, w.len() - 2));
                lemma_walk_prefix_reaches(adj@, w, w.len() - 1);
                assert(p < n);
                assert(ps.contains(p));
            }
        }
    }

    // Nodes that are ready to be emitted.
    let mut ready: Vec<usize> = Vec::new();
    let mut x: usize = 0;
    while x < n
        invariant
            inr@ == r,
            r.len() == n,
            indeg.len() == n,
            x <= n,
            ready@.no_duplicates(),
            forall|y: usize| #[trigger] ready@.contains(y) <==> (y < x && r[y as int] && indeg@[y as int] == 0),
        decreases n - x,
    {
        proof {
            lemma_push_contains(ready@, x);
        }
        if inr[x] && indeg[x] == 0 {
            proof {
                assert(!ready@.contains(x));
            }
            ready.push(x);
        }
        x = x + 1;
    }
    proof {
        lemma_reaches_refl(adj@, start);
        assert(r[start as int]);
        assert(indeg@[start as int] == 0);
        assert(ready@.contains(start));
        if ready.len() >= 2 {
            assert(ready@.contains(ready@[0]));
            assert(ready@.contains(ready@[1]));
        }
        assert(ready@ == seq![start]);
    }

    let mut sorted: Vec<usize> = Vec::new();
    while ready.len() > 0
        invariant
            well_formed_adj(adj@, n as nat),
            acyclic(adj@),
            start < n,
            inr@ == r,
            r.len() == n,
            indeg.len() == n,
            forall|v: usize| v < n && r[v as int] ==> indeg@[v as int] == preds_left(adj@, r, done, n as nat, v).len(),
            done == sorted@.to_set(),
            sorted@.no_duplicates(),
            forall|i: int| 0 <= i < sorted.len() ==> sorted@[i] < n && r[sorted@[i] as int],
            ready@.no_duplicates(),
            forall|y: usize| #[trigger] ready@.contains(y) <==> (y < n && r[y as int] && !done.contains(y) && indeg@[y as int] == 0),
            forall|i: int, p: usize|
                0 <= i < sorted.len() && p < n && r[p as int] && #[trigger] has_edge(adj@, p, sorted@[i])
                    ==> sorted@.subrange(0, i).contains(p),
            sorted.len() == 0 ==> ready@ == seq![start],
            sorted.len() > 0 ==> sorted@[0] == start,
        decreases n - sorted.len(),
    {
        let ghost old_ready = ready@;
        let ghost old_sorted = sorted@;
        let ghost old_done = done;
        let u = ready.pop().unwrap();
        proof {
            assert(old_ready.contains(u));
            assert(old_ready == ready@.push(u));
            assert(!ready@.contains(u));
            assert forall|y: usize| ready@.contains(y) implies old_ready.contains(y) by {
                let i = choose|i: int| 0 <= i < ready@.len() && ready@[i] == y;
                assert(old_ready[i] == y);
            }
            assert forall|y: usize| old_ready.contains(y) && y != u implies ready@.contains(y) by {
                let i = choose|i: int| 0 <= i < old_ready.len() && old_ready[i] == y;
                assert(ready@[i] == y);
            }
            lemma_preds_left_bounded(adj@, r, old_done, n, u);
            // every marked predecessor of `u` is already emitted
            assert(indeg@[u as int] == 0);
            assert forall|p: usize| p < n && r[p as int] && has_edge(adj@, p, u) implies old_done.contains(p) by {
                if !old_done.contains(p) {
                    assert(preds_left(adj@, r, old_done, n as nat, u).contains(p));
                    lemma_len_pos(preds_left(adj@, r, old_done, n as nat, u), p);
                }
            }
        }
        sorted.push(u);
        proof {
            done = done.insert(u);
            assert(sorted@ == old_sorted.push(u));
            old_sorted.lemma_push_to_set_commute(u);
            assert(sorted@.to_set() == old_sorted.to_set().insert(u));
            assert forall|i: int, p: usize|
                0 <= i < sorted.len() && p < n && r[p as int] && #[trigger] has_edge(adj@, p, sorted@[i])
                    implies sorted@.subrange(0, i).contains(p) by {
                if i < old_sorted.len() {
                    assert(sorted@.subrange(0, i) == old_sorted.subrange(0, i));
                    assert(old_sorted[i] == sorted@[i]);
                } else {
                    assert(old_done.contains(p));
                    let k = choose|k: int| 0 <= k < old_sorted.len() && old_sorted[k] == p;
                    let ghost pi = sorted@.subrange(0, i);
                    assert(pi[k] == p);
                }
            }
            old_sorted.unique_seq_to_set();
            sorted@.unique_seq_to_set();
            assert(sorted@.to_set().subset_of(Set::<usize>::range(0, n)));
            vstd::set_lib::lemma_len_subset(sorted@.to_set(), Set::<usize>::range(0, n));
            // the counters now count the predecessors left after `u`
            assert forall|v: usize| v < n && r[v as int] implies indeg@[v as int] == preds_left(adj@, r, done, n as nat, v).len()
                + (if adj@[u as int]@.contains(v) { 1int } else { 0int }) by {
                lemma_preds_left_bounded(adj@, r, old_done, n, v);
                if adj@[u as int]@.contains(v) {
                    assert(has_edge(adj@, u, v));
                    assert(preds_left(adj@, r, old_done, n as nat, v).contains(u));
                    assert(preds_left(adj@, r, done, n as nat, v) == preds_left(adj@, r, old_done, n as nat, v).remove(u));
                } else {
                    assert(preds_left(adj@, r, done, n as nat, v) == preds_left(adj@, r, old_done, n as nat, v));
                }
            }
        }
        let nb = &adj[u];
        proof {
            assert(nb@.subrange(0, nb.len() as int) == nb@);
            assert(sorted@.subrange(0, sorted.len() - 1) == old_sorted);
            assert forall|y: usize| #[trigger] ready@.contains(y) <==> (y < n && r[y as int] && !done.contains(y) && indeg@[y as int] == 0) by {
                if y != u {
                    assert(ready@.contains(y) == old_ready.contains(y));
                }
            }
        }
        let mut j: usize = 0;
        while j < nb.len()
            invariant
                well_formed_adj(adj@, n as nat),
                acyclic(adj@),
                u < n,
                r[u as int],
                nb == &adj@[u as int],
                j <= nb.len(),
                inr@ == r,
                r.len() == n,
                indeg.len() == n,
                done == sorted@.to_set(),
                done.contains(u),
                !old_done.contains(u),
                done == old_done.insert(u),
                forall|i: int, p: usize|
                    0 <= i < sorted.len() && p < n && r[p as int] && #[trigger] has_edge(adj@, p, sorted@[i])
                        ==> sorted@.subrange(0, i).contains(p),
                old_done == sorted@.subrange(0, sorted.len() - 1).to_set(),
                sorted@.last() == u,
                sorted.len() >= 1,
                forall|v: usize| v < n && r[v as int] ==> indeg@[v as int] == preds_left(adj@, r, done, n as nat, v).len()
                    + (if nb@.subrange(j as int, nb.len() as int).contains(v) { 1int } else { 0int }),
                ready@.no_duplicates(),
                forall|y: usize| #[trigger] ready@.contains(y) <==> (y < n && r[y as int] && !done.contains(y) && indeg@[y as int] == 0),
            decreases nb.len() - j,
        {
            let v = nb[j];
            proof {
                assert(nb@.subrange(j as int, nb.len() as int) == seq![v] + nb@.subrange(j + 1, nb.len() as int));
                let ghost tl = nb@.subrange(j + 1, nb.len() as int);
                assert(nb@.subrange(j as int, nb.len() as int)[0] == v);
                assert(nb@.subrange(j as int, nb.len() as int).contains(v));
                assert(!tl.contains(v)) by {
                    if tl.contains(v) {
                        let k = choose|k: int| 0 <= k < tl.len() && tl[k] == v;
                        assert(nb@[j + 1 + k] == v);
                    }
                }
                lemma_preds_left_bounded(adj@, r, done, n, v);
            }
            proof {
                lemma_push_contains(ready@, v);
            }
            if inr[v] {
                let d = indeg[v] - 1;
                indeg.set(v, d);
                if d == 0 {
                    proof {
                        // `v` has `u` as a predecessor, so it was neither emitted before nor ready
                        assert(has_edge(adj@, u, v));
                        lemma_acyclic_no_self_loop(adj@, u);
                        let ghost pre = sorted@.subrange(0, sorted.len() - 1);
                        if old_done.contains(v) {
                            let i = choose|i: int| 0 <= i < pre.len() && pre[i] == v;
                            assert(sorted@[i] == v);
                            let ghost pi = sorted@.subrange(0, i);
                            assert(pi.contains(u));
                            let k = choose|k: int| 0 <= k < pi.len() && pi[k] == u;
                            assert(old_done.contains(sorted@[k]));
                        }
                        assert(!done.contains(v));
                        assert(!ready@.contains(v));
                    }
                    ready.push(v);
                }
            }
            j = j + 1;
            proof {
                assert forall|y: usize| y < n && r[y as int] implies indeg@[y as int] == preds_left(adj@, r, done, n as nat, y).len()
                    + (if nb@.subrange(j as int, nb.len() as int).contains(y) { 1int } else { 0int }) by {
                    let ghost t0 = nb@.subrange(j - 1, nb.len() as int);
                    let ghost t1 = nb@.subrange(j as int, nb.len() as int);
                    if y != v {
                        assert(t0.contains(y) ==> t1.contains(y)) by {
                            if t0.contains(y) {
                                let k = choose|k: int| 0 <= k < t0.len() && t0[k] == y;
                                assert(k > 0);
                                assert(t1[k - 1] == y);
                            }
                        }
                        assert(t1.contains(y) ==> t0.contains(y)) by {
                            if t1.contains(y) {
                                let k = choose|k: int| 0 <= k < t1.len() && t1[k] == y;
                                assert(t0[k + 1] == y);
                            }
                        }
                    }
                }
            }
        }
        proof {
            assert forall|y: usize| !nb@.subrange(j as int, nb.len() as int).contains(y) by {}
        }
    }
    proof {
        // Nothing marked is left: otherwise some unemitted marked node would have no
        // unemitted predecessor and would be ready.
        let rest = Set::new(|y: usize| y < n && r[y as int] && !done.contains(y));
        assert(rest.subset_of(Set::<usize>::range(0, n)));
        vstd::set_lib::lemma_len_subset(rest, Set::<usize>::range(0, n));
        if !rest.is_empty() {
            lemma_acyclic_has_source(adj@, rest);
            let v = choose|v: usize| rest.contains(v) && !#[trigger] has_pred_in(adj@, rest, v);
            lemma_preds_left_bounded(adj@, r, done, n, v);
            assert(!ready@.contains(v));
            assert(indeg@[v as int] != 0);
            let p = preds_left(adj@, r, done, n as nat, v).choose();
            assert(preds_left(adj@, r, done, n as nat, v).contains(p));
            assert(rest.contains(p));
            reveal(has_pred_in);
            assert(has_pred_in(adj@, rest, v));
        }
        assert forall|v: usize| v < n implies (sorted@.contains(v) <==> reaches(adj@, start, v)) by {
            if reaches(adj@, start, v) {
                assert(!rest.contains(v));
                assert(done.contains(v));
            }
            if sorted@.contains(v) {
                let i = choose|i: int| 0 <= i < sorted.len() && sorted@[i] == v;
            }
        }
        assert forall|i: int, j: int|
            0 <= i < sorted.len() && 0 <= j < sorted.len() && #[trigger] has_edge(adj@, sorted@[i], sorted@[j]) implies i < j by {
            let pj = sorted@.subrange(0, j);
            assert(pj.contains(sorted@[i]));
            let k = choose|k: int| 0 <= k < pj.len() && pj[k] == sorted@[i];
            assert(sorted@[k] == sorted@[i]);
        }
        assert(sorted@.contains(start));
    }
    sorted
}

// ---------------------------------------------------------------------------
// Lemmas on changing edges
// ---------------------------------------------------------------------------

/// Every edge of `small` is an edge of `big`.
pub open spec fn is_subgraph(small: Seq<Vec<usize>>, big: Seq<Vec<usize>>) -> bool {
    forall|u: usize, v: usize| #[trigger] has_edge(small, u, v) ==> has_edge(big, u, v)
}

pub proof fn lemma_subgraph_walk(small: Seq<Vec<usize>>, big: Seq<Vec<usize>>, w: Seq<usize>)
    requires
        is_subgraph(small, big),
        is_walk(small, w),
    ensures
        is_walk(big, w),
{
    assert forall|i: int| 0 <= i < w.len() - 1 implies #[trigger] walk_step(big, w, i) by {
        assert(walk_step(small, w, i));
    }
}

pub proof fn lemma_subgraph_reaches(small: Seq<Vec<usize>>, big: Seq<Vec<usize>>, a: usize, b: usize)
    requires
        is_subgraph(small, big),
        reaches(small, a, b),
    ensures
        reaches(big, a, b),
{
    let w = choose|w: Seq<usize>| #[trigger] is_walk(small, w) && w[0] == a && w.last() == b;
    lemma_subgraph_walk(small, big, w);
}

pub proof fn lemma_subgraph_acyclic(small: Seq<Vec<usize>>, big: Seq<Vec<usize>>)
    requires
        is_subgraph(small, big),
        acyclic(big),
    ensures
        acyclic(small),
{
    assert forall|u: usize, v: usize| #[trigger] has_edge(small, u, v) implies !reaches(small, v, u) by {
        assert(has_edge(big, u, v));
        if reaches(small, v, u) {
            lemma_subgraph_reaches(small, big, v, u);
        }
    }
}

/// `big` is `small` with the out-edges of `cell` set to `refs`, where `cell` had none.
pub open spec fn adds_out_edges(small: Seq<Vec<usize>>, big: Seq<Vec<usize>>, cell: usize, refs: Seq<usize>) -> bool {
    &&& forall|v: usize| !#[trigger] has_edge(small, cell, v)
    &&& forall|u: usize, v: usize| #[trigger] has_edge(big, u, v) <==> (if u == cell { refs.contains(v) } else { has_edge(small, u, v) })
}

/// A walk of `big` that meets `cell` only at its end is a walk of `small`.
proof fn lemma_walk_avoiding(small: Seq<Vec<usize>>, big: Seq<Vec<usize>>, cell: usize, refs: Seq<usize>, w: Seq<usize>)
    requires
        adds_out_edges(small, big, cell, refs),
        is_walk(big, w),
        forall|i: int| 0 <= i < w.len() - 1 ==> w[i] != cell,
    ensures
        is_walk(small, w),
{
    assert forall|i: int| 0 <= i < w.len() - 1 implies #[trigger] walk_step(small, w, i) by {
        assert(walk_step(big, w, i));
    }
}

/// A walk of `big` that leaves `cell` and comes back gives a ref that reaches `cell` in `small`.
proof fn lemma_closed_walk_through(small: Seq<Vec<usize>>, big: Seq<Vec<usize>>, cell: usize, refs: Seq<usize>, c: Seq<usize>)
    requires
        adds_out_edges(small, big, cell, refs),
        is_walk(big, c),
        c.len() >= 2,
        c[0] == cell,
        c.last() == cell,
    ensures
        reached_from(small, refs, cell),
{
    assert(walk_step(big, c, 0));
    let r = c[1];
    assert(refs.contains(r));
    let t = c.subrange(1, c.len() as int);
    assert(t.last() == cell);
    // first position of `cell` in `t`
    let k = choose|k: int| 0 <= k < t.len() && t[k] == cell && forall|m: int| 0 <= m < k ==> t[m] != cell;
    assert(exists|k: int| 0 <= k < t.len() && t[k] == cell && forall|m: int| 0 <= m < k ==> t[m] != cell) by {
        lemma_first_index(t, cell, t.len() - 1);
    }
    let p = t.subrange(0, k + 1);
    assert forall|i: int| 0 <= i < p.len() - 1 implies #[trigger] walk_step(big, p, i) by {
        assert(walk_step(big, c, i + 1));
    }
    lemma_walk_avoiding(small, big, cell, refs, p);
    assert(reaches(small, r, cell));
    let i = choose|i: int| 0 <= i < refs.len() && refs[i] == r;
    assert(reaches(small, refs[i], cell));
}

/// If `x` occurs in `s` at or before `j`, it has a first occurrence.
proof fn lemma_first_index<A>(s: Seq<A>, x: A, j: int)
    requires
        0 <= j < s.len(),
        s[j] == x,
    ensures
        exists|k: int| 0 <= k < s.len() && s[k] == x && forall|m: int| 0 <= m < k ==> s[m] != x,
    decreases j,
{
    if exists|m: int| 0 <= m < j && s[m] == x {
        let m = choose|m: int| 0 <= m < j && s[m] == x;
        lemma_first_index(s, x, m);
    } else {
        assert(forall|m: int| 0 <= m < j ==> s[m] != x);
    }
}

/// Giving a node without out-edges new out-edges keeps a graph acyclic as long as none of
/// the new targets reaches the node.
pub proof fn lemma_add_edges_acyclic(small: Seq<Vec<usize>>, big: Seq<Vec<usize>>, cell: usize, refs: Seq<usize>)
    requires
        acyclic(small),
        adds_out_edges(small, big, cell, refs),
        !reached_from(small, refs, cell),
    ensures
        acyclic(big),
{
    assert forall|u: usize, v: usize| #[trigger] has_edge(big, u, v) implies !reaches(big, v, u) by {
        if reaches(big, v, u) {
            let w = choose|w: Seq<usize>| #[trigger] is_walk(big, w) && w[0] == v && w.last() == u;
            let q = seq![u] + w;
            assert forall|i: int| 0 <= i < q.len() - 1 implies #[trigger] walk_step(big, q, i) by {
                if i > 0 {
                    assert(walk_step(big, w, i - 1));
                }
            }
            assert(is_walk(big, q));
            if exists|k: int| 0 <= k < q.len() && q[k] == cell {
                let k = choose|k: int| 0 <= k < q.len() && q[k] == cell;
                // rotate the closed walk so that it starts and ends at `cell`
                let c = q.subrange(k, q.len() as int) + q.subrange(1, k + 1);
                assert forall|i: int| 0 <= i < c.len() - 1 implies #[trigger] walk_step(big, c, i) by {
                    let a = q.len() - k;
                    if i < a - 1 {
                        assert(walk_step(big, q, k + i));
                    } else if i == a - 1 {
                        assert(c[i] == u);
                        assert(c[i + 1] == v);
                    } else {
                        assert(walk_step(big, q, i - a + 1));
                    }
                }
                assert(c.last() == q[k]);
                lemma_closed_walk_through(small, big, cell, refs, c);
            } else {
                lemma_walk_avoiding(small, big, cell, refs, q);
                assert(walk_step(small, q, 0));
                let t = q.subrange(1, q.len() as int);
                assert forall|i: int| 0 <= i < t.len() - 1 implies #[trigger] walk_step(small, t, i) by {
                    assert(walk_step(small, q, i + 1));
                }
                assert(is_walk(small, t));
                assert(reaches(small, v, u));
            }
        }
    }
}

// ---------------------------------------------------------------------------
// The dependency graph of a sheet
// ---------------------------------------------------------------------------

/// A copy of `v`.
fn copy_list(v: &Vec<usize>) -> (r: Vec<usize>)
    ensures
        r@ == v@,
{
    let mut r: Vec<usize> = Vec::new();
    let mut i: usize = 0;
    while i < v.len()
        invariant
            i <= v.len(),
            r@ == v@.subrange(0, i as int),
        decreases v.len() - i,
    {
        r.push(v[i]);
        i = i + 1;
    }
    r
}

/// `v` without the entries equal to `x`.
fn list_without(v: &Vec<usize>, x: usize) -> (r: Vec<usize>)
    ensures
        forall|y: usize| #[trigger] r@.contains(y) <==> (v@.contains(y) && y != x),
        v@.no_duplicates() ==> r@.no_duplicates(),
        forall|i: int| 0 <= i < r.len() ==> v@.contains(#[trigger] r@[i]),
{
    let mut r: Vec<usize> = Vec::new();
    let mut i: usize = 0;
    while i < v.len()
        invariant
            i <= v.len(),
            forall|y: usize| #[trigger] r@.contains(y) <==> (v@.subrange(0, i as int).contains(y) && y != x),
            v@.no_duplicates() ==> r@.no_duplicates(),
            forall|k: int| 0 <= k < r.len() ==> v@.contains(#[trigger] r@[k]),
        decreases v.len() - i,
    {
        let y = v[i];
        proof {
            lemma_push_contains(v@.subrange(0, i as int), y);
            assert(v@.subrange(0, i + 1) == v@.subrange(0, i as int).push(y));
            lemma_push_contains(r@, y);
            if v@.no_duplicates() {
                assert(!v@.subrange(0, i as int).contains(y)) by {
                    if v@.subrange(0, i as int).contains(y) {
                        let k = choose|k: int| 0 <= k < i && v@.subrange(0, i as int)[k] == y;
                        assert(v@[k] == y);
                    }
                }
                assert(!r@.contains(y));
            }
        }
        if y != x {
            r.push(y);
        }
        i = i + 1;
    }
    proof {
        assert(v@.subrange(0, v.len() as int) == v@);
    }
    r
}

/// `big` is `small` with one more node, `n`, that has an edge to every other node.
pub open spec fn with_root(small: Seq<Vec<usize>>, big: Seq<Vec<usize>>, n: usize) -> bool {
    &&& small.len() == n
    &&& big.len() == n + 1
    &&& forall|u: int| 0 <= u < n ==> (#[trigger] big[u])@ == small[u]@
    &&& forall|v: usize| #[trigger] big[n as int]@.contains(v) <==> v < n
}

proof fn lemma_root_walk(small: Seq<Vec<usize>>, big: Seq<Vec<usize>>, n: usize, w: Seq<usize>)
    requires
        with_root(small, big, n),
        well_formed_adj(small, n as nat),
        is_walk(big, w),
        w[0] < n,
    ensures
        is_walk(small, w),
        forall|i: int| 0 <= i < w.len() ==> #[trigger] w[i] < n,
    decreases w.len(),
{
    if w.len() > 1 {
        let w0 = w.drop_last();
        assert forall|i: int| 0 <= i < w0.len() - 1 implies #[trigger] walk_step(big, w0, i) by {
            assert(walk_step(big, w, i));
        }
        lemma_root_walk(small, big, n, w0);
        let k = w.len() - 2;
        assert(walk_step(big, w, k));
        assert(w[k] == w0[k]);
        assert(w[k] < n);
        assert(big[w[k] as int]@.contains(w[k + 1]));
        assert(small[w[k] as int]@.contains(w[k + 1]));
        let j = choose|j: int| 0 <= j < small[w[k] as int]@.len() && small[w[k] as int]@[j] == w[k + 1];
        assert forall|i: int| 0 <= i < w.len() - 1 implies #[trigger] walk_step(small, w, i) by {
            if i < k {
                assert(walk_step(small, w0, i));
            } else {
                assert(w[i] == w[k]);
            }
        }
        assert forall|i: int| 0 <= i < w.len() implies #[trigger] w[i] < n by {
            if i < w.len() - 1 {
                assert(w[i] == w0[i]);
            }
        }
    }
}

proof fn lemma_root_acyclic(small: Seq<Vec<usize>>, big: Seq<Vec<usize>>, n: usize)
    requires
        with_root(small, big, n),
        well_formed_adj(small, n as nat),
        acyclic(small),
    ensures
        acyclic(big),
{
    assert forall|u: usize, v: usize| #[trigger] has_edge(big, u, v) implies !reaches(big, v, u) by {
        if reaches(big, v, u) {
            let w = choose|w: Seq<usize>| #[trigger] is_walk(big, w) && w[0] == v && w.last() == u;
            if u == n {
                assert(v < n);
                lemma_root_walk(small, big, n, w);
                assert(w[w.len() - 1] < n);
            } else {
                assert(big[u as int]@ == small[u as int]@);
                assert(has_edge(small, u, v));
                let j = choose|j: int| 0 <= j < small[u as int]@.len() && small[u as int]@[j] == v;
                assert(v < n);
                lemma_root_walk(small, big, n, w);
                assert(reaches(small, v, u));
            }
        }
    }
}

/// Which cells each cell depends on, and the reverse: which cells depend on each cell.
///
/// The nodes are the numbers `0..size`. The graph is kept free of cycles: an edge is
/// only added when its target does not already reach its source.
pub struct DependencyGraph {
    n: usize,
    /// `dependencies[u]`: the nodes `u` depends on.
    dependencies: Vec<Vec<usize>>,
    /// `dependents[v]`: the nodes that depend on `v`.
    dependents: Vec<Vec<usize>>,
}

impl DependencyGraph {
    /// The number of nodes.
    pub closed spec fn size(&self) -> nat {
        self.n as nat
    }

    /// The dependency lists: `u -> v` when `u` depends on `v`.
    pub closed spec fn edges(&self) -> Seq<Vec<usize>> {
        self.dependencies@
    }

    /// The dependent lists: `v -> u` when `u` depends on `v`.
    pub closed spec fn back_edges(&self) -> Seq<Vec<usize>> {
        self.dependents@
    }

    /// The graph's invariant: well-formed lists, the dependent lists are exactly the
    /// dependency lists reversed, and no cycle.
    pub open spec fn inv(&self) -> bool {
        &&& well_formed_adj(self.edges(), self.size())
        &&& well_formed_adj(self.back_edges(), self.size())
        &&& is_reverse(self.edges(), self.back_edges())
        &&& acyclic(self.edges())
    }

    /// `u` depends directly on `v`.
    pub open spec fn depends_on(&self, u: usize, v: usize) -> bool {
        has_edge(self.edges(), u, v)
    }

    /// `u` depends on `v` directly or through other nodes (or is `v`).
    pub open spec fn depends_transitively(&self, u: usize, v: usize) -> bool {
        reaches(self.edges(), u, v)
    }

    /// A graph on `n` nodes without edges.
    pub fn new(n: usize) -> (g: Self)
        ensures
            g.inv(),
            g.size() == n,
            forall|u: usize, v: usize| !#[trigger] g.depends_on(u, v),
    {
        let mut dependencies: Vec<Vec<usize>> = Vec::new();
        let mut dependents: Vec<Vec<usize>> = Vec::new();
        let mut i: usize = 0;
        while i < n
            invariant
                i <= n,
                dependencies.len() == i,
                dependents.len() == i,
                forall|k: int| 0 <= k < i ==> (#[trigger] dependencies@[k])@.len() == 0,
                forall|k: int| 0 <= k < i ==> (#[trigger] dependents@[k])@.len() == 0,
            decreases n - i,
        {
            dependencies.push(Vec::new());
            dependents.push(Vec::new());
            i = i + 1;
        }
        let g = DependencyGraph { n, dependencies, dependents };
        proof {
            assert forall|u: usize, v: usize| !#[trigger] has_edge(g.edges(), u, v) by {}
            assert forall|u: usize, v: usize| !#[trigger] has_edge(g.back_edges(), u, v) by {}
        }
        g
    }

    /// The number of nodes.
    pub fn len(&self) -> (n: usize)
        ensures
            n == self.size(),
    {
        self.n
    }

    /// The nodes `u` depends on.
    pub fn dependencies_of(&self, u: usize) -> (r: &Vec<usize>)
        requires
            self.inv(),
            u < self.size(),
        ensures
            forall|v: usize| #[trigger] r@.contains(v) <==> self.depends_on(u, v),
            r@.no_duplicates(),
    {
        &self.dependencies[u]
    }

    /// The nodes that depend on `v`.
    pub fn dependents_of(&self, v: usize) -> (r: &Vec<usize>)
        requires
            self.inv(),
            v < self.size(),
        ensures
            forall|u: usize| #[trigger] r@.contains(u) <==> self.depends_on(u, v),
            r@.no_duplicates(),
    {
        proof {
            assert forall|u: usize| #[trigger] self.dependents@[v as int]@.contains(u) <==> self.depends_on(u, v) by {
                assert(has_edge(self.back_edges(), v, u) <==> has_edge(self.edges(), u, v));
            }
        }
        &self.dependents[v]
    }

    /// Whether making `target` depend on `proposed` would close a cycle: some proposed
    /// node is `target` or depends on it, directly or not.
    pub fn creates_cycle(&self, target: usize, proposed: &Vec<usize>) -> (r: bool)
        requires
            self.inv(),
            target < self.size(),
            forall|i: int| 0 <= i < proposed.len() ==> proposed@[i] < self.size(),
        ensures
            r == reached_from(self.edges(), proposed@, target),
    {
        let seen = reachable_from(&self.dependencies, self.n, proposed);
        seen[target]
    }

    /// Removes every dependency of `cell`.
    fn clear_dependencies(&mut self, cell: usize)
        requires
            old(self).inv(),
            cell < old(self).size(),
        ensures
            final(self).inv(),
            final(self).size() == old(self).size(),
            forall|u: usize, v: usize| #[trigger] final(self).depends_on(u, v) <==> (old(self).depends_on(u, v) && u != cell),
    {
        let old_deps = copy_list(&self.dependencies[cell]);
        let ghost dn0 = self.dependents@;
        let ghost dp0 = self.dependencies@;
        let mut i: usize = 0;
        while i < old_deps.len()
            invariant
                self.n == old(self).n,
                self.dependencies@ == dp0,
                dp0 == old(self).dependencies@,
                dn0 == old(self).dependents@,
                old(self).inv(),
                cell < self.n,
                old_deps@ == dp0[cell as int]@,
                i <= old_deps.len(),
                well_formed_adj(self.dependents@, self.n as nat),
                forall|x: usize, y: usize| #[trigger] has_edge(self.dependents@, x, y) <==> (has_edge(dn0, x, y)
                    && !(y == cell && old_deps@.subrange(0, i as int).contains(x))),
            decreases old_deps.len() - i,
        {
            let d = old_deps[i];
            proof {
                assert(old_deps@.contains(d));
                assert(d < self.n);
            }
            let nl = list_without(&self.dependents[d], cell);
            let ghost before = self.dependents@;
            let ghost nlv = nl@;
            self.dependents.set(d, nl);
            i = i + 1;
            proof {
                lemma_push_contains(old_deps@.subrange(0, i - 1), d);
                assert(old_deps@.subrange(0, i as int) == old_deps@.subrange(0, i - 1).push(d));
                assert forall|x: usize, y: usize| #[trigger] has_edge(self.dependents@, x, y) <==> (has_edge(dn0, x, y)
                    && !(y == cell && old_deps@.subrange(0, i as int).contains(x))) by {
                    assert(has_edge(before, x, y) <==> (has_edge(dn0, x, y) && !(y == cell && old_deps@.subrange(0, i - 1).contains(x))));
                    assert(old_deps@.subrange(0, i as int).contains(x) <==> (old_deps@.subrange(0, i - 1).contains(x) || x == d));
                    if x != d {
                        assert(has_edge(self.dependents@, x, y) == has_edge(before, x, y));
                    } else {
                        assert(self.dependents@[d as int]@ == nlv);
                        assert(has_edge(self.dependents@, x, y) == (before[d as int]@.contains(y) && y != cell));
                    }
                }
                assert forall|u: int| 0 <= u < self.n implies (#[trigger] self.dependents@[u])@.no_duplicates() by {
                    if u != d {
                        assert(self.dependents@[u] == before[u]);
                    }
                }
                assert forall|u: int, j: int| 0 <= u < self.n && 0 <= j < self.dependents@[u]@.len()
                    implies (#[trigger] self.dependents@[u]@[j]) < self.n by {
                    if u == d {
                        let y = self.dependents@[u]@[j];
                        assert(before[u]@.contains(y));
                    } else {
                        assert(self.dependents@[u] == before[u]);
                    }
                }
            }
        }
        self.dependencies.set(cell, Vec::new());
        proof {
            assert(old_deps@.subrange(0, old_deps.len() as int) == old_deps@);
            let dp = self.dependencies@;
            assert forall|u: usize, v: usize| #[trigger] has_edge(dp, u, v) <==> (has_edge(dp0, u, v) && u != cell) by {
                if u != cell && u < self.n {
                    assert(dp[u as int] == dp0[u as int]);
                }
            }
            assert forall|u: usize, v: usize| #[trigger] has_edge(dp, u, v) <==> #[trigger] has_edge(self.dependents@, v, u) by {
                assert(has_edge(dp0, u, v) <==> has_edge(dn0, v, u));
                if u == cell {
                    assert(has_edge(dn0, v, cell) <==> old_deps@.contains(v));
                }
            }
            assert forall|u: int| 0 <= u < self.n implies (#[trigger] dp[u])@.no_duplicates() by {
                if u != cell {
                    assert(dp[u] == dp0[u]);
                }
            }
            assert forall|u: int, j: int| 0 <= u < self.n && 0 <= j < dp[u]@.len() implies (#[trigger] dp[u]@[j]) < self.n by {
                assert(dp[u] == dp0[u]);
            }
            assert(is_subgraph(dp, dp0));
            lemma_subgraph_acyclic(dp, dp0);
        }
    }

    /// Makes `cell`, which has no dependency, depend on `refs`.
    fn add_dependencies(&mut self, cell: usize, refs: &Vec<usize>)
        requires
            old(self).inv(),
            cell < old(self).size(),
            forall|v: usize| !#[trigger] old(self).depends_on(cell, v),
            refs@.no_duplicates(),
            forall|i: int| 0 <= i < refs.len() ==> refs@[i] < old(self).size(),
            !reached_from(old(self).edges(), refs@, cell),
        ensures
            final(self).inv(),
            final(self).size() == old(self).size(),
            forall|u: usize, v: usize| #[trigger] final(self).depends_on(u, v)
                <==> (if u == cell { refs@.contains(v) } else { old(self).depends_on(u, v) }),
    {
        let ghost dn0 = self.dependents@;
        let ghost dp0 = self.dependencies@;
        proof {
            assert forall|v: usize| !#[trigger] has_edge(dp0, cell, v) by {
                assert(!old(self).depends_on(cell, v));
            }
        }
        let mut i: usize = 0;
        while i < refs.len()
            invariant
                self.n == old(self).n,
                self.dependencies@ == dp0,
                dp0 == old(self).dependencies@,
                dn0 == old(self).dependents@,
                old(self).inv(),
                cell < self.n,
                forall|v: usize| !#[trigger] has_edge(dp0, cell, v),
                refs@.no_duplicates(),
                forall|k: int| 0 <= k < refs.len() ==> refs@[k] < self.n,
                i <= refs.len(),
                well_formed_adj(self.dependents@, self.n as nat),
                forall|x: usize, y: usize| #[trigger] has_edge(self.dependents@, x, y) <==> (has_edge(dn0, x, y)
                    || (y == cell && refs@.subrange(0, i as int).contains(x))),
            decreases refs.len() - i,
        {
            let d = refs[i];
            let ghost before = self.dependents@;
            proof {
                assert(!has_edge(dn0, d, cell)) by {
                    assert(has_edge(dp0, cell, d) <==> has_edge(dn0, d, cell));
                }
                assert(!refs@.subrange(0, i as int).contains(d)) by {
                    if refs@.subrange(0, i as int).contains(d) {
                        let k = choose|k: int| 0 <= k < i && refs@.subrange(0, i as int)[k] == d;
                        assert(refs@[k] == d);
                    }
                }
                assert(!before[d as int]@.contains(cell)) by {
                    assert(!has_edge(before, d, cell));
                }
                lemma_push_contains(before[d as int]@, cell);
            }
            let mut l = copy_list(&self.dependents[d]);
            l.push(cell);
            let ghost lv = l@;
            self.dependents.set(d, l);
            i = i + 1;
            proof {
                lemma_push_contains(refs@.subrange(0, i - 1), d);
                assert(refs@.subrange(0, i as int) == refs@.subrange(0, i - 1).push(d));
                assert forall|x: usize, y: usize| #[trigger] has_edge(self.dependents@, x, y) <==> (has_edge(dn0, x, y)
                    || (y == cell && refs@.subrange(0, i as int).contains(x))) by {
                    assert(has_edge(before, x, y) <==> (has_edge(dn0, x, y) || (y == cell && refs@.subrange(0, i - 1).contains(x))));
                    assert(refs@.subrange(0, i as int).contains(x) <==> (refs@.subrange(0, i - 1).contains(x) || x == d));
                    if x != d {
                        assert(has_edge(self.dependents@, x, y) == has_edge(before, x, y));
                    } else {
                        assert(self.dependents@[d as int]@ == lv);
                        assert(has_edge(self.dependents@, x, y) == (before[d as int]@.contains(y) || y == cell));
                    }
                }
                assert forall|u: int| 0 <= u < self.n implies (#[trigger] self.dependents@[u])@.no_duplicates() by {
                    if u != d {
                        assert(self.dependents@[u] == before[u]);
                    }
                }
                assert forall|u: int, j: int| 0 <= u < self.n && 0 <= j < self.dependents@[u]@.len()
                    implies (#[trigger] self.dependents@[u]@[j]) < self.n by {
                    if u != d {
                        assert(self.dependents@[u] == before[u]);
                    } else if j < before[u]@.len() {
                        assert(self.dependents@[u]@[j] == before[u]@[j]);
                    }
                }
            }
        }
        let l = copy_list(refs);
        self.dependencies.set(cell, l);
        proof {
            assert(refs@.subrange(0, refs.len() as int) == refs@);
            let dp = self.dependencies@;
            assert forall|u: usize, v: usize| #[trigger] has_edge(dp, u, v)
                <==> (if u == cell { refs@.contains(v) } else { has_edge(dp0, u, v) }) by {
                if u != cell && u < self.n {
                    assert(dp[u as int] == dp0[u as int]);
                }
            }
            assert forall|u: usize, v: usize| #[trigger] has_edge(dp, u, v) <==> #[trigger] has_edge(self.dependents@, v, u) by {
                assert(has_edge(dp0, u, v) <==> has_edge(dn0, v, u));
            }
            assert forall|u: int| 0 <= u < self.n implies (#[trigger] dp[u])@.no_duplicates() by {
                if u != cell {
                    assert(dp[u] == dp0[u]);
                }
            }
            assert forall|u: int, j: int| 0 <= u < self.n && 0 <= j < dp[u]@.len() implies (#[trigger] dp[u]@[j]) < self.n by {
                if u != cell {
                    assert(dp[u] == dp0[u]);
                }
            }
            assert(adds_out_edges(dp0, dp, cell, refs@));
            lemma_add_edges_acyclic(dp0, dp, cell, refs@);
        }
    }

    /// Replaces the dependencies of `cell` by `refs`, unless that would close a cycle, in
    /// which case `cell` is left without dependencies. Returns whether a cycle was found.
    pub fn set_dependencies(&mut self, cell: usize, refs: &Vec<usize>) -> (circular: bool)
        requires
            old(self).inv(),
            cell < old(self).size(),
            refs@.no_duplicates(),
            forall|i: int| 0 <= i < refs.len() ==> refs@[i] < old(self).size(),
        ensures
            final(self).inv(),
            final(self).size() == old(self).size(),
            circular == reached_from(old(self).edges(), refs@, cell),
            forall|u: usize, v: usize| #[trigger] final(self).depends_on(u, v)
                <==> (if u == cell { !circular && refs@.contains(v) } else { old(self).depends_on(u, v) }),
    {
        let circular = self.creates_cycle(cell, refs);
        let ghost e0 = self.edges();
        self.clear_dependencies(cell);
        if !circular {
            proof {
                let e1 = self.edges();
                assert forall|u: usize, v: usize| #[trigger] has_edge(e1, u, v) implies has_edge(e0, u, v) by {
                    assert(self.depends_on(u, v));
                }
                assert(is_subgraph(e1, e0));
                if reached_from(e1, refs@, cell) {
                    let i = choose|i: int| 0 <= i < refs@.len() && reaches(e1, #[trigger] refs@[i], cell);
                    lemma_subgraph_reaches(e1, e0, refs@[i], cell);
                }
            }
            self.add_dependencies(cell, refs);
        }
        circular
    }

    /// Every node once, each after every node it depends on: an order in which to evaluate
    /// all of them.
    pub fn evaluation_order(&self) -> (order: Vec<usize>)
        requires
            self.inv(),
            self.size() < usize::MAX,
        ensures
            order@.no_duplicates(),
            forall|v: usize| v < self.size() ==> order@.contains(v),
            forall|i: int| 0 <= i < order.len() ==> order@[i] < self.size(),
            forall|i: int, j: int| 0 <= i < order.len() && 0 <= j < order.len()
                && #[trigger] self.depends_on(order@[j], order@[i]) ==> i < j,
    {
        let n = self.n;
        let mut big: Vec<Vec<usize>> = Vec::new();
        let mut u: usize = 0;
        while u < n
            invariant
                n == self.size(),
                self.inv(),
                u <= n,
                big.len() == u,
                forall|k: int| 0 <= k < u ==> (#[trigger] big@[k])@ == self.back_edges()[k]@,
            decreases n - u,
        {
            let list = &self.dependents[u];
            let mut copy: Vec<usize> = Vec::new();
            let mut k: usize = 0;
            while k < list.len()
                invariant
                    k <= list.len(),
                    copy@ == list@.subrange(0, k as int),
                decreases list.len() - k,
            {
                copy.push(list[k]);
                k = k + 1;
            }
            proof {
                assert(list@.subrange(0, list.len() as int) == list@);
            }
            big.push(copy);
            u = u + 1;
        }
        let mut all: Vec<usize> = Vec::new();
        let mut v: usize = 0;
        while v < n
            invariant
                v <= n,
                all@ == Seq::new(v as nat, |i: int| i as usize),
            decreases n - v,
        {
            all.push(v);
            v = v + 1;
            proof {
                assert(all@ =~= Seq::new(v as nat, |i: int| i as usize));
            }
        }
        big.push(all);
        let ghost back = self.back_edges();
        proof {
            assert forall|x: usize| #[trigger] big@[n as int]@.contains(x) <==> x < n by {
                if x < n {
                    assert(big@[n as int]@[x as int] == x);
                }
            }
            assert(with_root(back, big@, n));
            lemma_reverse_acyclic(self.edges(), back);
            lemma_root_acyclic(back, big@, n);
            assert(well_formed_adj(big@, (n + 1) as nat)) by {
                assert forall|a: int| 0 <= a < n + 1 implies (#[trigger] big@[a])@.no_duplicates() by {
                    if a < n {
                        assert(big@[a]@ == back[a]@);
                    }
                }
                assert forall|a: int, j: int| 0 <= a < n + 1 && 0 <= j < big@[a]@.len() implies (#[trigger] big@[a]@[j]) < n + 1 by {
                    if a < n {
                        assert(big@[a]@ == back[a]@);
                    }
                }
            }
        }
        let full = topological_order(&big, n + 1, n);
        proof {
            assert forall|x: usize| x < n implies full@.contains(x) by {
                assert(big@[n as int]@.contains(x));
                assert(has_edge(big@, n, x));
                lemma_reaches_refl(big@, n);
                lemma_reaches_step(big@, n, n, x);
            }
            assert(forall|i: int| 0 < i < full.len() ==> #[trigger] full@[i] != full@[0]);
        }
        let mut order: Vec<usize> = Vec::new();
        let mut i: usize = 1;
        while i < full.len()
            invariant
                1 <= i <= full.len(),
                full@[0] == n,
                full@.no_duplicates(),
                forall|k: int| 0 <= k < full.len() ==> full@[k] < n + 1,
                order@ == full@.subrange(1, i as int),
            decreases full.len() - i,
        {
            order.push(full[i]);
            i = i + 1;
        }
        proof {
            let o = order@;
            assert(o == full@.subrange(1, full.len() as int));
            assert forall|k: int| 0 <= k < o.len() implies o[k] < n by {
                assert(o[k] == full@[k + 1]);
            }
            assert forall|x: usize| x < n implies o.contains(x) by {
                assert(full@.contains(x));
                let k = choose|k: int| 0 <= k < full.len() && full@[k] == x;
                assert(k != 0);
                assert(o[k - 1] == x);
            }
            assert forall|a: int, b: int| 0 <= a < o.len() && 0 <= b < o.len()
                && #[trigger] self.depends_on(o[b], o[a]) implies a < b by {
                assert(has_edge(self.edges(), o[b], o[a]));
                assert(has_edge(back, o[a], o[b]));
                assert(big@[o[a] as int]@ == back[o[a] as int]@);
                assert(has_edge(big@, full@[a + 1], full@[b + 1]));
            }
        }
        order
    }

    /// Every node that depends on `start`, directly or not, with `start` itself first,
    /// ordered so that each node comes after every node of the list it depends on.
    pub fn topological_dependents(&self, start: usize) -> (order: Vec<usize>)
        requires
            self.inv(),
            start < self.size(),
        ensures
            order@.no_duplicates(),
            forall|v: usize| v < self.size() ==> (order@.contains(v) <==> self.depends_transitively(v, start)),
            forall|i: int| 0 <= i < order.len() ==> order@[i] < self.size(),
            forall|i: int, j: int| 0 <= i < order.len() && 0 <= j < order.len()
                && #[trigger] self.depends_on(order@[j], order@[i]) ==> i < j,
            order.len() > 0,
            order@[0] == start,
    {
        proof {
            lemma_reverse_acyclic(self.edges(), self.back_edges());
        }
        let order = topological_order(&self.dependents, self.n, start);
        proof {
            assert(is_reverse(self.back_edges(), self.edges()));
            assert forall|v: usize| v < self.size() implies (order@.contains(v) <==> self.depends_transitively(v, start)) by {
                if reaches(self.back_edges(), start, v) {
                    lemma_reverse_reaches(self.back_edges(), self.edges(), start, v);
                }
                if reaches(self.edges(), v, start) {
                    lemma_reverse_reaches(self.edges(), self.back_edges(), v, start);
                }
            }
            assert forall|i: int, j: int| 0 <= i < order.len() && 0 <= j < order.len()
                && #[trigger] self.depends_on(order@[j], order@[i]) implies i < j by {
                assert(has_edge(self.back_edges(), order@[i], order@[j]));
            }
        }
        order
    }
}

} // verus!
