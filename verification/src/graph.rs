//! An undirected graph over dense node indices and its bidirectional
//! breadth-first search.

use vstd::prelude::*;

verus! {

/// Adjacency lists by node index: the mathematical model of a [`Graph`].
pub type Links = Seq<Seq<usize>>;

/// `b` is listed as a neighbour of `a`.
pub open spec fn linked(g: Links, a: usize, b: usize) -> bool {
    a < g.len() && b < g.len() && g[a as int].contains(b)
}

/// Every listed neighbour is a node of the graph.
pub open spec fn well_formed(g: Links) -> bool {
    forall|a: int, j: int| 0 <= a < g.len() && 0 <= j < g[a].len() ==> (#[trigger] g[a][j]) < g.len()
}

/// Every link is listed from both of its ends.
pub open spec fn undirected(g: Links) -> bool {
    forall|a: usize, b: usize| #[trigger] linked(g, a, b) ==> linked(g, b, a)
}

/// `p` is a non-empty sequence of nodes in which each node is a listed
/// neighbour of the one before it.
pub open spec fn is_path(g: Links, p: Seq<usize>) -> bool {
    &&& p.len() > 0
    &&& forall|i: int| 0 <= i < p.len() ==> (#[trigger] p[i]) < g.len()
    &&& forall|i: int| 0 <= i < p.len() - 1 ==> linked(g, #[trigger] p[i], p[i + 1])
}

/// `p` is a path that starts at `s` and ends at `t`.
pub open spec fn joins(g: Links, p: Seq<usize>, s: usize, t: usize) -> bool {
    is_path(g, p) && p.first() == s && p.last() == t
}

/// Some path leads from `s` to `t`.
pub open spec fn connected(g: Links, s: usize, t: usize) -> bool {
    exists|p: Seq<usize>| joins(g, p, s, t)
}

/// `p` joins `s` to `t` and no path between them has fewer nodes.
pub open spec fn shortest(g: Links, p: Seq<usize>, s: usize, t: usize) -> bool {
    &&& joins(g, p, s, t)
    &&& forall|q: Seq<usize>| joins(g, q, s, t) ==> p.len() <= q.len()
}

/// The shortest paths from `s` to `t` have `d` links.
pub open spec fn apart_by(g: Links, s: usize, t: usize, d: nat) -> bool {
    exists|p: Seq<usize>| #[trigger] shortest(g, p, s, t) && p.len() == d + 1
}

/// `u` can be reached from `s` over at most `k` links.
pub open spec fn within(g: Links, s: usize, u: usize, k: nat) -> bool
    decreases k,
{
    if k == 0 {
        u == s && s < g.len()
    } else {
        within(g, s, u, (k - 1) as nat) || exists|m: usize|
            within(g, s, m, (k - 1) as nat) && #[trigger] linked(g, m, u)
    }
}

/// Reachability within a bound is monotone in the bound.
pub proof fn lemma_within_mono(g: Links, s: usize, u: usize, j: nat, k: nat)
    requires
        within(g, s, u, j),
        j <= k,
    ensures
        within(g, s, u, k),
    decreases k - j,
{
    if j < k {
        assert(within(g, s, u, j + 1));
        lemma_within_mono(g, s, u, j + 1, k);
    }
}

/// Whatever is within reach is a node of the graph, and so is the start.
pub proof fn lemma_within_bounds(g: Links, s: usize, u: usize, k: nat)
    requires
        within(g, s, u, k),
    ensures
        s < g.len(),
        u < g.len(),
    decreases k,
{
    if k > 0 {
        if within(g, s, u, (k - 1) as nat) {
            lemma_within_bounds(g, s, u, (k - 1) as nat);
        } else {
            let m = choose|m: usize| within(g, s, m, (k - 1) as nat) && #[trigger] linked(g, m, u);
            lemma_within_bounds(g, s, m, (k - 1) as nat);
        }
    }
}

/// A link in front of a bounded walk gives a walk bounded by one more.
pub proof fn lemma_within_prepend(g: Links, t: usize, m: usize, x: usize, k: nat)
    requires
        linked(g, t, m),
        within(g, m, x, k),
    ensures
        within(g, t, x, k + 1),
    decreases k,
{
    if k == 0 {
        assert(within(g, t, t, 0));
        assert(linked(g, t, x));
    } else {
        if within(g, m, x, (k - 1) as nat) {
            lemma_within_prepend(g, t, m, x, (k - 1) as nat);
        } else {
            let y = choose|y: usize| within(g, m, y, (k - 1) as nat) && #[trigger] linked(g, y, x);
            lemma_within_prepend(g, t, m, y, (k - 1) as nat);
            assert(linked(g, y, x));
        }
    }
}

/// In an undirected graph bounded reachability is symmetric.
pub proof fn lemma_within_symmetric(g: Links, s: usize, t: usize, k: nat)
    requires
        undirected(g),
        within(g, s, t, k),
    ensures
        within(g, t, s, k),
    decreases k,
{
    lemma_within_bounds(g, s, t, k);
    if k == 0 {
    } else {
        if within(g, s, t, (k - 1) as nat) {
            lemma_within_symmetric(g, s, t, (k - 1) as nat);
        } else {
            let m = choose|m: usize| within(g, s, m, (k - 1) as nat) && #[trigger] linked(g, m, t);
            lemma_within_symmetric(g, s, m, (k - 1) as nat);
            assert(linked(g, t, m));
            lemma_within_prepend(g, t, m, s, (k - 1) as nat);
        }
    }
}

/// A walk bounded by `a + b` passes a node within `a` of its start and
/// within `b` of its end.
pub proof fn lemma_within_split(g: Links, s: usize, t: usize, a: nat, b: nat) -> (x: usize)
    requires
        undirected(g),
        within(g, s, t, a + b),
    ensures
        within(g, s, x, a),
        within(g, t, x, b),
    decreases b,
{
    lemma_within_bounds(g, s, t, a + b);
    if b == 0 {
        assert(within(g, t, t, 0));
        t
    } else {
        if within(g, s, t, (a + b - 1) as nat) {
            let x = lemma_within_split(g, s, t, a, (b - 1) as nat);
            lemma_within_mono(g, t, x, (b - 1) as nat, b);
            x
        } else {
            let m = choose|m: usize| within(g, s, m, (a + b - 1) as nat) && #[trigger] linked(g, m, t);
            let x = lemma_within_split(g, s, m, a, (b - 1) as nat);
            assert(linked(g, t, m));
            lemma_within_prepend(g, t, m, x, (b - 1) as nat);
            x
        }
    }
}

/// The end of a path is within reach of its start, bounded by the number
/// of its links.
pub proof fn lemma_path_within(g: Links, p: Seq<usize>)
    requires
        is_path(g, p),
    ensures
        within(g, p.first(), p.last(), (p.len() - 1) as nat),
    decreases p.len(),
{
    if p.len() > 1 {
        let q = p.drop_last();
        assert(is_path(g, q)) by {
            assert forall|i: int| 0 <= i < q.len() - 1 implies linked(g, #[trigger] q[i], q[i + 1]) by {
                assert(q[i] == p[i]);
                assert(q[i + 1] == p[i + 1]);
            }
        }
        lemma_path_within(g, q);
        assert(q.first() == p.first());
        assert(q.last() == p[p.len() - 2]);
        assert(linked(g, p[p.len() - 2], p[p.len() - 2 + 1]));
        assert(linked(g, q.last(), p.last()));
    }
}


/// How the search came to a node.
#[derive(Clone, Copy, Debug, PartialEq, Eq)]
pub enum Step {
    /// The search has not come to the node.
    Unseen,
    /// The node is where the search began.
    Origin,
    /// The search came to the node from the given neighbour.
    Via(usize),
}

/// The search has come to node `u`.
pub open spec fn seen(steps: Seq<Step>, u: usize) -> bool {
    u < steps.len() && !(steps[u as int] is Unseen)
}

/// Following `steps` from node `from` arrives at `root` after exactly `k`
/// moves, each of them along a link of the graph.
pub open spec fn descends(g: Links, steps: Seq<Step>, from: usize, root: usize, k: nat) -> bool
    decreases k,
{
    &&& steps.len() == g.len()
    &&& from < g.len()
    &&& if k == 0 {
        from == root && steps[from as int] is Origin
    } else {
        steps[from as int] matches Step::Via(p) && linked(g, p, from) && descends(
            g,
            steps,
            p,
            root,
            (k - 1) as nat,
        )
    }
}

/// The marks of a search on `n` nodes that has come to no node.
pub open spec fn no_marks(n: nat) -> Seq<Step> {
    Seq::new(n, |i: int| Step::Unseen)
}

/// The marks of a search on `n` nodes that has come to its beginning
/// `root` and to no other node.
pub open spec fn start_marks(n: nat, root: usize) -> Seq<Step> {
    Seq::new(
        n,
        |i: int|
            if i == root {
                Step::Origin
            } else {
                Step::Unseen
            },
    )
}

/// The marks are those of a search that began at `root`: `root` is marked,
/// and from every marked node the steps lead back to `root` along links of
/// the graph.
pub open spec fn rooted(g: Links, steps: Seq<Step>, root: usize) -> bool {
    &&& steps.len() == g.len()
    &&& seen(steps, root)
    &&& forall|u: usize| #[trigger] seen(steps, u) ==> exists|k: nat| descends(g, steps, u, root, k)
}

/// The lists of a vector of neighbour lists, as a graph model.
pub open spec fn adjacency(rows: Seq<Vec<usize>>) -> Links {
    Seq::new(rows.len(), |i: int| rows[i]@)
}

/// The number of nodes the search has not come to.
pub open spec fn unseen_count(steps: Seq<Step>) -> nat
    decreases steps.len(),
{
    if steps.len() == 0 {
        0
    } else {
        unseen_count(steps.drop_last()) + if steps.last() is Unseen {
            1nat
        } else {
            0nat
        }
    }
}

proof fn lemma_mark(steps: Seq<Step>, w: int, step: Step)
    requires
        0 <= w < steps.len(),
        steps[w] is Unseen,
        !(step is Unseen),
    ensures
        unseen_count(steps.update(w, step)) + 1 == unseen_count(steps),
    decreases steps.len(),
{
    let marked = steps.update(w, step);
    if w == steps.len() - 1 {
        assert(marked.drop_last() =~= steps.drop_last());
    } else {
        assert(marked.drop_last() =~= steps.drop_last().update(w, step));
        lemma_mark(steps.drop_last(), w, step);
    }
}

// What holds of one side of the search while a level is being expanded:
// every node it has come to is within `level` of `root`, and its steps lead
// back to `root` along links.
spec fn grove(g: Links, steps: Seq<Step>, depth: Seq<nat>, root: usize, level: nat) -> bool {
    &&& steps.len() == g.len()
    &&& depth.len() == g.len()
    &&& root < g.len()
    &&& steps[root as int] is Origin
    &&& depth[root as int] == 0
    &&& forall|u: usize| #[trigger]
        seen(steps, u) ==> {
            &&& within(g, root, u, level)
            &&& depth[u as int] <= level
            &&& (steps[u as int] is Origin ==> u == root)
            &&& (steps[u as int] matches Step::Via(p) ==> seen(steps, p) && linked(g, p, u)
                && depth[u as int] == depth[p as int] + 1)
        }
}

// What holds of one side between levels: it has come to exactly the nodes
// within `level` of `root`.
spec fn tree(g: Links, steps: Seq<Step>, depth: Seq<nat>, root: usize, level: nat) -> bool {
    &&& grove(g, steps, depth, root, level)
    &&& forall|u: usize| #[trigger] within(g, root, u, level) ==> seen(steps, u)
}

// The frontier holds every node that is within `level` of `root` and no
// nearer, and nothing beyond that bound.
spec fn fringe(g: Links, root: usize, level: nat, frontier: Seq<usize>) -> bool {
    &&& forall|i: int| 0 <= i < frontier.len() ==> within(g, root, #[trigger] frontier[i], level)
    &&& forall|u: usize| #[trigger]
        within(g, root, u, level) && (level == 0 || !within(g, root, u, (level - 1) as nat))
            ==> frontier.contains(u)
}

// No node is within `a` of `s` and within `b` of `t`.
spec fn apart(g: Links, s: usize, a: nat, t: usize, b: nat) -> bool {
    forall|x: usize| !(#[trigger] within(g, s, x, a) && within(g, t, x, b))
}

proof fn lemma_rooted(g: Links, steps: Seq<Step>, depth: Seq<nat>, root: usize, level: nat)
    requires
        grove(g, steps, depth, root, level),
    ensures
        rooted(g, steps, root),
{
    assert forall|u: usize| #[trigger] seen(steps, u) implies exists|k: nat| descends(g, steps, u, root, k) by {
        lemma_descends(g, steps, depth, root, level, u);
    }
}

proof fn lemma_descends(g: Links, steps: Seq<Step>, depth: Seq<nat>, root: usize, level: nat, u: usize)
    requires
        grove(g, steps, depth, root, level),
        seen(steps, u),
    ensures
        descends(g, steps, u, root, depth[u as int]),
    decreases depth[u as int],
{
    match steps[u as int] {
        Step::Via(p) => {
            assert(seen(steps, p));
            lemma_descends(g, steps, depth, root, level, p);
        },
        _ => {},
    }
}

// Once a level adds no node, no further bound adds one.
proof fn lemma_closed(g: Links, s: usize, u: usize, level: nat, k: nat)
    requires
        forall|x: usize| #[trigger] within(g, s, x, level + 1) ==> within(g, s, x, level),
        within(g, s, u, k),
    ensures
        within(g, s, u, level),
    decreases k,
{
    if k <= level {
        lemma_within_mono(g, s, u, k, level);
    } else {
        if within(g, s, u, (k - 1) as nat) {
            lemma_closed(g, s, u, level, (k - 1) as nat);
        } else {
            let m = choose|m: usize| within(g, s, m, (k - 1) as nat) && #[trigger] linked(g, m, u);
            lemma_closed(g, s, m, level, (k - 1) as nat);
            assert(linked(g, m, u));
            assert(within(g, s, u, level + 1));
        }
    }
}

// While the two sides are apart, every path between the roots has more
// links than the two bounds together.
proof fn lemma_apart_bound(g: Links, s: usize, a: nat, t: usize, b: nat, q: Seq<usize>)
    requires
        undirected(g),
        apart(g, s, a, t, b),
        joins(g, q, s, t),
    ensures
        a + b + 2 <= q.len(),
{
    lemma_path_within(g, q);
    if q.len() - 1 <= a + b {
        lemma_within_mono(g, s, t, (q.len() - 1) as nat, a + b);
        let x = lemma_within_split(g, s, t, a, b);
        assert(within(g, s, x, a) && within(g, t, x, b));
    }
}


/// An undirected graph over the nodes `0..len()`, held as adjacency lists.
pub struct Graph {
    links: Vec<Vec<usize>>,
}

impl View for Graph {
    type V = Links;

    closed spec fn view(&self) -> Links {
        adjacency(self.links@)
    }
}

fn lists(list: &Vec<usize>, x: usize) -> (r: bool)
    ensures
        r == list@.contains(x),
{
    let mut i: usize = 0;
    while i < list.len()
        invariant
            i <= list.len(),
            forall|k: int| 0 <= k < i ==> list@[k] != x,
        decreases list.len() - i,
    {
        if list[i] == x {
            return true;
        }
        i += 1;
    }
    false
}

fn blank(n: usize) -> (r: Vec<Step>)
    ensures
        r@ == no_marks(n as nat),
        r@.len() == n,
        forall|u: usize| !seen(r@, u),
        unseen_count(r@) == n,
{
    let mut out: Vec<Step> = Vec::new();
    while out.len() < n
        invariant
            out@.len() <= n,
            forall|u: usize| !seen(out@, u),
            unseen_count(out@) == out@.len(),
        decreases n - out@.len(),
    {
        let ghost before = out@;
        out.push(Step::Unseen);
        assert(out@.drop_last() =~= before);
        assert forall|u: usize| !seen(out@, u) by {
            assert(!seen(before, u));
        }
    }
    proof {
        assert forall|i: int| 0 <= i < out@.len() implies out@[i] == Step::Unseen by {
            assert(!seen(out@, i as usize));
        }
        assert(out@ =~= no_marks(n as nat));
    }
    out
}

impl Graph {
    #[verifier::type_invariant]
    spec fn inv(self) -> bool {
        well_formed(adjacency(self.links@)) && undirected(adjacency(self.links@))
    }

    /// The graph with the given adjacency lists, where every listed
    /// neighbour is a node and every link is listed from both ends.
    pub fn new(links: Vec<Vec<usize>>) -> (r: Option<Graph>)
        ensures
            r is Some <==> well_formed(adjacency(links@)) && undirected(adjacency(links@)),
            r matches Some(g) ==> g@ == adjacency(links@),
    {
        let n = links.len();
        let ghost g = adjacency(links@);
        let mut a: usize = 0;
        while a < n
            invariant
                n == links@.len(),
                g == adjacency(links@),
                a <= n,
                forall|x: int, j: int|
                    0 <= x < a && 0 <= j < g[x].len() ==> (#[trigger] g[x][j]) < n && g[g[x][j] as int].contains(
                        x as usize,
                    ),
            decreases n - a,
        {
            let row = &links[a];
            let mut j: usize = 0;
            while j < row.len()
                invariant
                    n == links@.len(),
                    g == adjacency(links@),
                    a < n,
                    row@ == g[a as int],
                    j <= row@.len(),
                    forall|k: int|
                        0 <= k < j ==> (#[trigger] row@[k]) < n && g[row@[k] as int].contains(a),
                decreases row@.len() - j,
            {
                let b = row[j];
                if b >= n {
                    proof {
                        assert(g[a as int][j as int] == b);
                    }
                    return None;
                }
                if !lists(&links[b], a) {
                    proof {
                        assert(g[a as int][j as int] == b);
                        assert(linked(g, a, b));
                        assert(!linked(g, b, a));
                    }
                    return None;
                }
                j += 1;
            }
            a += 1;
        }
        proof {
            assert forall|x: usize, y: usize| #[trigger] linked(g, x, y) implies linked(g, y, x) by {
                let j = choose|j: int| 0 <= j < g[x as int].len() && g[x as int][j] == y;
                assert(g[x as int][j] == y);
            }
        }
        Some(Graph { links })
    }

    /// The number of nodes.
    pub fn len(&self) -> (n: usize)
        ensures
            n == self@.len(),
    {
        self.links.len()
    }

    /// The nodes that follow `node`: its listed neighbours.
    pub fn succ(&self, node: usize) -> (r: &Vec<usize>)
        requires
            node < self@.len(),
        ensures
            r@ == self@[node as int],
    {
        &self.links[node]
    }

    /// The nodes that precede `node`: in an undirected graph, its listed
    /// neighbours again.
    pub fn pred(&self, node: usize) -> (r: &Vec<usize>)
        requires
            node < self@.len(),
        ensures
            r@ == self@[node as int],
    {
        &self.links[node]
    }
}


impl Graph {
    // Expands one side of the search by one level: comes to every unseen
    // neighbour of the frontier, and stops at the first neighbour that the
    // other side has come to.
    fn expand(
        &self,
        current: &Vec<usize>,
        mine: &mut Vec<Step>,
        theirs: &Vec<Step>,
        Ghost(depth): Ghost<Seq<nat>>,
        Ghost(root): Ghost<usize>,
        Ghost(level): Ghost<nat>,
        Ghost(their_depth): Ghost<Seq<nat>>,
        Ghost(other): Ghost<usize>,
        Ghost(reach): Ghost<nat>,
    ) -> (r: (Vec<usize>, Option<usize>, Ghost<Seq<nat>>))
        requires
            tree(self@, old(mine)@, depth, root, level),
            fringe(self@, root, level, current@),
            tree(self@, theirs@, their_depth, other, reach),
            apart(self@, root, level, other, reach),
        ensures
            grove(self@, final(mine)@, r.2@, root, level + 1),
            match r.1 {
                Some(w) => seen(final(mine)@, w) && seen(theirs@, w),
                None => {
                    &&& tree(self@, final(mine)@, r.2@, root, level + 1)
                    &&& fringe(self@, root, level + 1, r.0@)
                    &&& apart(self@, root, level + 1, other, reach)
                    &&& unseen_count(final(mine)@) + r.0@.len() == unseen_count(old(mine)@)
                },
            },
    {
        let ghost g = self@;
        let ghost before = mine@;
        let ghost mut d = depth;
        proof {
            use_type_invariant(self);
            assert forall|u: usize| #[trigger] seen(before, u) implies within(g, root, u, level + 1) by {
                lemma_within_mono(g, root, u, level, level + 1);
            }
        }
        let mut next: Vec<usize> = Vec::new();
        let mut i: usize = 0;
        while i < current.len()
            invariant
                g == self@,
                g == adjacency(self.links@),
                well_formed(g),
                i <= current@.len(),
                tree(g, before, depth, root, level),
                fringe(g, root, level, current@),
                tree(g, theirs@, their_depth, other, reach),
                grove(g, mine@, d, root, level + 1),
                forall|u: usize| #[trigger] seen(before, u) ==> seen(mine@, u) && d[u as int] == depth[u as int],
                forall|u: usize| #[trigger] seen(mine@, u) ==> seen(before, u) || next@.contains(u),
                forall|k: int|
                    0 <= k < next@.len() ==> !seen(before, #[trigger] next@[k]) && seen(mine@, next@[k])
                        && !seen(theirs@, next@[k]),
                unseen_count(mine@) + next@.len() == unseen_count(before),
                forall|k: int, w: usize|
                    0 <= k < i && #[trigger] linked(g, current@[k], w) ==> seen(mine@, w),
            decreases current@.len() - i,
        {
            let v = current[i];
            assert(within(g, root, current@[i as int], level));
            assert(seen(before, v));
            let row = &self.links[v];
            let mut j: usize = 0;
            while j < row.len()
                invariant
                    g == self@,
                    g == adjacency(self.links@),
                    well_formed(g),
                    i < current@.len(),
                    v == current@[i as int],
                    v < g.len(),
                    row@ == g[v as int],
                    j <= row@.len(),
                    within(g, root, v, level),
                    seen(before, v),
                    tree(g, before, depth, root, level),
                    fringe(g, root, level, current@),
                    tree(g, theirs@, their_depth, other, reach),
                    grove(g, mine@, d, root, level + 1),
                    forall|u: usize| #[trigger] seen(before, u) ==> seen(mine@, u) && d[u as int] == depth[u as int],
                    forall|u: usize| #[trigger] seen(mine@, u) ==> seen(before, u) || next@.contains(u),
                    forall|k: int|
                        0 <= k < next@.len() ==> !seen(before, #[trigger] next@[k]) && seen(
                            mine@,
                            next@[k],
                        ) && !seen(theirs@, next@[k]),
                    unseen_count(mine@) + next@.len() == unseen_count(before),
                    forall|k: int, w: usize|
                        0 <= k < i && #[trigger] linked(g, current@[k], w) ==> seen(mine@, w),
                    forall|k: int| 0 <= k < j ==> seen(mine@, #[trigger] row@[k]),
                decreases row@.len() - j,
            {
                let w = row[j];
                assert(g[v as int][j as int] == w);
                assert(linked(g, v, w));
                let mut met = true;
                match theirs[w] {
                    Step::Unseen => {
                        met = false;
                    },
                    _ => {},
                }
                let mut found = false;
                match mine[w] {
                    Step::Unseen => {
                        found = true;
                    },
                    _ => {},
                }
                if found {
                    let ghost steps = mine@;
                    let ghost marks = next@;
                    let ghost old_d = d;
                    next.push(w);
                    mine.set(w, Step::Via(v));
                    proof {
                        d = old_d.update(w as int, old_d[v as int] + 1);
                        lemma_mark(steps, w as int, Step::Via(v));
                        assert(!seen(steps, w));
                        assert(!seen(before, w));
                        assert(within(g, root, w, level + 1));
                        assert forall|u: usize| #[trigger] seen(mine@, u) implies {
                            &&& within(g, root, u, level + 1)
                            &&& d[u as int] <= level + 1
                            &&& (mine@[u as int] is Origin ==> u == root)
                            &&& (mine@[u as int] matches Step::Via(p) ==> seen(mine@, p) && linked(g, p, u)
                                && d[u as int] == d[p as int] + 1)
                        } by {
                            if u != w {
                                assert(seen(steps, u));
                                match steps[u as int] {
                                    Step::Via(p) => {
                                        assert(seen(steps, p));
                                    },
                                    _ => {},
                                }
                            }
                        }
                        assert forall|u: usize| #[trigger] seen(mine@, u) implies seen(before, u)
                            || next@.contains(u) by {
                            if u == w {
                                assert(next@[marks.len() as int] == w);
                            } else {
                                assert(seen(steps, u));
                                if !seen(before, u) {
                                    let k = choose|k: int| 0 <= k < marks.len() && marks[k] == u;
                                    assert(next@[k] == u);
                                }
                            }
                        }
                        if !met {
                            assert forall|k: int| 0 <= k < next@.len() implies !seen(
                                before,
                                #[trigger] next@[k],
                            ) && seen(mine@, next@[k]) && !seen(theirs@, next@[k]) by {
                                if k < marks.len() {
                                    assert(next@[k] == marks[k]);
                                    assert(seen(steps, marks[k]));
                                }
                            }
                        }
                        assert forall|k: int, x: usize|
                            0 <= k < i && #[trigger] linked(g, current@[k], x) implies seen(mine@, x) by {
                            assert(seen(steps, x));
                        }
                        assert forall|k: int| 0 <= k < j implies seen(mine@, #[trigger] row@[k]) by {
                            assert(seen(steps, row@[k]));
                        }
                        assert forall|u: usize| #[trigger] seen(before, u) implies seen(mine@, u) && d[u as int]
                            == depth[u as int] by {
                            assert(seen(steps, u));
                        }
                    }
                }
                if met {
                    return (next, Some(w), Ghost(d));
                }
                j += 1;
            }
            proof {
                assert forall|k: int, x: usize|
                    0 <= k < i + 1 && #[trigger] linked(g, current@[k], x) implies seen(mine@, x) by {
                    if k == i {
                        let c = choose|c: int| 0 <= c < row@.len() && row@[c] == x;
                        assert(seen(mine@, row@[c]));
                    }
                }
            }
            i += 1;
        }
        proof {
            assert forall|u: usize| #[trigger] within(g, root, u, level + 1) implies seen(mine@, u) by {
                if within(g, root, u, level) {
                    assert(seen(before, u));
                } else {
                    let m = choose|m: usize| within(g, root, m, level) && #[trigger] linked(g, m, u);
                    if level == 0 || !within(g, root, m, (level - 1) as nat) {
                        assert(current@.contains(m));
                        let k = choose|k: int| 0 <= k < current@.len() && current@[k] == m;
                        assert(linked(g, current@[k], u));
                    } else {
                        assert(linked(g, m, u));
                        assert(within(g, root, u, level));
                    }
                }
            }
            assert forall|u: usize| #[trigger]
                within(g, root, u, level + 1) && !within(g, root, u, level) implies next@.contains(u) by {
                assert(seen(mine@, u));
                if seen(before, u) {
                    assert(within(g, root, u, level));
                }
            }
            assert forall|k: int| 0 <= k < next@.len() implies within(g, root, #[trigger] next@[k], level + 1) by {
                assert(seen(mine@, next@[k]));
            }
            assert forall|x: usize|
                !(#[trigger] within(g, root, x, level + 1) && within(g, other, x, reach)) by {
                if within(g, root, x, level + 1) && within(g, other, x, reach) {
                    assert(seen(mine@, x));
                    assert(seen(theirs@, x));
                    if seen(before, x) {
                        assert(within(g, root, x, level));
                    } else {
                        let k = choose|k: int| 0 <= k < next@.len() && next@[k] == x;
                        assert(!seen(theirs@, next@[k]));
                    }
                }
            }
        }
        (next, None, Ghost(d))
    }
}


/// The two sides of a search met at `w`: `pred` leads from `w` back to `s`
/// in `kf` moves, `succ` leads from `w` on to `t` in `kb` moves, and no path
/// from `s` to `t` has fewer links than the two together.
pub open spec fn meets(
    g: Links,
    pred: Seq<Step>,
    succ: Seq<Step>,
    w: usize,
    s: usize,
    t: usize,
    kf: nat,
    kb: nat,
) -> bool {
    &&& descends(g, pred, w, s, kf)
    &&& descends(g, succ, w, t, kb)
    &&& forall|q: Seq<usize>| joins(g, q, s, t) ==> kf + kb + 1 <= q.len()
}

proof fn lemma_roots(g: Links, steps: Seq<Step>, root: usize, other: usize)
    requires
        root < g.len(),
        other < g.len(),
        root != other,
        steps.len() == g.len(),
        steps[root as int] is Origin,
        forall|u: usize| u != root ==> !seen(steps, u),
    ensures
        tree(g, steps, Seq::new(g.len(), |i: int| 0nat), root, 0),
        fringe(g, root, 0, seq![root]),
        apart(g, root, 0, other, 0),
{
    assert(seq![root][0] == root);
    assert forall|u: usize| #[trigger] within(g, root, u, 0) implies seq![root].contains(u) by {
        assert(seq![root][0] == u);
    }
}

impl Graph {
    /// Searches breadth first from both ends at once, each time expanding
    /// the side whose frontier is smaller, until one side comes to a node
    /// that the other has already seen. Returns how each side came to its
    /// nodes and the node where they met, or no node when `source` and
    /// `destination` are not connected.
    ///
    /// Every node that a side has marked leads back to the beginning of
    /// that side. Where `source` is `destination`, each side has come to
    /// that node alone; where either is no node of the graph, neither side
    /// has come to any node.
    pub fn walk(&self, source: usize, destination: usize) -> (r: (Vec<Step>, Vec<Step>, Option<usize>))
        ensures
            match r.2 {
                Some(w) => exists|kf: nat, kb: nat| meets(self@, r.0@, r.1@, w, source, destination, kf, kb),
                None => !connected(self@, source, destination),
            },
            source < self@.len() && destination < self@.len() ==> rooted(self@, r.0@, source) && rooted(
                self@,
                r.1@,
                destination,
            ),
            source >= self@.len() || destination >= self@.len() ==> r.0@ == no_marks(self@.len()) && r.1@
                == no_marks(self@.len()) && r.2 is None,
            source == destination && source < self@.len() ==> r.0@ == start_marks(self@.len(), source) && r.1@
                == start_marks(self@.len(), source) && r.2 == Some(source),
    {
        let n = self.links.len();
        let ghost g = self@;
        proof {
            use_type_invariant(self);
        }
        let mut pred = blank(n);
        let mut succ = blank(n);
        if source >= n || destination >= n {
            proof {
                assert forall|q: Seq<usize>| !joins(g, q, source, destination) by {
                    if joins(g, q, source, destination) {
                        assert(q[0] < g.len());
                        assert(q[q.len() - 1] < g.len());
                    }
                }
            }
            let r = (pred, succ, None);
            assert(r.0@ == no_marks(g.len()) && r.1@ == no_marks(g.len()));
            return r;
        }
        let ghost blank_pred = pred@;
        let ghost blank_succ = succ@;
        pred.set(source, Step::Origin);
        succ.set(destination, Step::Origin);
        proof {
            assert forall|u: usize| u != source implies !seen(pred@, u) by {
                assert(!seen(blank_pred, u));
            }
            assert forall|u: usize| u != destination implies !seen(succ@, u) by {
                assert(!seen(blank_succ, u));
            }
        }
        if source == destination {
            let r = (pred, succ, Some(source));
            proof {
                assert(r.2 matches Some(w) && meets(g, r.0@, r.1@, w, source, destination, 0, 0));
                assert(r.0@ =~= start_marks(g.len(), source));
                assert(r.1@ =~= start_marks(g.len(), source));
                assert forall|u: usize| #[trigger] seen(r.0@, u) implies exists|k: nat|
                    descends(g, r.0@, u, source, k) by {
                    assert(descends(g, r.0@, source, source, 0));
                }
                assert(rooted(g, r.0@, source));
                assert(rooted(g, r.1@, source));
            }
            return r;
        }
        let mut forward: Vec<usize> = Vec::new();
        forward.push(source);
        let mut backward: Vec<usize> = Vec::new();
        backward.push(destination);
        let ghost mut a: nat = 0;
        let ghost mut b: nat = 0;
        let ghost mut df: Seq<nat> = Seq::new(g.len(), |i: int| 0nat);
        let ghost mut db: Seq<nat> = Seq::new(g.len(), |i: int| 0nat);
        proof {
            lemma_roots(g, pred@, source, destination);
            lemma_roots(g, succ@, destination, source);
            assert(forward@ =~= seq![source]);
            assert(backward@ =~= seq![destination]);
        }
        loop
            invariant
                g == self@,
                undirected(g),
                source < g.len(),
                destination < g.len(),
                source != destination,
                tree(g, pred@, df, source, a),
                tree(g, succ@, db, destination, b),
                fringe(g, source, a, forward@),
                fringe(g, destination, b, backward@),
                apart(g, source, a, destination, b),
            decreases unseen_count(pred@) + unseen_count(succ@),
        {
            if forward.len() <= backward.len() {
                let (next, met, d) = self.expand(
                    &forward,
                    &mut pred,
                    &succ,
                    Ghost(df),
                    Ghost(source),
                    Ghost(a),
                    Ghost(db),
                    Ghost(destination),
                    Ghost(b),
                );
                match met {
                    Some(w) => {
                        proof {
                            lemma_descends(g, pred@, d@, source, a + 1, w);
                            lemma_descends(g, succ@, db, destination, b, w);
                            assert forall|q: Seq<usize>| joins(g, q, source, destination) implies d@[w as int]
                                + db[w as int] + 1 <= q.len() by {
                                lemma_apart_bound(g, source, a, destination, b, q);
                            }
                        }
                        proof {
                            lemma_rooted(g, pred@, d@, source, a + 1);
                            lemma_rooted(g, succ@, db, destination, b);
                        }
                        let r = (pred, succ, Some(w));
                        proof {
                            assert(r.2 matches Some(x) && meets(
                                g,
                                r.0@,
                                r.1@,
                                x,
                                source,
                                destination,
                                d@[w as int],
                                db[w as int],
                            ));
                            assert(rooted(g, r.0@, source) && rooted(g, r.1@, destination));
                        }
                        return r;
                    },
                    None => {},
                }
                if next.len() == 0 {
                    proof {
                        assert forall|q: Seq<usize>| !joins(g, q, source, destination) by {
                            if joins(g, q, source, destination) {
                                lemma_path_within(g, q);
                                lemma_closed(g, source, destination, a, (q.len() - 1) as nat);
                                lemma_within_mono(g, source, destination, a, a + 1);
                                assert(within(g, destination, destination, 0));
                                lemma_within_mono(g, destination, destination, 0, b);
                            }
                        }
                        lemma_rooted(g, pred@, d@, source, a + 1);
                        lemma_rooted(g, succ@, db, destination, b);
                    }
                    let r = (pred, succ, None);
                    assert(rooted(g, r.0@, source) && rooted(g, r.1@, destination));
                    return r;
                }
                forward = next;
                proof {
                    a = a + 1;
                    df = d@;
                }
            } else {
                proof {
                    assert forall|x: usize|
                        !(#[trigger] within(g, destination, x, b) && within(g, source, x, a)) by {
                        if within(g, source, x, a) && within(g, destination, x, b) {
                        }
                    }
                }
                let (next, met, d) = self.expand(
                    &backward,
                    &mut succ,
                    &pred,
                    Ghost(db),
                    Ghost(destination),
                    Ghost(b),
                    Ghost(df),
                    Ghost(source),
                    Ghost(a),
                );
                match met {
                    Some(w) => {
                        proof {
                            lemma_descends(g, pred@, df, source, a, w);
                            lemma_descends(g, succ@, d@, destination, b + 1, w);
                            assert forall|q: Seq<usize>| joins(g, q, source, destination) implies df[w as int]
                                + d@[w as int] + 1 <= q.len() by {
                                lemma_apart_bound(g, source, a, destination, b, q);
                            }
                        }
                        proof {
                            lemma_rooted(g, pred@, df, source, a);
                            lemma_rooted(g, succ@, d@, destination, b + 1);
                        }
                        let r = (pred, succ, Some(w));
                        proof {
                            assert(r.2 matches Some(x) && meets(
                                g,
                                r.0@,
                                r.1@,
                                x,
                                source,
                                destination,
                                df[w as int],
                                d@[w as int],
                            ));
                            assert(rooted(g, r.0@, source) && rooted(g, r.1@, destination));
                        }
                        return r;
                    },
                    None => {},
                }
                if next.len() == 0 {
                    proof {
                        assert forall|q: Seq<usize>| !joins(g, q, source, destination) by {
                            if joins(g, q, source, destination) {
                                lemma_path_within(g, q);
                                lemma_within_symmetric(g, source, destination, (q.len() - 1) as nat);
                                lemma_closed(g, destination, source, b, (q.len() - 1) as nat);
                                lemma_within_mono(g, destination, source, b, b + 1);
                                assert(within(g, source, source, 0));
                                lemma_within_mono(g, source, source, 0, a);
                            }
                        }
                        lemma_rooted(g, pred@, df, source, a);
                        lemma_rooted(g, succ@, d@, destination, b + 1);
                    }
                    let r = (pred, succ, None);
                    assert(rooted(g, r.0@, source) && rooted(g, r.1@, destination));
                    return r;
                }
                backward = next;
                proof {
                    b = b + 1;
                    db = d@;
                    assert forall|x: usize|
                        !(#[trigger] within(g, source, x, a) && within(g, destination, x, b)) by {
                        if within(g, destination, x, b) && within(g, source, x, a) {
                        }
                    }
                }
            }
        }
    }
}


impl Graph {
    /// A shortest path from `source` to `destination`, both ends included,
    /// or `None` when the two are not connected. The path leads from the
    /// meeting node of [`Graph::walk`] back to `source` and on to
    /// `destination`.
    pub fn route(&self, source: usize, destination: usize) -> (r: Option<Vec<usize>>)
        ensures
            match r {
                Some(p) => shortest(self@, p@, source, destination),
                None => !connected(self@, source, destination),
            },
    {
        let ghost g = self@;
        proof {
            use_type_invariant(self);
        }
        let (pred, succ, met) = self.walk(source, destination);
        let w = match met {
            Some(w) => w,
            None => {
                return None;
            },
        };
        let ghost (kf, kb) = choose|kf: nat, kb: nat| meets(g, pred@, succ@, w, source, destination, kf, kb);
        let mut back: Vec<usize> = Vec::new();
        let mut node = w;
        let ghost mut left = kf;
        loop
            invariant
                descends(g, pred@, node, source, left),
                back@.len() + left == kf,
                forall|i: int| 0 <= i < back@.len() ==> (#[trigger] back@[i]) < g.len(),
                forall|i: int| 0 <= i < back@.len() - 1 ==> linked(g, back@[i + 1], #[trigger] back@[i]),
                back@.len() > 0 ==> back@[0] == w && linked(g, node, back@[back@.len() - 1]),
                back@.len() == 0 ==> node == w,
            ensures
                left == 0,
            decreases left,
        {
            match pred[node] {
                Step::Via(p) => {
                    back.push(node);
                    node = p;
                    proof {
                        left = (left - 1) as nat;
                    }
                },
                _ => {
                    break ;
                },
            }
        }
        let mut path: Vec<usize> = Vec::new();
        path.push(node);
        let mut i: usize = back.len();
        while i > 0
            invariant
                i <= back@.len(),
                node == source,
                node < g.len(),
                path@.len() == back@.len() - i + 1,
                is_path(g, path@),
                path@[0] == source,
                path@[path@.len() - 1] == (if i == back@.len() {
                    node
                } else {
                    back@[i as int]
                }),
                forall|k: int| 0 <= k < back@.len() ==> (#[trigger] back@[k]) < g.len(),
                forall|k: int| 0 <= k < back@.len() - 1 ==> linked(g, back@[k + 1], #[trigger] back@[k]),
                back@.len() > 0 ==> linked(g, node, back@[back@.len() - 1]),
            decreases i,
        {
            i -= 1;
            let ghost before = path@;
            path.push(back[i]);
            proof {
                assert forall|k: int| 0 <= k < path@.len() - 1 implies linked(g, #[trigger] path@[k], path@[k + 1]) by {
                    if k < before.len() - 1 {
                        assert(path@[k] == before[k]);
                        assert(path@[k + 1] == before[k + 1]);
                    } else {
                        assert(path@[k] == before[before.len() - 1]);
                        assert(path@[k + 1] == back@[i as int]);
                    }
                }
            }
        }
        let mut node = w;
        let ghost mut left = kb;
        loop
            invariant
                undirected(g),
                descends(g, succ@, node, destination, left),
                is_path(g, path@),
                path@[0] == source,
                path@[path@.len() - 1] == node,
                path@.len() + left == kf + 1 + kb,
            ensures
                left == 0,
            decreases left,
        {
            match succ[node] {
                Step::Via(p) => {
                    let ghost before = path@;
                    path.push(p);
                    proof {
                        assert(linked(g, p, node));
                        assert(linked(g, node, p));
                        assert forall|k: int| 0 <= k < path@.len() - 1 implies linked(
                            g,
                            #[trigger] path@[k],
                            path@[k + 1],
                        ) by {
                            if k < before.len() - 1 {
                                assert(path@[k] == before[k]);
                                assert(path@[k + 1] == before[k + 1]);
                            }
                        }
                        left = (left - 1) as nat;
                    }
                    node = p;
                },
                _ => {
                    break ;
                },
            }
        }
        Some(path)
    }
}


/// In an undirected graph a path read backwards is a path.
pub proof fn lemma_reverse_path(g: Links, p: Seq<usize>)
    requires
        undirected(g),
        is_path(g, p),
    ensures
        is_path(g, p.reverse()),
        p.reverse().first() == p.last(),
        p.reverse().last() == p.first(),
{
    let r = p.reverse();
    assert forall|i: int| 0 <= i < r.len() implies (#[trigger] r[i]) < g.len() by {
        assert(r[i] == p[p.len() - 1 - i]);
    }
    assert forall|i: int| 0 <= i < r.len() - 1 implies linked(g, #[trigger] r[i], r[i + 1]) by {
        let j = p.len() - 2 - i;
        assert(r[i] == p[j + 1]);
        assert(r[i + 1] == p[j]);
        assert(linked(g, p[j], p[j + 1]));
    }
}

/// Shortest paths in the two directions between two nodes of an undirected
/// graph have the same length.
pub proof fn lemma_shortest_symmetric(g: Links, p: Seq<usize>, q: Seq<usize>, s: usize, t: usize)
    requires
        undirected(g),
        shortest(g, p, s, t),
        shortest(g, q, t, s),
    ensures
        p.len() == q.len(),
{
    lemma_reverse_path(g, p);
    lemma_reverse_path(g, q);
    assert(joins(g, p.reverse(), t, s));
    assert(joins(g, q.reverse(), s, t));
}

/// A shortest path never holds the same node twice in a row.
pub proof fn lemma_shortest_no_repeat(g: Links, p: Seq<usize>, s: usize, t: usize, i: int)
    requires
        shortest(g, p, s, t),
        0 <= i < p.len() - 1,
    ensures
        p[i] != p[i + 1],
{
    if p[i] == p[i + 1] {
        let q = p.remove(i);
        assert forall|k: int| 0 <= k < q.len() implies (#[trigger] q[k]) < g.len() by {
            if k < i {
                assert(q[k] == p[k]);
            } else {
                assert(q[k] == p[k + 1]);
            }
        }
        assert forall|k: int| 0 <= k < q.len() - 1 implies linked(g, #[trigger] q[k], q[k + 1]) by {
            if k + 1 < i {
                assert(q[k] == p[k]);
                assert(q[k + 1] == p[k + 1]);
            } else if k + 1 == i {
                assert(q[k] == p[k]);
                assert(q[k + 1] == p[i + 1]);
                assert(linked(g, p[k], p[k + 1]));
            } else {
                assert(q[k] == p[k + 1]);
                assert(q[k + 1] == p[k + 2]);
                assert(linked(g, p[k + 1], p[k + 1 + 1]));
            }
        }
        assert(q.first() == s) by {
            if i == 0 {
                assert(q[0] == p[1]);
            } else {
                assert(q[0] == p[0]);
            }
        }
        assert(q.last() == t) by {
            assert(q[q.len() - 1] == p[p.len() - 1]);
        }
        assert(joins(g, q, s, t));
    }
}

/// The shortest path from a node to itself is that node alone.
pub proof fn lemma_shortest_to_self(g: Links, p: Seq<usize>, s: usize)
    requires
        shortest(g, p, s, s),
    ensures
        p == seq![s],
{
    let q = seq![s];
    assert(q[0] == s);
    assert(joins(g, q, s, s));
    assert(p =~= q);
}

} // verus!
