//! Clusters of things that are joined pair by pair.
use vstd::prelude::*;

verus! {

/// A forest whose trees are the clusters. Each member points towards the root of its tree.
pub struct Forest {
    parent: Vec<usize>,
    root: Ghost<Seq<int>>,
    depth: Ghost<Seq<nat>>,
}

/// Everyone for itself.
pub open spec fn apart(n: nat) -> Seq<int> {
    Seq::new(n, |x: int| x)
}

/// The roots after the clusters of `a` and `b` were joined: everyone in the cluster of `a`
/// now has the root of `b`.
pub open spec fn joined(roots: Seq<int>, a: int, b: int) -> Seq<int> {
    Seq::new(
        roots.len(),
        |x: int|
            if roots[x] == roots[a] {
                roots[b]
            } else {
                roots[x]
            },
    )
}

impl View for Forest {
    type V = Seq<int>;

    /// The root of each member.
    closed spec fn view(&self) -> Seq<int> {
        self.root@
    }
}

spec fn is_forest(parent: Seq<usize>, root: Seq<int>, depth: Seq<nat>) -> bool {
    &&& root.len() == parent.len()
    &&& depth.len() == parent.len()
    &&& forall|x: int|
        0 <= x < parent.len() ==> {
            &&& (#[trigger] parent[x]) < parent.len()
            &&& root[parent[x] as int] == root[x]
            &&& parent[x] == x ==> root[x] == x
            &&& parent[x] != x ==> depth[parent[x] as int] < depth[x]
        }
    &&& forall|x: int|
        0 <= x < parent.len() ==> {
            &&& 0 <= (#[trigger] root[x]) < parent.len()
            &&& parent[root[x]] == root[x]
        }
}

impl Forest {
    /// The members point to their roots.
    pub closed spec fn wf(&self) -> bool {
        is_forest(self.parent@, self.root@, self.depth@)
    }

    /// A forest of `n` members, everyone for itself.
    pub fn new(n: usize) -> (forest: Forest)
        ensures
            forest.wf(),
            forest@ == apart(n as nat),
    {
        let mut parent: Vec<usize> = Vec::new();
        let mut i: usize = 0;
        while i < n
            invariant
                i <= n,
                parent@.len() == i,
                forall|x: int| 0 <= x < i ==> #[trigger] parent@[x] == x,
            decreases n - i,
        {
            parent.push(i);
            i += 1;
        }
        Forest {
            parent,
            root: Ghost(apart(n as nat)),
            depth: Ghost(Seq::new(n as nat, |x: int| 0nat)),
        }
    }

    /// The root of a member. The way there is shortened.
    pub fn find(&mut self, x: usize) -> (root: usize)
        requires
            old(self).wf(),
            x < old(self)@.len(),
        ensures
            final(self).wf(),
            final(self)@ == old(self)@,
            root == old(self)@[x as int],
            root < old(self)@.len(),
    {
        let mut at: usize = x;
        while self.parent[at] != at
            invariant
                self.wf(),
                self@ == old(self)@,
                at < self.parent@.len(),
                self.parent@.len() == self@.len(),
                self@[at as int] == old(self)@[x as int],
            decreases self.depth@[at as int],
        {
            let above: usize = self.parent[at];
            let next: usize = self.parent[above];
            let ghost before = self.parent@;
            let ghost depth = self.depth@;
            assert(self.root@[above as int] == self.root@[at as int]);
            assert(self.root@[next as int] == self.root@[above as int]);
            assert(depth[above as int] < depth[at as int]);
            assert(next == above || depth[next as int] < depth[above as int]);
            self.parent.set(at, next);
            assert(is_forest(self.parent@, self.root@, self.depth@)) by {
                assert forall|y: int| 0 <= y < before.len() implies self.parent@[
                    #[trigger] self.root@[y]
                ] == self.root@[y] by {
                    assert(before[self.root@[y]] == self.root@[y]);
                }
                assert forall|y: int| 0 <= y < before.len() implies {
                    &&& (#[trigger] self.parent@[y]) < before.len()
                    &&& self.root@[self.parent@[y] as int] == self.root@[y]
                    &&& self.parent@[y] == y ==> self.root@[y] == y
                    &&& self.parent@[y] != y ==> self.depth@[self.parent@[y] as int]
                        < self.depth@[y]
                } by {
                    assert(before[y] < before.len());
                }
            }
            at = next;
        }
        at
    }

    /// Joins the clusters of two members.
    pub fn join(&mut self, a: usize, b: usize)
        requires
            old(self).wf(),
            a < old(self)@.len(),
            b < old(self)@.len(),
        ensures
            final(self).wf(),
            final(self)@ == joined(old(self)@, a as int, b as int),
    {
        let ra: usize = self.find(a);
        let rb: usize = self.find(b);
        let ghost parent = self.parent@;
        let ghost root = self.root@;
        let ghost depth = self.depth@;
        self.parent.set(ra, rb);
        proof {
            let new_root = joined(root, a as int, b as int);
            if ra == rb {
                assert(parent[ra as int] == ra);
                assert(self.parent@ =~= parent);
                assert(new_root =~= root);
            } else {
                let new_depth = Seq::new(
                    depth.len(),
                    |x: int|
                        if root[x] == ra {
                            depth[x] + depth[rb as int] + 1
                        } else {
                            depth[x]
                        },
                );
                assert(parent[ra as int] == ra && root[ra as int] == ra);
                assert(parent[rb as int] == rb && root[rb as int] == rb);
                assert forall|x: int| 0 <= x < parent.len() implies {
                    &&& (#[trigger] self.parent@[x]) < parent.len()
                    &&& new_root[self.parent@[x] as int] == new_root[x]
                    &&& self.parent@[x] == x ==> new_root[x] == x
                    &&& self.parent@[x] != x ==> new_depth[self.parent@[x] as int] < new_depth[x]
                } by {
                    assert(parent[x] < parent.len());
                }
                assert forall|x: int| 0 <= x < parent.len() implies {
                    &&& 0 <= (#[trigger] new_root[x]) < parent.len()
                    &&& self.parent@[new_root[x]] == new_root[x]
                } by {
                    assert(parent[root[x]] == root[x]);
                }
                self.root@ = new_root;
                self.depth@ = new_depth;
            }
        }
    }
}

/// The roots after `i` was compared with the members from `i + 1` up to before `j`.
pub open spec fn row_joined(
    related: spec_fn(int, int) -> bool,
    roots: Seq<int>,
    i: int,
    j: int,
) -> Seq<int>
    decreases j,
{
    if j <= i + 1 || j <= 0 {
        roots
    } else {
        let before = row_joined(related, roots, i, j - 1);
        if related(i, j - 1) {
            joined(before, i, j - 1)
        } else {
            before
        }
    }
}

/// The roots after each of the first `i` of `n` members was compared with all later ones.
pub open spec fn all_joined(related: spec_fn(int, int) -> bool, n: nat, i: int) -> Seq<int>
    decreases i,
{
    if i <= 0 {
        apart(n)
    } else {
        row_joined(related, all_joined(related, n, i - 1), i - 1, n as int)
    }
}

/// Two members are related, the earlier one taken first.
pub open spec fn linked(related: spec_fn(int, int) -> bool, a: int, b: int) -> bool {
    (a < b && related(a, b)) || (b < a && related(b, a))
}

/// Each member of the path is related to the next.
pub open spec fn is_chain(related: spec_fn(int, int) -> bool, n: nat, path: Seq<int>) -> bool {
    &&& path.len() > 0
    &&& forall|k: int| 0 <= k < path.len() ==> 0 <= #[trigger] path[k] < n
    &&& forall|k: int|
        0 < k < path.len() ==> linked(related, path[k - 1], #[trigger] path[k])
}

/// A chain of related members leads from one to the other.
pub open spec fn chained(related: spec_fn(int, int) -> bool, n: nat, a: int, b: int) -> bool {
    exists|path: Seq<int>| #[trigger]
        is_chain(related, n, path) && path[0] == a && path.last() == b
}

pub proof fn lemma_chain_joins(related: spec_fn(int, int) -> bool, n: nat, a: int, b: int, c: int)
    requires
        chained(related, n, a, b),
        chained(related, n, b, c),
    ensures
        chained(related, n, a, c),
{
    let p = choose|p: Seq<int>| #[trigger]
        is_chain(related, n, p) && p[0] == a && p.last() == b;
    let q = choose|q: Seq<int>| #[trigger]
        is_chain(related, n, q) && q[0] == b && q.last() == c;
    let r = p + q.skip(1);
    assert forall|k: int| 0 < k < r.len() implies linked(related, r[k - 1], #[trigger] r[k]) by {
        if k < p.len() {
            assert(linked(related, p[k - 1], p[k]));
        } else {
            let m = k - p.len() + 1;
            assert(r[k] == q[m]);
            assert(r[k - 1] == q[m - 1]);
            assert(linked(related, q[m - 1], q[m]));
        }
    }
    assert forall|k: int| 0 <= k < r.len() implies 0 <= #[trigger] r[k] < n by {
        if k >= p.len() {
            assert(r[k] == q[k - p.len() + 1]);
        }
    }
    assert(r.last() == c);
    assert(is_chain(related, n, r));
}

pub proof fn lemma_chain_reverses(related: spec_fn(int, int) -> bool, n: nat, a: int, b: int)
    requires
        chained(related, n, a, b),
    ensures
        chained(related, n, b, a),
{
    let p = choose|p: Seq<int>| #[trigger]
        is_chain(related, n, p) && p[0] == a && p.last() == b;
    let r = p.reverse();
    assert forall|k: int| 0 < k < r.len() implies linked(related, r[k - 1], #[trigger] r[k]) by {
        let m = p.len() - k;
        assert(r[k] == p[m - 1]);
        assert(r[k - 1] == p[m]);
        assert(linked(related, p[m - 1], p[m]));
    }
    assert(is_chain(related, n, r));
}

pub proof fn lemma_link_is_a_chain(related: spec_fn(int, int) -> bool, n: nat, a: int, b: int)
    requires
        0 <= a < n,
        0 <= b < n,
        a == b || linked(related, a, b),
    ensures
        chained(related, n, a, b),
{
    let p = if a == b {
        seq![a]
    } else {
        seq![a, b]
    };
    assert(is_chain(related, n, p));
}

/// Members with the same root are chained.
spec fn sound(related: spec_fn(int, int) -> bool, n: nat, roots: Seq<int>) -> bool {
    &&& roots.len() == n
    &&& forall|a: int, b: int|
        0 <= a < n && 0 <= b < n && #[trigger] roots[a] == #[trigger] roots[b] ==> chained(
            related,
            n,
            a,
            b,
        )
}

proof fn lemma_joined_sound(
    related: spec_fn(int, int) -> bool,
    n: nat,
    roots: Seq<int>,
    i: int,
    j: int,
)
    requires
        sound(related, n, roots),
        0 <= i < n,
        0 <= j < n,
        linked(related, i, j),
    ensures
        sound(related, n, joined(roots, i, j)),
{
    let after = joined(roots, i, j);
    lemma_link_is_a_chain(related, n, i, j);
    lemma_chain_reverses(related, n, i, j);
    assert forall|a: int, b: int|
        0 <= a < n && 0 <= b < n && #[trigger] after[a] == #[trigger] after[b] implies chained(
        related,
        n,
        a,
        b,
    ) by {
        if roots[a] == roots[i] && roots[b] != roots[i] {
            assert(roots[b] == roots[j]);
            lemma_chain_joins(related, n, a, i, j);
            lemma_chain_joins(related, n, a, j, b);
        } else if roots[a] != roots[i] && roots[b] == roots[i] {
            assert(roots[a] == roots[j]);
            lemma_chain_joins(related, n, a, j, i);
            lemma_chain_joins(related, n, a, i, b);
        }
    }
}

/// The first `i` members agree with everyone they are related to, and member `i` with
/// those before `j`.
spec fn complete(
    related: spec_fn(int, int) -> bool,
    n: nat,
    roots: Seq<int>,
    i: int,
    j: int,
) -> bool {
    forall|a: int, b: int|
        0 <= a < b < n && (a < i || a == i && b < j) && #[trigger] related(a, b) ==> roots[a]
            == roots[b]
}

proof fn lemma_row_joined(
    related: spec_fn(int, int) -> bool,
    n: nat,
    roots: Seq<int>,
    i: int,
    j: int,
)
    requires
        sound(related, n, roots),
        complete(related, n, roots, i, i + 1),
        0 <= i < n,
        i < j <= n,
    ensures
        sound(related, n, row_joined(related, roots, i, j)),
        complete(related, n, row_joined(related, roots, i, j), i, j),
    decreases j,
{
    if j > i + 1 {
        lemma_row_joined(related, n, roots, i, j - 1);
        if related(i, j - 1) {
            lemma_joined_sound(related, n, row_joined(related, roots, i, j - 1), i, j - 1);
        }
    }
}

proof fn lemma_all_joined(related: spec_fn(int, int) -> bool, n: nat, i: int)
    requires
        0 <= i <= n,
    ensures
        sound(related, n, all_joined(related, n, i)),
        complete(related, n, all_joined(related, n, i), i, i + 1),
    decreases i,
{
    if i > 0 {
        lemma_all_joined(related, n, i - 1);
        lemma_row_joined(related, n, all_joined(related, n, i - 1), i - 1, n as int);
    } else {
        assert forall|a: int, b: int|
            0 <= a < n && 0 <= b < n && #[trigger] apart(n)[a] == #[trigger] apart(
                n,
            )[b] implies chained(related, n, a, b) by {
            lemma_link_is_a_chain(related, n, a, a);
        }
    }
}

/// Two members end up in the same cluster exactly if a chain of related members leads from
/// one to the other, in whatever order the pairs were met.
pub proof fn law_clusters_are_chains(
    related: spec_fn(int, int) -> bool,
    n: nat,
    a: int,
    b: int,
)
    requires
        0 <= a < n,
        0 <= b < n,
    ensures
        all_joined(related, n, n as int)[a] == all_joined(related, n, n as int)[b] <==> chained(
            related,
            n,
            a,
            b,
        ),
{
    let roots = all_joined(related, n, n as int);
    lemma_all_joined(related, n, n as int);
    if chained(related, n, a, b) {
        let p = choose|p: Seq<int>| #[trigger]
            is_chain(related, n, p) && p[0] == a && p.last() == b;
        lemma_chain_shares_root(related, n, roots, p, p.len() - 1);
    }
}

proof fn lemma_chain_shares_root(
    related: spec_fn(int, int) -> bool,
    n: nat,
    roots: Seq<int>,
    path: Seq<int>,
    k: int,
)
    requires
        complete(related, n, roots, n as int, n as int + 1),
        is_chain(related, n, path),
        0 <= k < path.len(),
    ensures
        roots[path[0]] == roots[path[k]],
    decreases k,
{
    if k > 0 {
        lemma_chain_shares_root(related, n, roots, path, k - 1);
        assert(linked(related, path[k - 1], path[k]));
    }
}

} // verus!
