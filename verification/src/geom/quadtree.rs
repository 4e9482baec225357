//! The node layout of a quadtree and the order in which its nodes are visited.
//!
//! Node 0 is the root and the children of node `i` are `4i + 1` to `4i + 4`, so a tree
//! is a flat list of nodes. Which node an object belongs to depends on the areas of the
//! nodes and lives with the caller; which nodes a query or a collision check visits is
//! decided here.
use vstd::prelude::*;

verus! {

/// The number of nodes in a complete quadtree with `depth` levels:
/// `1 + 4 + 16 + ... + 4^(depth - 1)`.
pub open spec fn quad_nodes(depth: nat) -> nat
    decreases depth,
{
    if depth == 0 {
        0
    } else {
        1 + 4 * quad_nodes((depth - 1) as nat)
    }
}

/// The largest node count of a tree this library lays out (16 levels).
pub open spec fn max_nodes() -> nat {
    0x5555_5555
}

/// The parent of node `i > 0`.
pub open spec fn quad_parent(i: nat) -> nat {
    ((i - 1) / 4) as nat
}

/// The nodes from `i` up to the root, `i` first.
pub open spec fn up_path(i: nat) -> Seq<nat>
    decreases i,
{
    if i == 0 {
        seq![0nat]
    } else {
        seq![i].add(up_path(quad_parent(i)))
    }
}

/// The nodes at and below `i` whose children all exist in a tree of `len` nodes, in
/// preorder.
pub open spec fn down_path(i: nat, len: nat) -> Seq<nat>
    decreases len - i,
{
    if 4 * i + 5 < len {
        seq![i].add(down_path(4 * i + 1, len)).add(down_path(4 * i + 2, len)).add(
            down_path(4 * i + 3, len),
        ).add(down_path(4 * i + 4, len))
    } else {
        seq![]
    }
}

/// The nodes of the subtree under `i` that exist in a tree of `len` nodes, in preorder.
pub open spec fn subtree(i: nat, len: nat) -> Seq<nat>
    decreases (if i < len { len - i } else { 0 }),
{
    if i < len {
        seq![i].add(subtree(4 * i + 1, len)).add(subtree(4 * i + 2, len)).add(
            subtree(4 * i + 3, len),
        ).add(subtree(4 * i + 4, len))
    } else {
        seq![]
    }
}

/// The pairs of nodes whose objects are tested against each other: each node `a` with
/// every node of its own subtree, `a` itself first.
pub open spec fn check_pairs_from(a: nat, len: nat) -> Seq<(nat, nat)>
    decreases len - a,
{
    if a < len {
        subtree(a, len).map_values(|d: nat| (a, d)).add(check_pairs_from(a + 1, len))
    } else {
        seq![]
    }
}

/// Indices as mathematical integers.
pub open spec fn as_nats(v: Seq<usize>) -> Seq<nat> {
    v.map_values(|x: usize| x as nat)
}

proof fn lemma_quad_nodes_monotone(a: nat, b: nat)
    requires
        a <= b,
    ensures
        quad_nodes(a) <= quad_nodes(b),
    decreases b,
{
    if a < b {
        lemma_quad_nodes_monotone(a, (b - 1) as nat);
    }
}

proof fn lemma_max_nodes()
    ensures
        quad_nodes(16) == max_nodes(),
{
    reveal_with_fuel(quad_nodes, 17);
}

/// The number of nodes that have children in a quadtree of `depth` levels, that is the
/// number of nodes of a tree one level shallower.
pub fn branch_count(depth: u32) -> (n: usize)
    requires
        1 <= depth <= 16,
    ensures
        n == quad_nodes((depth - 1) as nat),
{
    proof {
        lemma_max_nodes();
    }
    let mut n: usize = 0;
    let mut k: u32 = 1;
    while k < depth
        invariant
            1 <= k <= depth <= 16,
            n == quad_nodes((k - 1) as nat),
            quad_nodes(16) == max_nodes(),
        decreases depth - k,
    {
        proof {
            lemma_quad_nodes_monotone(k as nat, 16);
        }
        n = 1 + 4 * n;
        k = k + 1;
    }
    n
}

/// The number of nodes of a quadtree of `depth` levels.
pub fn node_count(depth: u32) -> (n: usize)
    requires
        1 <= depth <= 16,
    ensures
        n == quad_nodes(depth as nat),
        n <= max_nodes(),
{
    proof {
        lemma_max_nodes();
        lemma_quad_nodes_monotone(depth as nat, 16);
    }
    let b = branch_count(depth);
    1 + 4 * b
}

/// The nodes that a query starting at node `index` visits on its way up: `index`, its
/// parent, and so on to the root.
pub fn query_up_nodes(index: usize) -> (nodes: Vec<usize>)
    ensures
        as_nats(nodes@) == up_path(index as nat),
{
    let mut nodes: Vec<usize> = Vec::new();
    let mut i: usize = index;
    while i > 0
        invariant
            as_nats(nodes@).add(up_path(i as nat)) == up_path(index as nat),
        decreases i,
    {
        let ghost before = nodes@;
        nodes.push(i);
        proof {
            assert(as_nats(nodes@) =~= as_nats(before).push(i as nat));
            assert(as_nats(before).add(up_path(i as nat)) =~= as_nats(before).push(i as nat).add(
                up_path(quad_parent(i as nat)),
            ));
        }
        i = (i - 1) / 4;
    }
    let ghost before = nodes@;
    nodes.push(0);
    proof {
        assert(as_nats(nodes@) =~= as_nats(before).add(up_path(0)));
    }
    nodes
}

fn push_down_path(nodes: &mut Vec<usize>, i: usize, len: usize)
    requires
        i < len <= max_nodes(),
    ensures
        as_nats(final(nodes)@) == as_nats(old(nodes)@).add(down_path(i as nat, len as nat)),
    decreases len - i,
{
    let wide: u64 = 4 * (i as u64);
    if wide + 5 < len as u64 {
        let ghost start = nodes@;
        nodes.push(i);
        let child: usize = (wide + 1) as usize;
        push_down_path(nodes, child, len);
        push_down_path(nodes, child + 1, len);
        push_down_path(nodes, child + 2, len);
        push_down_path(nodes, child + 3, len);
        proof {
            let n = i as nat;
            let l = len as nat;
            assert(as_nats(start.push(i)) =~= as_nats(start).push(n));
            assert(down_path(n, l) =~= seq![n].add(down_path(4 * n + 1, l)).add(
                down_path(4 * n + 2, l),
            ).add(down_path(4 * n + 3, l)).add(down_path(4 * n + 4, l)));
            assert(as_nats(nodes@) =~= as_nats(start).add(down_path(n, l)));
        }
    } else {
        proof {
            assert(down_path(i as nat, len as nat) =~= Seq::<nat>::empty());
            assert(as_nats(old(nodes)@).add(Seq::<nat>::empty()) =~= as_nats(old(nodes)@));
        }
    }
}

/// The nodes that a query starting at node `index` visits on its way down, in a tree of
/// `len` nodes: `index` and, in preorder, the nodes below it, each only if it has
/// children.
pub fn query_down_nodes(index: usize, len: usize) -> (nodes: Vec<usize>)
    requires
        len <= max_nodes(),
    ensures
        as_nats(nodes@) == down_path(index as nat, len as nat),
{
    let mut nodes: Vec<usize> = Vec::new();
    if index < len {
        push_down_path(&mut nodes, index, len);
        assert(as_nats(Seq::<usize>::empty()) =~= Seq::<nat>::empty());
        assert(Seq::<nat>::empty().add(down_path(index as nat, len as nat)) =~= down_path(
            index as nat,
            len as nat,
        ));
    } else {
        assert(down_path(index as nat, len as nat) =~= Seq::<nat>::empty());
        assert(as_nats(nodes@) =~= Seq::<nat>::empty());
    }
    nodes
}

fn push_subtree(nodes: &mut Vec<usize>, i: usize, len: usize)
    requires
        len <= max_nodes(),
    ensures
        as_nats(final(nodes)@) == as_nats(old(nodes)@).add(subtree(i as nat, len as nat)),
    decreases len - i,
{
    if i < len {
        let ghost start = nodes@;
        nodes.push(i);
        let wide: u64 = 4 * (i as u64);
        let mut c: u64 = 1;
        let ghost n = i as nat;
        let ghost l = len as nat;
        while c <= 4
            invariant
                1 <= c <= 5,
                i < len <= max_nodes(),
                wide == 4 * i,
                n == i,
                l == len,
                as_nats(nodes@) == as_nats(start).push(n).add(
                    subtree_run(n, l, (c - 1) as nat),
                ),
            decreases 5 - c,
        {
            let ghost before = nodes@;
            if wide + c < len as u64 {
                push_subtree(nodes, (wide + c) as usize, len);
            } else {
                assert(subtree(4 * n + c as nat, l) =~= Seq::<nat>::empty());
                assert(as_nats(before).add(Seq::<nat>::empty()) =~= as_nats(before));
            }
            proof {
                assert(subtree_run(n, l, c as nat) == subtree_run(n, l, (c - 1) as nat).add(
                    subtree(4 * n + c as nat, l),
                ));
                assert(as_nats(start).push(n).add(subtree_run(n, l, c as nat)) =~= as_nats(
                    start,
                ).push(n).add(subtree_run(n, l, (c - 1) as nat)).add(subtree(4 * n + c as nat, l)));
            }
            c = c + 1;
        }
        proof {
            assert(as_nats(start.push(i)) =~= as_nats(start).push(n));
            reveal_with_fuel(subtree_run, 5);
            assert(subtree(n, l) =~= seq![n].add(subtree_run(n, l, 4)));
            assert(as_nats(nodes@) =~= as_nats(start).add(subtree(n, l)));
        }
    } else {
        proof {
            assert(subtree(i as nat, len as nat) =~= Seq::<nat>::empty());
            assert(as_nats(old(nodes)@).add(Seq::<nat>::empty()) =~= as_nats(old(nodes)@));
        }
    }
}

/// The subtrees of the first `count` children of node `i`, one after the other.
pub open spec fn subtree_run(i: nat, len: nat, count: nat) -> Seq<nat>
    decreases count,
{
    if count == 0 {
        seq![]
    } else {
        subtree_run(i, len, (count - 1) as nat).add(subtree(4 * i + count, len))
    }
}

/// The pairs of nodes whose objects a collision check of a tree of `len` nodes tests
/// against each other, in the order it tests them.
pub fn check_node_pairs(len: usize) -> (pairs: Vec<(usize, usize)>)
    requires
        len <= max_nodes(),
    ensures
        pairs@.map_values(|p: (usize, usize)| (p.0 as nat, p.1 as nat)) == check_pairs_from(
            0,
            len as nat,
        ),
{
    let mut pairs: Vec<(usize, usize)> = Vec::new();
    let mut a: usize = 0;
    while a < len
        invariant
            a <= len <= max_nodes(),
            pairs@.map_values(|p: (usize, usize)| (p.0 as nat, p.1 as nat)).add(
                check_pairs_from(a as nat, len as nat),
            ) == check_pairs_from(0, len as nat),
        decreases len - a,
    {
        let mut below: Vec<usize> = Vec::new();
        push_subtree(&mut below, a, len);
        assert(as_nats(Seq::<usize>::empty()) =~= Seq::<nat>::empty());
        assert(Seq::<nat>::empty().add(subtree(a as nat, len as nat)) =~= subtree(
            a as nat,
            len as nat,
        ));
        let ghost before = pairs@;
        let mut k: usize = 0;
        while k < below.len()
            invariant
                k <= below.len(),
                as_nats(below@) == subtree(a as nat, len as nat),
                pairs@.len() == before.len() + k,
                forall|j: int| 0 <= j < before.len() ==> pairs@[j] == before[j],
                forall|j: int|
                    0 <= j < k ==> #[trigger] pairs@[before.len() + j] == (a, below@[j]),
            decreases below.len() - k,
        {
            pairs.push((a, below[k]));
            k = k + 1;
        }
        proof {
            let f = |p: (usize, usize)| (p.0 as nat, p.1 as nat);
            let sub = subtree(a as nat, len as nat);
            assert(sub.len() == below@.len());
            assert(pairs@.map_values(f) =~= before.map_values(f).add(
                sub.map_values(|d: nat| (a as nat, d)),
            )) by {
                assert forall|j: int| 0 <= j < pairs@.len() implies #[trigger] pairs@.map_values(
                    f,
                )[j] == before.map_values(f).add(sub.map_values(|d: nat| (a as nat, d)))[j] by {
                    if j >= before.len() {
                        assert(pairs@[before.len() + (j - before.len())] == (
                            a,
                            below@[j - before.len()],
                        ));
                        assert(as_nats(below@)[j - before.len()] == sub[j - before.len()]);
                    }
                }
            }
            assert(check_pairs_from(a as nat, len as nat) =~= sub.map_values(
                |d: nat| (a as nat, d),
            ).add(check_pairs_from((a + 1) as nat, len as nat)));
            assert(pairs@.map_values(f).add(check_pairs_from((a + 1) as nat, len as nat))
                =~= before.map_values(f).add(check_pairs_from(a as nat, len as nat)));
        }
        a = a + 1;
    }
    proof {
        assert(check_pairs_from(len as nat, len as nat) =~= Seq::<(nat, nat)>::empty());
        let f = |p: (usize, usize)| (p.0 as nat, p.1 as nat);
        assert(pairs@.map_values(f).add(Seq::<(nat, nat)>::empty()) =~= pairs@.map_values(f));
    }
    pairs
}

/// Whether the `i`-th object of one node is tested against the `j`-th object of another,
/// or of the same node when `same`: an object is never tested against itself.
pub open spec fn tests_pair(same: bool, i: nat, j: nat) -> bool {
    !same || i != j
}

/// `p` comes before `q` row by row.
pub open spec fn pair_before(p: (nat, nat), q: (nat, nat)) -> bool {
    p.0 < q.0 || (p.0 == q.0 && p.1 < q.1)
}

/// The pairs of objects tested between a node of `a_len` objects and a node of `b_len`
/// objects (the same node when `same`), row by row: every pair but an object with itself.
pub fn check_item_pairs(same: bool, a_len: usize, b_len: usize) -> (pairs: Vec<(usize, usize)>)
    ensures
        forall|k: int|
            0 <= k < pairs@.len() ==> {
                let p = #[trigger] pairs@[k];
                &&& p.0 < a_len
                &&& p.1 < b_len
                &&& tests_pair(same, p.0 as nat, p.1 as nat)
            },
        forall|k1: int, k2: int|
            0 <= k1 < k2 < pairs@.len() ==> pair_before(
                (pairs@[k1].0 as nat, pairs@[k1].1 as nat),
                (pairs@[k2].0 as nat, pairs@[k2].1 as nat),
            ),
        forall|i: usize, j: usize|
            i < a_len && j < b_len && tests_pair(same, i as nat, j as nat) ==> pairs@.contains(
                (i, j),
            ),
{
    let mut pairs: Vec<(usize, usize)> = Vec::new();
    let mut i: usize = 0;
    while i < a_len
        invariant
            i <= a_len,
            forall|k: int|
                0 <= k < pairs@.len() ==> {
                    let p = #[trigger] pairs@[k];
                    &&& p.0 < i
                    &&& p.1 < b_len
                    &&& tests_pair(same, p.0 as nat, p.1 as nat)
                },
            forall|k1: int, k2: int|
                0 <= k1 < k2 < pairs@.len() ==> pair_before(
                    (pairs@[k1].0 as nat, pairs@[k1].1 as nat),
                    (pairs@[k2].0 as nat, pairs@[k2].1 as nat),
                ),
            forall|x: usize, y: usize|
                x < i && y < b_len && tests_pair(same, x as nat, y as nat) ==> pairs@.contains(
                    (x, y),
                ),
        decreases a_len - i,
    {
        let mut j: usize = 0;
        while j < b_len
            invariant
                i < a_len,
                j <= b_len,
                forall|k: int|
                    0 <= k < pairs@.len() ==> {
                        let p = #[trigger] pairs@[k];
                        &&& (p.0 < i || (p.0 == i && p.1 < j))
                        &&& p.1 < b_len
                        &&& tests_pair(same, p.0 as nat, p.1 as nat)
                    },
                forall|k1: int, k2: int|
                    0 <= k1 < k2 < pairs@.len() ==> pair_before(
                        (pairs@[k1].0 as nat, pairs@[k1].1 as nat),
                        (pairs@[k2].0 as nat, pairs@[k2].1 as nat),
                    ),
                forall|x: usize, y: usize|
                    (x < i || (x == i && y < j)) && y < b_len && tests_pair(same, x as nat, y as nat)
                        ==> pairs@.contains((x, y)),
            decreases b_len - j,
        {
            if !same || i != j {
                let ghost before = pairs@;
                pairs.push((i, j));
                proof {
                    assert(pairs@[before.len() as int] == (i, j));
                    assert forall|x: usize, y: usize|
                        (x < i || (x == i && y < j + 1)) && y < b_len && tests_pair(
                            same,
                            x as nat,
                            y as nat,
                        ) implies pairs@.contains((x, y)) by {
                        if x == i && y == j {
                            assert(pairs@[before.len() as int] == (x, y));
                        } else {
                            let k = choose|k: int| 0 <= k < before.len() && before[k] == (x, y);
                            assert(pairs@[k] == (x, y));
                        }
                    }
                }
            }
            j = j + 1;
        }
        i = i + 1;
    }
    pairs
}

/// Every node met on the way down from the root reaches the root on the way up: the
/// parent of each child of node `i` is `i`.
pub proof fn lemma_child_parent(i: nat, c: nat)
    requires
        1 <= c <= 4,
    ensures
        quad_parent(4 * i + c) == i,
{
}

proof fn lemma_up_path_starts(i: nat)
    ensures
        up_path(i).len() >= 1,
        up_path(i)[0] == i,
{
}

proof fn lemma_up_path_suffix(d: nat, x: nat)
    requires
        up_path(d).contains(x),
    ensures
        forall|y: nat| up_path(x).contains(y) ==> up_path(d).contains(y),
    decreases d,
{
    if d != x && d > 0 {
        let rest = up_path(quad_parent(d));
        assert(up_path(d) == seq![d].add(rest));
        let k = choose|k: int| 0 <= k < up_path(d).len() && up_path(d)[k] == x;
        assert(k > 0);
        assert(rest[k - 1] == x);
        lemma_up_path_suffix(quad_parent(d), x);
        assert forall|y: nat| up_path(x).contains(y) implies up_path(d).contains(y) by {
            let m = choose|m: int| 0 <= m < rest.len() && rest[m] == y;
            assert(up_path(d)[m + 1] == y);
        }
    }
}

proof fn lemma_subtree_descends(i: nat, len: nat, d: nat)
    requires
        subtree(i, len).contains(d),
    ensures
        up_path(d).contains(i),
    decreases (if i < len { len - i } else { 0 }),
{
    lemma_up_path_starts(d);
    if d != i {
        let s1 = subtree(4 * i + 1, len);
        let s2 = subtree(4 * i + 2, len);
        let s3 = subtree(4 * i + 3, len);
        let s4 = subtree(4 * i + 4, len);
        let whole = seq![i].add(s1).add(s2).add(s3).add(s4);
        assert(subtree(i, len) == whole);
        let k = choose|k: int| 0 <= k < whole.len() && whole[k] == d;
        let c: nat = if k < 1 + s1.len() {
            assert(s1[k - 1] == d);
            1
        } else if k < 1 + s1.len() + s2.len() {
            assert(s2[k - 1 - s1.len()] == d);
            2
        } else if k < 1 + s1.len() + s2.len() + s3.len() {
            assert(s3[k - 1 - s1.len() - s2.len()] == d);
            3
        } else {
            assert(s4[k - 1 - s1.len() - s2.len() - s3.len()] == d);
            4
        };
        let child = 4 * i + c;
        assert(subtree(child, len).contains(d));
        lemma_subtree_descends(child, len, d);
        lemma_up_path_suffix(d, child);
        lemma_child_parent(i, c);
        lemma_up_path_starts(i);
        assert(up_path(child) == seq![child].add(up_path(i)));
        assert(up_path(child)[1] == i);
    }
}

proof fn lemma_pairs_from_descend(a: nat, len: nat, k: int)
    requires
        0 <= k < check_pairs_from(a, len).len(),
    ensures
        up_path(check_pairs_from(a, len)[k].1).contains(check_pairs_from(a, len)[k].0),
    decreases len - a,
{
    if a < len {
        let first = subtree(a, len).map_values(|d: nat| (a, d));
        let rest = check_pairs_from(a + 1, len);
        assert(check_pairs_from(a, len) == first.add(rest));
        if k < first.len() {
            let d = subtree(a, len)[k];
            assert(check_pairs_from(a, len)[k] == (a, d));
            assert(subtree(a, len).contains(d));
            lemma_subtree_descends(a, len, d);
        } else {
            assert(check_pairs_from(a, len)[k] == rest[k - first.len()]);
            lemma_pairs_from_descend(a + 1, len, k - first.len());
        }
    }
}

/// A collision check only tests the objects of a node against those of the same node or
/// of a node below it: in every pair of nodes it visits, the first lies on the way up
/// from the second to the root.
pub proof fn lemma_check_stays_in_subtrees(len: nat, k: int)
    requires
        0 <= k < check_pairs_from(0, len).len(),
    ensures
        up_path(check_pairs_from(0, len)[k].1).contains(check_pairs_from(0, len)[k].0),
{
    lemma_pairs_from_descend(0, len, k);
}

proof fn lemma_subtree_unfold(i: nat, len: nat)
    requires
        i < len,
    ensures
        subtree(i, len) == seq![i].add(subtree(4 * i + 1, len)).add(subtree(4 * i + 2, len)).add(
            subtree(4 * i + 3, len),
        ).add(subtree(4 * i + 4, len)),
        subtree(i, len)[0] == i,
{
}

proof fn lemma_child_subtree_within(i: nat, len: nat, c: nat, x: nat)
    requires
        i < len,
        1 <= c <= 4,
        subtree(4 * i + c, len).contains(x),
    ensures
        subtree(i, len).contains(x),
{
    lemma_subtree_unfold(i, len);
    let s1 = subtree(4 * i + 1, len);
    let s2 = subtree(4 * i + 2, len);
    let s3 = subtree(4 * i + 3, len);
    let s4 = subtree(4 * i + 4, len);
    let whole = seq![i].add(s1).add(s2).add(s3).add(s4);
    let sc = subtree(4 * i + c, len);
    let k = choose|k: int| 0 <= k < sc.len() && sc[k] == x;
    let off: int = if c == 1 {
        1
    } else if c == 2 {
        1 + s1.len() as int
    } else if c == 3 {
        1 + s1.len() + s2.len() as int
    } else {
        1 + s1.len() + s2.len() + s3.len() as int
    };
    assert(whole[off + k] == x);
}

proof fn lemma_subtree_transitive(a: nat, p: nat, len: nat, x: nat)
    requires
        subtree(a, len).contains(p),
        subtree(p, len).contains(x),
    ensures
        subtree(a, len).contains(x),
    decreases (if a < len { len - a } else { 0 }),
{
    if a < len && p != a {
        lemma_subtree_unfold(a, len);
        let s1 = subtree(4 * a + 1, len);
        let s2 = subtree(4 * a + 2, len);
        let s3 = subtree(4 * a + 3, len);
        let s4 = subtree(4 * a + 4, len);
        let whole = seq![a].add(s1).add(s2).add(s3).add(s4);
        let k = choose|k: int| 0 <= k < whole.len() && whole[k] == p;
        let c: nat = if k < 1 + s1.len() {
            assert(s1[k - 1] == p);
            1
        } else if k < 1 + s1.len() + s2.len() {
            assert(s2[k - 1 - s1.len()] == p);
            2
        } else if k < 1 + s1.len() + s2.len() + s3.len() {
            assert(s3[k - 1 - s1.len() - s2.len()] == p);
            3
        } else {
            assert(s4[k - 1 - s1.len() - s2.len() - s3.len()] == p);
            4
        };
        assert(subtree(4 * a + c, len).contains(p));
        lemma_subtree_transitive(4 * a + c, p, len, x);
        lemma_child_subtree_within(a, len, c, x);
    } else if a >= len {
        assert(subtree(a, len).len() == 0);
    }
}

proof fn lemma_ancestor_subtree(a: nat, d: nat, len: nat)
    requires
        up_path(d).contains(a),
        d < len,
    ensures
        subtree(a, len).contains(d),
    decreases d,
{
    if d == a {
        lemma_subtree_unfold(d, len);
    } else {
        assert(d > 0);
        let p = quad_parent(d);
        assert(up_path(d) == seq![d].add(up_path(p)));
        let k = choose|k: int| 0 <= k < up_path(d).len() && up_path(d)[k] == a;
        assert(up_path(p)[k - 1] == a);
        lemma_ancestor_subtree(a, p, len);
        let c: nat = (d - 4 * p) as nat;
        assert(1 <= c <= 4);
        assert(d == 4 * p + c);
        lemma_subtree_unfold(d, len);
        assert(subtree(4 * p + c, len).contains(d));
        lemma_child_subtree_within(p, len, c, d);
        lemma_subtree_transitive(a, p, len, d);
    }
}

proof fn lemma_pairs_from_contain(a0: nat, a: nat, len: nat, d: nat)
    requires
        a0 <= a < len,
        subtree(a, len).contains(d),
    ensures
        check_pairs_from(a0, len).contains((a, d)),
    decreases a - a0,
{
    let first = subtree(a0, len).map_values(|x: nat| (a0, x));
    let rest = check_pairs_from(a0 + 1, len);
    assert(check_pairs_from(a0, len) == first.add(rest));
    if a0 == a {
        let k = choose|k: int| 0 <= k < subtree(a, len).len() && subtree(a, len)[k] == d;
        assert(first[k] == (a, d));
        assert(check_pairs_from(a0, len)[k] == (a, d));
    } else {
        lemma_pairs_from_contain(a0 + 1, a, len, d);
        let k = choose|k: int| 0 <= k < rest.len() && rest[k] == (a, d);
        assert(check_pairs_from(a0, len)[first.len() + k] == (a, d));
    }
}

/// A collision check tests every node against every node of its subtree: for two nodes
/// of the tree where the first lies on the way up from the second to the root, the pair
/// is among those the check visits.
pub proof fn lemma_check_covers_subtrees(len: nat, a: nat, d: nat)
    requires
        d < len,
        up_path(d).contains(a),
    ensures
        check_pairs_from(0, len).contains((a, d)),
{
    lemma_ancestor_subtree(a, d, len);
    lemma_up_path_below(d, a);
    lemma_pairs_from_contain(0, a, len, d);
}

proof fn lemma_up_path_below(d: nat, a: nat)
    requires
        up_path(d).contains(a),
    ensures
        a <= d,
    decreases d,
{
    if d > 0 && a != d {
        let p = quad_parent(d);
        assert(up_path(d) == seq![d].add(up_path(p)));
        let k = choose|k: int| 0 <= k < up_path(d).len() && up_path(d)[k] == a;
        assert(up_path(p)[k - 1] == a);
        lemma_up_path_below(p, a);
    }
}

proof fn lemma_down_unfold(i: nat, len: nat)
    requires
        4 * i + 5 < len,
    ensures
        down_path(i, len) == seq![i].add(down_path(4 * i + 1, len)).add(down_path(4 * i + 2, len)).add(
            down_path(4 * i + 3, len),
        ).add(down_path(4 * i + 4, len)),
        down_path(i, len)[0] == i,
{
}

/// Where a member of a child's part of `down_path(i, len)` stands in the whole.
proof fn lemma_down_child_within(i: nat, len: nat, c: nat, x: nat)
    requires
        4 * i + 5 < len,
        1 <= c <= 4,
        down_path(4 * i + c, len).contains(x),
    ensures
        down_path(i, len).contains(x),
{
    lemma_down_unfold(i, len);
    let s1 = down_path(4 * i + 1, len);
    let s2 = down_path(4 * i + 2, len);
    let s3 = down_path(4 * i + 3, len);
    let s4 = down_path(4 * i + 4, len);
    let whole = seq![i].add(s1).add(s2).add(s3).add(s4);
    let sc = down_path(4 * i + c, len);
    let k = choose|k: int| 0 <= k < sc.len() && sc[k] == x;
    let off: int = if c == 1 {
        1
    } else if c == 2 {
        1 + s1.len() as int
    } else if c == 3 {
        1 + s1.len() + s2.len() as int
    } else {
        1 + s1.len() + s2.len() + s3.len() as int
    };
    assert(whole[off + k] == x);
}

proof fn lemma_down_transitive(a: nat, p: nat, len: nat, x: nat)
    requires
        down_path(a, len).contains(p),
        down_path(p, len).contains(x),
    ensures
        down_path(a, len).contains(x),
    decreases len - a,
{
    if 4 * a + 5 < len && p != a {
        lemma_down_unfold(a, len);
        let s1 = down_path(4 * a + 1, len);
        let s2 = down_path(4 * a + 2, len);
        let s3 = down_path(4 * a + 3, len);
        let s4 = down_path(4 * a + 4, len);
        let whole = seq![a].add(s1).add(s2).add(s3).add(s4);
        let k = choose|k: int| 0 <= k < whole.len() && whole[k] == p;
        let c: nat = if k < 1 + s1.len() {
            assert(s1[k - 1] == p);
            1
        } else if k < 1 + s1.len() + s2.len() {
            assert(s2[k - 1 - s1.len()] == p);
            2
        } else if k < 1 + s1.len() + s2.len() + s3.len() {
            assert(s3[k - 1 - s1.len() - s2.len()] == p);
            3
        } else {
            assert(s4[k - 1 - s1.len() - s2.len() - s3.len()] == p);
            4
        };
        assert(down_path(4 * a + c, len).contains(p));
        lemma_down_transitive(4 * a + c, p, len, x);
        lemma_down_child_within(a, len, c, x);
    } else if !(4 * a + 5 < len) {
        assert(down_path(a, len).len() == 0);
    }
}

proof fn lemma_down_members(i: nat, len: nat, d: nat)
    requires
        down_path(i, len).contains(d),
    ensures
        4 * d + 5 < len,
        up_path(d).contains(i),
    decreases len - i,
{
    lemma_up_path_starts(d);
    if d != i {
        lemma_down_unfold(i, len);
        let s1 = down_path(4 * i + 1, len);
        let s2 = down_path(4 * i + 2, len);
        let s3 = down_path(4 * i + 3, len);
        let s4 = down_path(4 * i + 4, len);
        let whole = seq![i].add(s1).add(s2).add(s3).add(s4);
        let k = choose|k: int| 0 <= k < whole.len() && whole[k] == d;
        let c: nat = if k < 1 + s1.len() {
            assert(s1[k - 1] == d);
            1
        } else if k < 1 + s1.len() + s2.len() {
            assert(s2[k - 1 - s1.len()] == d);
            2
        } else if k < 1 + s1.len() + s2.len() + s3.len() {
            assert(s3[k - 1 - s1.len() - s2.len()] == d);
            3
        } else {
            assert(s4[k - 1 - s1.len() - s2.len() - s3.len()] == d);
            4
        };
        let child = 4 * i + c;
        assert(down_path(child, len).contains(d));
        lemma_down_members(child, len, d);
        lemma_up_path_suffix(d, child);
        lemma_child_parent(i, c);
        lemma_up_path_starts(i);
        assert(up_path(child) == seq![child].add(up_path(i)));
        assert(up_path(child)[1] == i);
    } else {
        if !(4 * i + 5 < len) {
            assert(down_path(i, len).len() == 0);
        }
    }
}

proof fn lemma_down_complete(i: nat, len: nat, d: nat)
    requires
        up_path(d).contains(i),
        4 * d + 5 < len,
    ensures
        down_path(i, len).contains(d),
    decreases d,
{
    if d == i {
        lemma_down_unfold(d, len);
    } else {
        assert(d > 0);
        let p = quad_parent(d);
        assert(up_path(d) == seq![d].add(up_path(p)));
        let k = choose|k: int| 0 <= k < up_path(d).len() && up_path(d)[k] == i;
        assert(up_path(p)[k - 1] == i);
        lemma_down_complete(i, len, p);
        let c: nat = (d - 4 * p) as nat;
        assert(1 <= c <= 4);
        lemma_down_unfold(d, len);
        assert(down_path(4 * p + c, len).contains(d));
        lemma_down_child_within(p, len, c, d);
        lemma_down_transitive(i, p, len, d);
    }
}

/// The downward walk of a query from node `i` in a tree of `len` nodes visits exactly the
/// nodes at or below `i` that have all four children in the tree: a node `d` is visited
/// if and only if `i` lies on the way up from `d` to the root and `4d + 5 < len`.
pub proof fn lemma_query_down_visits(i: nat, len: nat, d: nat)
    ensures
        down_path(i, len).contains(d) <==> (up_path(d).contains(i) && 4 * d + 5 < len),
{
    if down_path(i, len).contains(d) {
        lemma_down_members(i, len, d);
    }
    if up_path(d).contains(i) && 4 * d + 5 < len {
        lemma_down_complete(i, len, d);
    }
}

/// Each node of `s` after the first is the parent of the node before it.
pub open spec fn parent_chain(s: Seq<nat>) -> bool {
    forall|k: int| 0 < k < s.len() ==> s[k - 1] > 0 && #[trigger] s[k] == (s[k - 1] - 1) / 4
}

/// The upward walk of a query from node `i` starts at `i`, ends at the root, and each
/// node after the first is the parent `(n - 1) / 4` of the one before it.
pub proof fn lemma_query_up_chain(i: nat)
    ensures
        up_path(i).len() >= 1,
        up_path(i)[0] == i,
        up_path(i).last() == 0,
        parent_chain(up_path(i)),
    decreases i,
{
    if i > 0 {
        let p = quad_parent(i);
        lemma_query_up_chain(p);
        let rest = up_path(p);
        let s = up_path(i);
        assert(s == seq![i].add(rest));
        assert forall|k: int| 0 < k < s.len() implies s[k - 1] > 0 && #[trigger] s[k] == (s[k - 1]
            - 1) / 4 by {
            if k > 1 {
                assert(s[k] == rest[k - 1]);
                assert(s[k - 1] == rest[k - 2]);
                assert(rest[k - 1] == (rest[k - 2] - 1) / 4);
            } else {
                assert(s[1] == rest[0]);
            }
        }
    } else {
        assert(up_path(i) == seq![0nat]);
    }
}

/// A tree of `depth` levels has `(4^depth - 1) / 3` nodes: `1 + 4 + ... + 4^(depth - 1)`.
pub proof fn lemma_node_count_formula(depth: nat)
    ensures
        3 * quad_nodes(depth) + 1 == vstd::arithmetic::power::pow(4, depth),
    decreases depth,
{
    reveal(vstd::arithmetic::power::pow);
    if depth > 0 {
        lemma_node_count_formula((depth - 1) as nat);
    }
}

} // verus!
