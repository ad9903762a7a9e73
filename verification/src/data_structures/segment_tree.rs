//! An array-backed range-aggregation tree over a fixed number of positions.
//!
//! The tree is stored as an implicit complete binary tree: the root sits at
//! index 0 and the children of node `i` at `2i + 1` and `2i + 2`. The root
//! covers the positions `0 ..= n - 1`; a node covering `lo ..= hi` with
//! `lo < hi` hands `lo ..= mid` to its left child and `mid + 1 ..= hi` to its
//! right child, where `mid = lo + (hi - lo) / 2`.
//!
//! The two operators are closures. What they compute is named in contracts
//! by a mathematical function `g` that [`models`] the closure: whatever the
//! closure returns on `(a, b)` is `g(a, b)`.

use vstd::prelude::*;

verus! {

/// Why an operation on a [`SegmentTree`] was rejected.
#[derive(Clone, Copy, Debug, PartialEq, Eq, Structural)]
pub enum SegmentTreeError {
    /// The tree was to be built over no positions at all.
    EmptyInput,
    /// The range is reversed or reaches past the last position.
    InvalidRange,
}

/// `f` may be called on every pair of arguments.
pub open spec fn is_total<A, F: Fn(&A, &A) -> A>(f: F) -> bool {
    forall|a: A, b: A| #[trigger] f.requires((&a, &b))
}

/// Whatever `f` returns on `(a, b)` is `g(a, b)`.
pub open spec fn models<A, F: Fn(&A, &A) -> A>(f: F, g: spec_fn(A, A) -> A) -> bool {
    forall|a: A, b: A, r: A| #[trigger] f.ensures((&a, &b), r) ==> r == g(a, b)
}

/// `f` may be called on every pair of arguments, and what it returns
/// depends on the arguments alone.
pub open spec fn is_pure<A, F: Fn(&A, &A) -> A>(f: F) -> bool {
    &&& is_total(f)
    &&& exists|g: spec_fn(A, A) -> A| #[trigger] models(f, g)
}

/// A clone of a value of `A` is that value.
pub open spec fn clone_is_exact<A: Clone>() -> bool {
    forall|a: A, b: A| #[trigger] cloned(a, b) ==> a == b
}

/// `g` is associative.
pub open spec fn is_associative<A>(g: spec_fn(A, A) -> A) -> bool {
    forall|a: A, b: A, c: A| #[trigger] g(g(a, b), c) == g(a, g(b, c))
}

/// `e` is neutral for `g` on both sides.
pub open spec fn is_identity<A>(g: spec_fn(A, A) -> A, e: A) -> bool {
    &&& forall|a: A| #[trigger] g(e, a) == a
    &&& forall|a: A| #[trigger] g(a, e) == a
}

/// Where a node covering `lo ..= hi` is split.
pub open spec fn midpoint(lo: int, hi: int) -> int {
    lo + (hi - lo) / 2
}

/// The left-to-right fold of the non-empty sequence `s` under `g`.
pub open spec fn merge_fold<A>(g: spec_fn(A, A) -> A, s: Seq<A>) -> A
    decreases s.len(),
{
    if s.len() <= 1 {
        s[0]
    } else {
        g(merge_fold(g, s.drop_last()), s.last())
    }
}

/// The aggregate of `s[lo ..= hi]` as the tree computes it: by halving.
pub open spec fn split_fold<A>(g: spec_fn(A, A) -> A, s: Seq<A>, lo: int, hi: int) -> A
    decreases hi - lo,
{
    if lo >= hi {
        s[lo]
    } else {
        g(split_fold(g, s, lo, midpoint(lo, hi)), split_fold(g, s, midpoint(lo, hi) + 1, hi))
    }
}

/// What a query for `l ..= r` collects below a node covering `lo ..= hi`:
/// the node's aggregate where the node lies inside the range, `fallback` where
/// it lies outside, and otherwise the merge of what its two children collect,
/// the left child's first.
pub open spec fn range_fold<A>(
    g: spec_fn(A, A) -> A,
    fallback: A,
    s: Seq<A>,
    lo: int,
    hi: int,
    l: int,
    r: int,
) -> A
    decreases hi - lo,
{
    if l <= lo && hi <= r {
        split_fold(g, s, lo, hi)
    } else if hi < l || r < lo || lo >= hi {
        fallback
    } else {
        g(
            range_fold(g, fallback, s, lo, midpoint(lo, hi), l, r),
            range_fold(g, fallback, s, midpoint(lo, hi) + 1, hi, l, r),
        )
    }
}

/// The values of the positions after `value` was applied under `g` to each
/// of the positions `l ..= r` of `s`.
pub open spec fn apply_range<A>(g: spec_fn(A, A) -> A, s: Seq<A>, value: A, l: int, r: int) -> Seq<A> {
    Seq::new(
        s.len(),
        |p: int|
            if l <= p <= r {
                g(s[p], value)
            } else {
                s[p]
            },
    )
}

/// `after` is `before` with `value` applied by `f` to each of the positions
/// `l ..= r` and nothing else changed.
pub open spec fn applied<A, F: Fn(&A, &A) -> A>(
    f: F,
    before: Seq<A>,
    after: Seq<A>,
    value: A,
    l: int,
    r: int,
) -> bool {
    &&& after.len() == before.len()
    &&& forall|p: int|
        0 <= p < before.len() ==> if l <= p <= r {
            f.ensures((&before[p], &value), #[trigger] after[p])
        } else {
            after[p] == before[p]
        }
}

/// The subtree stored at `idx` of `nodes`, covering `lo ..= hi`, is in order:
/// each leaf holds its position's value of `s`, each inner node what `f`
/// returned on its left and its right child.
pub open spec fn subtree_ok<A, F: Fn(&A, &A) -> A>(
    nodes: Seq<A>,
    f: F,
    idx: int,
    lo: int,
    hi: int,
    s: Seq<A>,
) -> bool
    decreases hi - lo,
{
    &&& 0 <= idx < nodes.len()
    &&& if lo >= hi {
        nodes[idx] == s[lo]
    } else {
        &&& subtree_ok(nodes, f, 2 * idx + 1, lo, midpoint(lo, hi), s)
        &&& subtree_ok(nodes, f, 2 * idx + 2, midpoint(lo, hi) + 1, hi, s)
        &&& f.ensures((&nodes[2 * idx + 1], &nodes[2 * idx + 2]), nodes[idx])
    }
}

/// Node `j` lies in the subtree rooted at node `root`.
pub open spec fn in_subtree(root: int, j: int) -> bool
    decreases j,
{
    j == root || (0 <= root < j && in_subtree(root, (j - 1) / 2))
}

/// A node below a child of `i` lies below `i`, and is not `i`.
pub proof fn lemma_child_subtree(i: int, j: int)
    requires
        i >= 0,
        in_subtree(2 * i + 1, j) || in_subtree(2 * i + 2, j),
    ensures
        in_subtree(i, j),
        j > i,
    decreases j,
{
    if j != 2 * i + 1 && j != 2 * i + 2 {
        lemma_child_subtree(i, (j - 1) / 2);
    } else {
        assert(in_subtree(i, (j - 1) / 2));
    }
}

/// The subtrees of the two children of a node share no node.
pub proof fn lemma_children_disjoint(i: int, j: int)
    requires
        i >= 0,
    ensures
        !(in_subtree(2 * i + 1, j) && in_subtree(2 * i + 2, j)),
    decreases j,
{
    if j > 2 * i + 2 {
        lemma_children_disjoint(i, (j - 1) / 2);
    } else if j == 2 * i + 2 {
        assert(!in_subtree(2 * i + 1, i));
    }
}

/// How the subtrees of node `i` and of its two children lie to one another.
proof fn lemma_family(i: int)
    requires
        i >= 0,
    ensures
        in_subtree(i, i),
        in_subtree(2 * i + 1, 2 * i + 1),
        in_subtree(2 * i + 2, 2 * i + 2),
        forall|j: int| #[trigger]
            in_subtree(2 * i + 1, j) ==> in_subtree(i, j) && j != i && !in_subtree(2 * i + 2, j),
        forall|j: int| #[trigger]
            in_subtree(2 * i + 2, j) ==> in_subtree(i, j) && j != i && !in_subtree(2 * i + 1, j),
        forall|j: int|
            !#[trigger] in_subtree(i, j) ==> !in_subtree(2 * i + 1, j) && !in_subtree(2 * i + 2, j),
{
    assert forall|j: int| #[trigger] in_subtree(2 * i + 1, j) implies in_subtree(i, j) && j != i
        && !in_subtree(2 * i + 2, j) by {
        lemma_child_subtree(i, j);
        lemma_children_disjoint(i, j);
    }
    assert forall|j: int| #[trigger] in_subtree(2 * i + 2, j) implies in_subtree(i, j) && j != i
        && !in_subtree(2 * i + 1, j) by {
        lemma_child_subtree(i, j);
        lemma_children_disjoint(i, j);
    }
    assert forall|j: int| !#[trigger] in_subtree(i, j) implies !in_subtree(2 * i + 1, j)
        && !in_subtree(2 * i + 2, j) by {
        if in_subtree(2 * i + 1, j) || in_subtree(2 * i + 2, j) {
            lemma_child_subtree(i, j);
        }
    }
}

/// Whether a subtree is in order depends only on the nodes of that subtree
/// and on the values of the positions it covers.
pub proof fn lemma_subtree_ok_local<A, F: Fn(&A, &A) -> A>(
    nodes: Seq<A>,
    nodes2: Seq<A>,
    f: F,
    idx: int,
    lo: int,
    hi: int,
    s: Seq<A>,
    s2: Seq<A>,
)
    requires
        0 <= lo <= hi < s.len(),
        s2.len() == s.len(),
        subtree_ok(nodes, f, idx, lo, hi, s),
        nodes.len() == nodes2.len(),
        forall|j: int| 0 <= j < nodes.len() && #[trigger] in_subtree(idx, j) ==> nodes2[j] == nodes[j],
        forall|p: int| lo <= p <= hi ==> s2[p] == s[p],
    ensures
        subtree_ok(nodes2, f, idx, lo, hi, s2),
    decreases hi - lo,
{
    lemma_family(idx);
    if lo < hi {
        let mid = midpoint(lo, hi);
        lemma_subtree_ok_local(nodes, nodes2, f, 2 * idx + 1, lo, mid, s, s2);
        lemma_subtree_ok_local(nodes, nodes2, f, 2 * idx + 2, mid + 1, hi, s, s2);
    }
}

/// The root of a subtree that is in order holds the aggregate, by halving,
/// of the positions that the subtree covers.
pub proof fn lemma_subtree_value<A, F: Fn(&A, &A) -> A>(
    nodes: Seq<A>,
    f: F,
    g: spec_fn(A, A) -> A,
    idx: int,
    lo: int,
    hi: int,
    s: Seq<A>,
)
    requires
        models(f, g),
        subtree_ok(nodes, f, idx, lo, hi, s),
    ensures
        nodes[idx] == split_fold(g, s, lo, hi),
    decreases hi - lo,
{
    if lo < hi {
        lemma_subtree_value(nodes, f, g, 2 * idx + 1, lo, midpoint(lo, hi), s);
        lemma_subtree_value(nodes, f, g, 2 * idx + 2, midpoint(lo, hi) + 1, hi, s);
    }
}

/// Each half of a range fits the next level of the tree: `width` is the
/// number of nodes on the level of the range's node.
proof fn lemma_halves_fit(lo: int, hi: int, width: int, n: int)
    requires
        lo < hi,
        1 <= width,
        (hi - lo) * width < n,
    ensures
        (midpoint(lo, hi) - lo) * (2 * width) < n,
        (hi - (midpoint(lo, hi) + 1)) * (2 * width) < n,
        width < n,
{
    let d = hi - lo;
    let a = midpoint(lo, hi) - lo;
    let b = hi - (midpoint(lo, hi) + 1);
    assert(2 * a <= d && 2 * b <= d);
    assert(a * (2 * width) <= d * width) by (nonlinear_arith)
        requires
            2 * a <= d,
            width >= 1,
    ;
    assert(b * (2 * width) <= d * width) by (nonlinear_arith)
        requires
            2 * b <= d,
            width >= 1,
    ;
    assert(width <= d * width) by (nonlinear_arith)
        requires
            d >= 1,
            width >= 1,
    ;
}

/// Folding two non-empty sequences and merging the results is folding their
/// concatenation, for an associative operator.
pub proof fn lemma_fold_concat<A>(g: spec_fn(A, A) -> A, a: Seq<A>, b: Seq<A>)
    requires
        is_associative(g),
        a.len() >= 1,
        b.len() >= 1,
    ensures
        g(merge_fold(g, a), merge_fold(g, b)) == merge_fold(g, a + b),
    decreases b.len(),
{
    let ab = a + b;
    assert(ab.drop_last() =~= a + b.drop_last());
    assert(ab.last() == b.last());
    if b.len() == 1 {
        assert(a + b.drop_last() =~= a);
    } else {
        lemma_fold_concat(g, a, b.drop_last());
    }
}

/// For an associative operator the aggregate that the tree computes by
/// halving is the left-to-right fold.
pub proof fn lemma_split_fold_is_fold<A>(g: spec_fn(A, A) -> A, s: Seq<A>, lo: int, hi: int)
    requires
        is_associative(g),
        0 <= lo <= hi < s.len(),
    ensures
        split_fold(g, s, lo, hi) == merge_fold(g, s.subrange(lo, hi + 1)),
    decreases hi - lo,
{
    if lo < hi {
        let mid = midpoint(lo, hi);
        lemma_split_fold_is_fold(g, s, lo, mid);
        lemma_split_fold_is_fold(g, s, mid + 1, hi);
        lemma_fold_concat(g, s.subrange(lo, mid + 1), s.subrange(mid + 1, hi + 1));
        assert(s.subrange(lo, mid + 1) + s.subrange(mid + 1, hi + 1) =~= s.subrange(lo, hi + 1));
    } else {
        assert(s.subrange(lo, hi + 1)[0] == s[lo]);
    }
}

/// For an associative operator with a neutral fallback value, what a query
/// collects below a node is the left-to-right fold of the part of the range
/// that the node covers, and the fallback value where it covers none of it.
pub proof fn lemma_range_fold_covered<A>(
    g: spec_fn(A, A) -> A,
    fallback: A,
    s: Seq<A>,
    lo: int,
    hi: int,
    l: int,
    r: int,
)
    requires
        is_associative(g),
        is_identity(g, fallback),
        0 <= lo <= hi < s.len(),
        l <= r,
    ensures
        range_fold(g, fallback, s, lo, hi, l, r) == if hi < l || r < lo {
            fallback
        } else {
            merge_fold(
                g,
                s.subrange(
                    if l > lo {
                        l
                    } else {
                        lo
                    },
                    (if r < hi {
                        r
                    } else {
                        hi
                    }) + 1,
                ),
            )
        },
    decreases hi - lo,
{
    if l <= lo && hi <= r {
        lemma_split_fold_is_fold(g, s, lo, hi);
    } else if hi < l || r < lo {
    } else {
        let mid = midpoint(lo, hi);
        let from = if l > lo {
            l
        } else {
            lo
        };
        let to = if r < hi {
            r
        } else {
            hi
        };
        lemma_range_fold_covered(g, fallback, s, lo, mid, l, r);
        lemma_range_fold_covered(g, fallback, s, mid + 1, hi, l, r);
        if l <= mid && mid + 1 <= r {
            lemma_fold_concat(g, s.subrange(from, mid + 1), s.subrange(mid + 1, to + 1));
            assert(s.subrange(from, mid + 1) + s.subrange(mid + 1, to + 1) =~= s.subrange(
                from,
                to + 1,
            ));
        }
    }
}

/// For an associative operator with a neutral fallback value, a query for a
/// range of positions collects the left-to-right fold of their values.
pub proof fn lemma_range_fold_is_fold<A>(g: spec_fn(A, A) -> A, fallback: A, s: Seq<A>, l: int, r: int)
    requires
        is_associative(g),
        is_identity(g, fallback),
        0 <= l <= r < s.len(),
    ensures
        range_fold(g, fallback, s, 0, s.len() - 1, l, r) == merge_fold(g, s.subrange(l, r + 1)),
{
    lemma_range_fold_covered(g, fallback, s, 0, s.len() - 1, l, r);
}

/// With a neutral fallback value, a query for the single position `p`
/// collects the value of `p`.
pub proof fn lemma_single_point<A>(g: spec_fn(A, A) -> A, fallback: A, s: Seq<A>, lo: int, hi: int, p: int)
    requires
        is_identity(g, fallback),
        0 <= lo <= p <= hi < s.len(),
    ensures
        range_fold(g, fallback, s, lo, hi, p, p) == s[p],
    decreases hi - lo,
{
    if lo < hi {
        let mid = midpoint(lo, hi);
        if p <= mid {
            lemma_single_point(g, fallback, s, lo, mid, p);
            assert(range_fold(g, fallback, s, mid + 1, hi, p, p) == fallback);
        } else {
            lemma_single_point(g, fallback, s, mid + 1, hi, p);
            assert(range_fold(g, fallback, s, lo, mid, p, p) == fallback);
        }
    }
}

/// For an associative operator, a query for all positions collects the
/// left-to-right fold of all values.
pub proof fn lemma_full_range<A>(g: spec_fn(A, A) -> A, fallback: A, s: Seq<A>)
    requires
        is_associative(g),
        s.len() >= 1,
    ensures
        range_fold(g, fallback, s, 0, s.len() - 1, 0, s.len() - 1) == merge_fold(g, s),
{
    lemma_split_fold_is_fold(g, s, 0, s.len() - 1);
    assert(s.subrange(0, s.len() as int) =~= s);
}

/// Applying a value position by position is applying it under any function
/// that models the operator.
pub proof fn lemma_applied_is_apply_range<A, F: Fn(&A, &A) -> A>(
    f: F,
    g: spec_fn(A, A) -> A,
    before: Seq<A>,
    after: Seq<A>,
    value: A,
    l: int,
    r: int,
)
    requires
        models(f, g),
        applied(f, before, after, value, l, r),
    ensures
        after == apply_range(g, before, value, l, r),
{
    assert(after =~= apply_range(g, before, value, l, r));
}

/// A range-aggregation tree over the values of `n >= 1` positions.
#[verifier::reject_recursive_types(A)]
pub struct SegmentTree<A, QO, NO> where QO: Fn(&A, &A) -> A, NO: Fn(&A, &A) -> A {
    n: usize,
    tree_arr: Vec<A>,
    query_operation: QO,
    node_operation: NO,
    fallback_value: A,
    leaves: Ghost<Seq<A>>,
}

impl<A, QO, NO> View for SegmentTree<A, QO, NO> where QO: Fn(&A, &A) -> A, NO: Fn(&A, &A) -> A {
    type V = Seq<A>;

    /// The current value of each position, in order.
    closed spec fn view(&self) -> Seq<A> {
        self.leaves@
    }
}

impl<A: Default + Clone, QO, NO> SegmentTree<A, QO, NO> where
    QO: Fn(&A, &A) -> A,
    NO: Fn(&A, &A) -> A,
 {
    /// The operator that merges two aggregates.
    pub closed spec fn merge_op(&self) -> QO {
        self.query_operation
    }

    /// The operator that applies an update to a position's value.
    pub closed spec fn apply_op(&self) -> NO {
        self.node_operation
    }

    /// The value that stands for the aggregate of no position.
    pub closed spec fn fallback(&self) -> A {
        self.fallback_value
    }

    /// The backing store: one slot for each node of the implicit tree.
    pub closed spec fn nodes(&self) -> Seq<A> {
        self.tree_arr@
    }

    /// The tree is consistent: the backing store has four slots for each
    /// position, each leaf holds its position's value and each inner node
    /// the merge of its two children.
    pub closed spec fn wf(&self) -> bool {
        &&& self.n >= 1
        &&& self.leaves@.len() == self.n
        &&& self.tree_arr@.len() == 4 * self.n
        &&& is_pure(self.query_operation)
        &&& is_pure(self.node_operation)
        &&& clone_is_exact::<A>()
        &&& subtree_ok(self.tree_arr@, self.query_operation, 0, 0, self.n - 1, self.leaves@)
    }

    /// Whether `range` names positions of a tree over `n` positions.
    pub open spec fn valid_range(n: int, range: (usize, usize)) -> bool {
        range.0 <= range.1 < n
    }

    /// What consistency means: the backing store has four slots for each
    /// position, and from the root down each leaf holds its position's value
    /// and each inner node what the merge operator returned on its left and
    /// its right child.
    pub proof fn lemma_wf(&self)
        requires
            self.wf(),
        ensures
            self@.len() >= 1,
            self.nodes().len() == 4 * self@.len(),
            is_pure(self.merge_op()),
            is_pure(self.apply_op()),
            clone_is_exact::<A>(),
            subtree_ok(self.nodes(), self.merge_op(), 0, 0, self@.len() - 1, self@),
    {
    }

    /// Builds the tree over the values of `inp_arr`, one position for each.
    ///
    /// An empty `inp_arr` is rejected.
    pub fn new(inp_arr: &Vec<A>, query_operation: QO, node_operation: NO, fallback_value: A) -> (res:
        Result<Self, SegmentTreeError>)
        requires
            is_pure(query_operation),
            is_pure(node_operation),
            clone_is_exact::<A>(),
            4 * inp_arr.len() <= usize::MAX,
        ensures
            match res {
                Ok(tree) => {
                    &&& inp_arr.len() >= 1
                    &&& tree.wf()
                    &&& tree@ == inp_arr@
                    &&& tree.merge_op() == query_operation
                    &&& tree.apply_op() == node_operation
                    &&& tree.fallback() == fallback_value
                },
                Err(e) => inp_arr.len() == 0 && e == SegmentTreeError::EmptyInput,
            },
    {
        let n = inp_arr.len();
        if n == 0 {
            return Err(SegmentTreeError::EmptyInput);
        }
        let tree_arr: Vec<A> = vec![Default::default(); 4 * n];
        let mut a = SegmentTree {
            n,
            tree_arr,
            query_operation,
            node_operation,
            fallback_value,
            leaves: Ghost(inp_arr@),
        };
        a.__build(inp_arr, 0, (0, n - 1), Ghost(1));
        Ok(a)
    }

    /// Fills the subtree at `tree_index`, which covers `cur_range`, from
    /// `inp_arr`. `width` is the number of nodes on the level of `tree_index`.
    fn __build(
        &mut self,
        inp_arr: &Vec<A>,
        tree_index: usize,
        cur_range: (usize, usize),
        Ghost(width): Ghost<int>,
    )
        requires
            old(self).n == inp_arr.len(),
            old(self).tree_arr.len() == 4 * old(self).n,
            cur_range.0 <= cur_range.1 < old(self).n,
            is_total(old(self).query_operation),
            clone_is_exact::<A>(),
            tree_index + 2 <= 2 * width,
            (cur_range.1 - cur_range.0) * width < old(self).n,
            1 <= width <= 2 * old(self).n - 1,
        ensures
            final(self).n == old(self).n,
            final(self).query_operation == old(self).query_operation,
            final(self).node_operation == old(self).node_operation,
            final(self).fallback_value == old(self).fallback_value,
            final(self).leaves == old(self).leaves,
            final(self).tree_arr.len() == old(self).tree_arr.len(),
            forall|j: int|
                0 <= j < old(self).tree_arr.len() && !#[trigger] in_subtree(tree_index as int, j)
                    ==> final(self).tree_arr@[j] == old(self).tree_arr@[j],
            subtree_ok(
                final(self).tree_arr@,
                old(self).query_operation,
                tree_index as int,
                cur_range.0 as int,
                cur_range.1 as int,
                inp_arr@,
            ),
        decreases cur_range.1 - cur_range.0,
    {
        let (cl, cr) = cur_range;
        proof {
            lemma_family(tree_index as int);
        }
        if cl == cr {
            let leaf = inp_arr[cl].clone();
            assert(cloned(inp_arr@[cl as int], leaf));
            self.tree_arr[tree_index] = leaf;
            return;
        }
        proof {
            lemma_halves_fit(cl as int, cr as int, width, self.n as int);
        }
        let cm = cl + (cr - cl) / 2;
        let left = tree_index * 2 + 1;
        let right = tree_index * 2 + 2;
        self.__build(inp_arr, left, (cl, cm), Ghost(2 * width));
        let ghost after_left = self.tree_arr@;
        self.__build(inp_arr, right, (cm + 1, cr), Ghost(2 * width));
        let ghost after_right = self.tree_arr@;
        let left_subtree_value = self.tree_arr[left].clone();
        let right_subtree_value = self.tree_arr[right].clone();
        assert(cloned(after_right[left as int], left_subtree_value));
        assert(cloned(after_right[right as int], right_subtree_value));
        self.tree_arr[tree_index] = (self.query_operation)(&left_subtree_value, &right_subtree_value);
        proof {
            let done = self.tree_arr@;
            let f = self.query_operation;
            lemma_subtree_ok_local(after_left, done, f, left as int, cl as int, cm as int, inp_arr@, inp_arr@);
            lemma_subtree_ok_local(after_right, done, f, right as int, cm + 1, cr as int, inp_arr@, inp_arr@);
        }
    }

    /// The aggregate of the positions `range.0 ..= range.1`.
    ///
    /// A range that is reversed or reaches past the last position is
    /// rejected. Otherwise the result is what the descent from the root
    /// collects. Where the merge operator is associative and the fallback
    /// value neutral for it, that is the left-to-right fold of the values of
    /// the positions in the range. With a neutral fallback value alone, a
    /// query for one position yields that position's value; with an
    /// associative operator alone, a query for all positions yields the fold
    /// of all values.
    pub fn query(&self, range: (usize, usize)) -> (res: Result<A, SegmentTreeError>)
        requires
            self.wf(),
        ensures
            match res {
                Ok(v) => {
                    &&& Self::valid_range(self@.len() as int, range)
                    &&& forall|g: spec_fn(A, A) -> A| #[trigger]
                        models(self.merge_op(), g) ==> v == range_fold(
                            g,
                            self.fallback(),
                            self@,
                            0,
                            self@.len() - 1,
                            range.0 as int,
                            range.1 as int,
                        )
                    &&& forall|g: spec_fn(A, A) -> A| #[trigger]
                        models(self.merge_op(), g) && is_associative(g) && is_identity(
                            g,
                            self.fallback(),
                        ) ==> v == merge_fold(g, self@.subrange(range.0 as int, range.1 + 1))
                    &&& forall|g: spec_fn(A, A) -> A| #[trigger]
                        models(self.merge_op(), g) && is_identity(g, self.fallback()) && range.0
                            == range.1 ==> v == self@[range.0 as int]
                    &&& forall|g: spec_fn(A, A) -> A| #[trigger]
                        models(self.merge_op(), g) && is_associative(g) && range.0 == 0 && range.1
                            == self@.len() - 1 ==> v == merge_fold(g, self@)
                },
                Err(e) => e == SegmentTreeError::InvalidRange && !Self::valid_range(
                    self@.len() as int,
                    range,
                ),
            },
    {
        if range.0 > range.1 || range.1 >= self.n {
            return Err(SegmentTreeError::InvalidRange);
        }
        let v = self.__query(0, range, (0, self.n - 1));
        proof {
            assert forall|g: spec_fn(A, A) -> A| #[trigger]
                models(self.query_operation, g) && is_associative(g) && is_identity(
                    g,
                    self.fallback_value,
                ) implies v == merge_fold(g, self.leaves@.subrange(range.0 as int, range.1 + 1)) by {
                lemma_range_fold_is_fold(g, self.fallback_value, self.leaves@, range.0 as int, range.1 as int);
            }
            assert forall|g: spec_fn(A, A) -> A| #[trigger]
                models(self.query_operation, g) && is_identity(g, self.fallback_value) && range.0
                    == range.1 implies v == self.leaves@[range.0 as int] by {
                lemma_single_point(g, self.fallback_value, self.leaves@, 0, self.n - 1, range.0 as int);
            }
            assert forall|g: spec_fn(A, A) -> A| #[trigger]
                models(self.query_operation, g) && is_associative(g) && range.0 == 0 && range.1 == self.n
                    - 1 implies v == merge_fold(g, self.leaves@) by {
                lemma_full_range(g, self.fallback_value, self.leaves@);
            }
        }
        Ok(v)
    }

    /// What a query for `range` collects below the node at `tree_index`,
    /// which covers `cur_range`.
    fn __query(&self, tree_index: usize, range: (usize, usize), cur_range: (usize, usize)) -> (res: A)
        requires
            cur_range.0 <= cur_range.1,
            is_total(self.query_operation),
            clone_is_exact::<A>(),
            subtree_ok(
                self.tree_arr@,
                self.query_operation,
                tree_index as int,
                cur_range.0 as int,
                cur_range.1 as int,
                self.leaves@,
            ),
        ensures
            forall|g: spec_fn(A, A) -> A| #[trigger]
                models(self.query_operation, g) ==> res == range_fold(
                    g,
                    self.fallback_value,
                    self.leaves@,
                    cur_range.0 as int,
                    cur_range.1 as int,
                    range.0 as int,
                    range.1 as int,
                ),
        decreases cur_range.1 - cur_range.0,
    {
        let (l, r) = range;
        let (cl, cr) = cur_range;
        if l <= cl && cr <= r {
            let stored = self.tree_arr[tree_index].clone();
            proof {
                assert(cloned(self.tree_arr@[tree_index as int], stored));
                assert forall|g: spec_fn(A, A) -> A| #[trigger]
                    models(self.query_operation, g) implies stored == split_fold(
                    g,
                    self.leaves@,
                    cl as int,
                    cr as int,
                ) by {
                    lemma_subtree_value(
                        self.tree_arr@,
                        self.query_operation,
                        g,
                        tree_index as int,
                        cl as int,
                        cr as int,
                        self.leaves@,
                    );
                }
            }
            return stored;
        }
        if cr < l || r < cl {
            let out = self.fallback_value.clone();
            assert(cloned(self.fallback_value, out));
            return out;
        }
        assert(cl < cr);
        assert(subtree_ok(
            self.tree_arr@,
            self.query_operation,
            2 * tree_index + 2,
            midpoint(cl as int, cr as int) + 1,
            cr as int,
            self.leaves@,
        ));
        assert(2 * tree_index + 2 < self.tree_arr.len());
        let cm = cl + (cr - cl) / 2;
        let left_subtree_value = self.__query(tree_index * 2 + 1, range, (cl, cm));
        let right_subtree_value = self.__query(tree_index * 2 + 2, range, (cm + 1, cr));
        (self.query_operation)(&left_subtree_value, &right_subtree_value)
    }

    /// Applies `value` to each of the positions `range.0 ..= range.1`.
    ///
    /// A range that is reversed or reaches past the last position is
    /// rejected and leaves the tree as it was. Otherwise each position in the
    /// range takes what the apply operator returns on its old value and
    /// `value`, every other position keeps its value, and the tree is
    /// consistent again.
    pub fn update(&mut self, value: &A, range: (usize, usize)) -> (res: Result<(), SegmentTreeError>)
        requires
            old(self).wf(),
        ensures
            final(self).wf(),
            final(self).merge_op() == old(self).merge_op(),
            final(self).apply_op() == old(self).apply_op(),
            final(self).fallback() == old(self).fallback(),
            match res {
                Ok(_) => {
                    &&& Self::valid_range(old(self)@.len() as int, range)
                    &&& applied(
                        old(self).apply_op(),
                        old(self)@,
                        final(self)@,
                        *value,
                        range.0 as int,
                        range.1 as int,
                    )
                    &&& forall|g: spec_fn(A, A) -> A| #[trigger]
                        models(old(self).apply_op(), g) ==> final(self)@ == apply_range(
                            g,
                            old(self)@,
                            *value,
                            range.0 as int,
                            range.1 as int,
                        )
                },
                Err(e) => {
                    &&& e == SegmentTreeError::InvalidRange
                    &&& !Self::valid_range(old(self)@.len() as int, range)
                    &&& final(self)@ == old(self)@
                    &&& final(self).nodes() == old(self).nodes()
                },
            },
    {
        if range.0 > range.1 || range.1 >= self.n {
            return Err(SegmentTreeError::InvalidRange);
        }
        let n = self.n;
        self.__update(value, 0, range, (0, n - 1));
        proof {
            assert forall|g: spec_fn(A, A) -> A| #[trigger]
                models(self.node_operation, g) implies self.leaves@ == apply_range(
                g,
                old(self).leaves@,
                *value,
                range.0 as int,
                range.1 as int,
            ) by {
                lemma_applied_is_apply_range(
                    self.node_operation,
                    g,
                    old(self).leaves@,
                    self.leaves@,
                    *value,
                    range.0 as int,
                    range.1 as int,
                );
            }
        }
        Ok(())
    }

    /// Applies `value` to the positions of `range` below the node at
    /// `tree_index`, which covers `cur_range`, and puts the nodes on the way
    /// in order again.
    fn __update(&mut self, value: &A, tree_index: usize, range: (usize, usize), cur_range: (usize, usize))
        requires
            cur_range.0 <= cur_range.1 < old(self).leaves@.len(),
            is_total(old(self).query_operation),
            is_total(old(self).node_operation),
            clone_is_exact::<A>(),
            subtree_ok(
                old(self).tree_arr@,
                old(self).query_operation,
                tree_index as int,
                cur_range.0 as int,
                cur_range.1 as int,
                old(self).leaves@,
            ),
        ensures
            final(self).n == old(self).n,
            final(self).query_operation == old(self).query_operation,
            final(self).node_operation == old(self).node_operation,
            final(self).fallback_value == old(self).fallback_value,
            final(self).tree_arr.len() == old(self).tree_arr.len(),
            forall|j: int|
                0 <= j < old(self).tree_arr.len() && !#[trigger] in_subtree(tree_index as int, j)
                    ==> final(self).tree_arr@[j] == old(self).tree_arr@[j],
            applied(
                old(self).node_operation,
                old(self).leaves@,
                final(self).leaves@,
                *value,
                if range.0 > cur_range.0 {
                    range.0 as int
                } else {
                    cur_range.0 as int
                },
                if range.1 < cur_range.1 {
                    range.1 as int
                } else {
                    cur_range.1 as int
                },
            ),
            subtree_ok(
                final(self).tree_arr@,
                old(self).query_operation,
                tree_index as int,
                cur_range.0 as int,
                cur_range.1 as int,
                final(self).leaves@,
            ),
        decreases cur_range.1 - cur_range.0,
    {
        let (l, r) = range;
        let (cl, cr) = cur_range;
        let ghost before = self.tree_arr@;
        let ghost values = self.leaves@;
        let ghost f = self.query_operation;
        proof {
            lemma_family(tree_index as int);
        }
        if cr < l || r < cl {
            return;
        }
        if cl == cr {
            let current = self.tree_arr[tree_index].clone();
            assert(cloned(before[tree_index as int], current));
            let changed = (self.node_operation)(&current, value);
            proof {
                self.leaves@ = values.update(cl as int, changed);
            }
            self.tree_arr[tree_index] = changed;
            return;
        }
        assert(subtree_ok(before, f, 2 * tree_index + 2, midpoint(cl as int, cr as int) + 1, cr as int, values));
        assert(2 * tree_index + 2 < self.tree_arr.len());
        let cm = cl + (cr - cl) / 2;
        let left = tree_index * 2 + 1;
        let right = tree_index * 2 + 2;
        self.__update(value, left, range, (cl, cm));
        let ghost after_left = self.tree_arr@;
        let ghost values_left = self.leaves@;
        proof {
            lemma_subtree_ok_local(before, after_left, f, right as int, cm + 1, cr as int, values, values_left);
        }
        self.__update(value, right, range, (cm + 1, cr));
        let ghost after_right = self.tree_arr@;
        let left_subtree_value = self.tree_arr[left].clone();
        let right_subtree_value = self.tree_arr[right].clone();
        assert(cloned(after_right[left as int], left_subtree_value));
        assert(cloned(after_right[right as int], right_subtree_value));
        self.tree_arr[tree_index] = (self.query_operation)(&left_subtree_value, &right_subtree_value);
        proof {
            let done = self.tree_arr@;
            let values_done = self.leaves@;
            lemma_subtree_ok_local(after_left, done, f, left as int, cl as int, cm as int, values_left, values_done);
            lemma_subtree_ok_local(after_right, done, f, right as int, cm + 1, cr as int, values_done, values_done);
        }
    }
}

} // verus!
