use vstd::prelude::*;
use crate::trie::Trie;

verus! {

/// One query over a tree, as three strategies: what a node hands down to its
/// children and contributes itself (`transform`), how two contributions are
/// combined (`merge`), and which children are visited (`recurse`).
pub trait TreeFold {
    /// What a node hands down to each of its children.
    type Ctx: DeepView;

    /// What a node, or a whole subtree, contributes to the answer.
    type Part: DeepView;

    /// The context handed to the children of `node`, given the one it received.
    spec fn next_ctx(
        &self,
        node: Trie,
        ctx: <Self::Ctx as DeepView>::V,
    ) -> <Self::Ctx as DeepView>::V;

    /// The contribution of `node` alone, given the context it received.
    spec fn own_part(&self, node: Trie, ctx: <Self::Ctx as DeepView>::V) -> <
        Self::Part as DeepView>::V;

    /// Two contributions combined into one.
    spec fn combine(
        &self,
        a: <Self::Part as DeepView>::V,
        b: <Self::Part as DeepView>::V,
    ) -> <Self::Part as DeepView>::V;

    /// Whether `merge` can combine `a` and `b` (for instance without overflow).
    spec fn combinable(&self, a: <Self::Part as DeepView>::V, b: <Self::Part as DeepView>::V) -> bool;

    /// Whether `transform` can handle `node` with the context `ctx`.
    spec fn transformable(&self, node: Trie, ctx: <Self::Ctx as DeepView>::V) -> bool;

    /// Whether the child at position `i` of `node` is visited, given the
    /// context `node` hands down.
    spec fn visits(&self, node: Trie, child_ctx: <Self::Ctx as DeepView>::V, i: int) -> bool;

    /// The context for the children of `node` and the part of `node` alone.
    fn transform(&self, node: &Trie, ctx: &Self::Ctx) -> (r: (Self::Ctx, Self::Part))
        requires
            self.transformable(*node, ctx.deep_view()),
        ensures
            r.0.deep_view() == self.next_ctx(*node, ctx.deep_view()),
            r.1.deep_view() == self.own_part(*node, ctx.deep_view()),
    ;

    /// `a` and `b` combined into one part.
    fn merge(&self, a: Self::Part, b: Self::Part) -> (r: Self::Part)
        requires
            self.combinable(a.deep_view(), b.deep_view()),
        ensures
            r.deep_view() == self.combine(a.deep_view(), b.deep_view()),
    ;

    /// Whether the traversal descends into the child at position `i` of `node`.
    fn recurse(&self, node: &Trie, child_ctx: &Self::Ctx, i: usize) -> (r: bool)
        ensures
            r == self.visits(*node, child_ctx.deep_view(), i as int),
    ;
}

/// `x` combined after `acc`, or `x` alone when there is nothing before it.
pub open spec fn merge_opt<F: TreeFold>(
    f: F,
    acc: Option<<F::Part as DeepView>::V>,
    x: <F::Part as DeepView>::V,
) -> <F::Part as DeepView>::V {
    match acc {
        Some(a) => f.combine(a, x),
        None => x,
    }
}

/// Whether `x` can be combined after `acc`.
pub open spec fn merge_opt_ok<F: TreeFold>(
    f: F,
    acc: Option<<F::Part as DeepView>::V>,
    x: <F::Part as DeepView>::V,
) -> bool {
    match acc {
        Some(a) => f.combinable(a, x),
        None => true,
    }
}

/// The results of the visited children among the first `n` children of
/// `node`, combined from left to right; `None` when none of them is visited.
/// `ctx` is the context that `node` received.
pub open spec fn fold_children<F: TreeFold>(
    f: F,
    node: Trie,
    ctx: <F::Ctx as DeepView>::V,
    n: int,
) -> Option<<F::Part as DeepView>::V>
    decreases node, n,
{
    if n <= 0 || n > node.children@.len() {
        None
    } else {
        let prev = fold_children(f, node, ctx, n - 1);
        let cctx = f.next_ctx(node, ctx);
        if f.visits(node, cctx, n - 1) {
            let child = node.children@[n - 1];
            let below = fold_children(f, child, cctx, child.children@.len() as int);
            Some(merge_opt(f, prev, merge_opt(f, below, f.own_part(child, cctx))))
        } else {
            prev
        }
    }
}

/// The result of a query over the subtree rooted at `node`: the results of
/// its visited children, combined from left to right, then its own part.
pub open spec fn fold_tree<F: TreeFold>(
    f: F,
    node: Trie,
    ctx: <F::Ctx as DeepView>::V,
) -> <F::Part as DeepView>::V {
    merge_opt(
        f,
        fold_children(f, node, ctx, node.children@.len() as int),
        f.own_part(node, ctx),
    )
}

/// Every `merge` that `fold_children` performs can be made.
pub open spec fn fits_children<F: TreeFold>(
    f: F,
    node: Trie,
    ctx: <F::Ctx as DeepView>::V,
    n: int,
) -> bool
    decreases node, n,
{
    if n <= 0 || n > node.children@.len() {
        true
    } else {
        let prev = fold_children(f, node, ctx, n - 1);
        let cctx = f.next_ctx(node, ctx);
        &&& fits_children(f, node, ctx, n - 1)
        &&& f.visits(node, cctx, n - 1) ==> {
            let child = node.children@[n - 1];
            let below = fold_children(f, child, cctx, child.children@.len() as int);
            &&& f.transformable(child, cctx)
            &&& fits_children(f, child, cctx, child.children@.len() as int)
            &&& merge_opt_ok(f, below, f.own_part(child, cctx))
            &&& merge_opt_ok(f, prev, merge_opt(f, below, f.own_part(child, cctx)))
        }
    }
}

/// Every `merge` that a traversal of the subtree rooted at `node` performs can be made.
pub open spec fn fits_tree<F: TreeFold>(f: F, node: Trie, ctx: <F::Ctx as DeepView>::V) -> bool {
    &&& f.transformable(node, ctx)
    &&& fits_children(f, node, ctx, node.children@.len() as int)
    &&& merge_opt_ok(
        f,
        fold_children(f, node, ctx, node.children@.len() as int),
        f.own_part(node, ctx),
    )
}

/// What can be merged among all `n` first children can be among fewer.
pub proof fn lemma_fits_fewer<F: TreeFold>(
    f: F,
    node: Trie,
    ctx: <F::Ctx as DeepView>::V,
    i: int,
    n: int,
)
    requires
        0 <= i <= n <= node.children@.len(),
        fits_children(f, node, ctx, n),
    ensures
        fits_children(f, node, ctx, i),
    decreases n - i,
{
    if i < n {
        lemma_fits_fewer(f, node, ctx, i, n - 1);
    }
}

/// A query whose every node can be transformed and whose every pair of
/// parts can be merged fits every tree.
pub proof fn lemma_fits_total<F: TreeFold>(f: F, node: Trie, ctx: <F::Ctx as DeepView>::V)
    requires
        forall|n: Trie, c: <F::Ctx as DeepView>::V| #[trigger] f.transformable(n, c),
        forall|a: <F::Part as DeepView>::V, b: <F::Part as DeepView>::V| #[trigger]
            f.combinable(a, b),
    ensures
        fits_tree(f, node, ctx),
{
    lemma_fits_children_total(f, node, ctx, node.children@.len() as int);
}

proof fn lemma_fits_children_total<F: TreeFold>(
    f: F,
    node: Trie,
    ctx: <F::Ctx as DeepView>::V,
    n: int,
)
    requires
        forall|n: Trie, c: <F::Ctx as DeepView>::V| #[trigger] f.transformable(n, c),
        forall|a: <F::Part as DeepView>::V, b: <F::Part as DeepView>::V| #[trigger]
            f.combinable(a, b),
    ensures
        fits_children(f, node, ctx, n),
    decreases node, n,
{
    if 0 < n <= node.children@.len() {
        lemma_fits_children_total(f, node, ctx, n - 1);
        let child = node.children@[n - 1];
        let cctx = f.next_ctx(node, ctx);
        lemma_fits_children_total(f, child, cctx, child.children@.len() as int);
    }
}

impl Trie {
    /// Runs the query `f` over the subtree rooted at this node, depth first:
    /// the node's `transform` gives the context for its children and its own
    /// part; the children that `recurse` selects are traversed with that
    /// context; their results and then the node's own part are merged from
    /// left to right.
    pub fn traverse<F: TreeFold>(&self, f: &F, ctx: &F::Ctx) -> (r: F::Part)
        requires
            fits_tree(*f, *self, ctx.deep_view()),
        ensures
            r.deep_view() == fold_tree(*f, *self, ctx.deep_view()),
        decreases self,
    {
        let (child_ctx, own) = f.transform(self, ctx);
        let ghost c = ctx.deep_view();
        let mut acc: Option<F::Part> = None;
        let n = self.children.len();
        let mut i: usize = 0;
        while i < n
            invariant
                n == self.children@.len(),
                i <= n,
                child_ctx.deep_view() == f.next_ctx(*self, c),
                fits_children(*f, *self, c, n as int),
                acc.deep_view() == fold_children(*f, *self, c, i as int),
            decreases n - i,
        {
            proof {
                lemma_fits_fewer(*f, *self, c, i + 1, n as int);
            }
            if f.recurse(self, &child_ctx, i) {
                let r = self.children[i].traverse(f, &child_ctx);
                acc = match acc {
                    None => Some(r),
                    Some(a) => Some(f.merge(a, r)),
                };
            }
            i += 1;
        }
        match acc {
            None => own,
            Some(a) => f.merge(a, own),
        }
    }
}

} // verus!
