use vstd::prelude::*;
use crate::fold::{fits_children, fits_tree, fold_children, fold_tree, lemma_fits_total, merge_opt, TreeFold};
use crate::text::{chars_of, contains_chars, copy_chars, has_substring, occurs_at, string_of};
use crate::frequencies::{add_counts, count_in, WordFrequencies};
use crate::trie::{child_index, lemma_child_index, lemma_wf_child, nodes_upto, Trie};

verus! {

/// `path` followed by the label of `node`, if it has one.
pub open spec fn extend(path: Seq<char>, node: Trie) -> Seq<char> {
    match node.value {
        Some(c) => path.push(c),
        None => path,
    }
}

/// The characters of `v`, seen one level deep.
proof fn lemma_chars_deep_view(v: Vec<char>)
    ensures
        v.deep_view() == v@,
{
    assert(v.deep_view() =~= v@);
}

/// `path` followed by the label of `node`, as a new vector.
fn extended(path: &Vec<char>, node: &Trie) -> (r: Vec<char>)
    ensures
        r@ == extend(path@, *node),
{
    let mut r = copy_chars(path);
    match node.value {
        Some(c) => r.push(c),
        None => {},
    }
    r
}

/// The words of a subtree: each node hands down the characters spelled from
/// the root to it, and a node that ends a word contributes that word.
pub struct WordCollector;

impl TreeFold for WordCollector {
    type Ctx = Vec<char>;

    type Part = Vec<String>;

    open spec fn next_ctx(&self, node: Trie, ctx: Seq<char>) -> Seq<char> {
        extend(ctx, node)
    }

    open spec fn own_part(&self, node: Trie, ctx: Seq<char>) -> Seq<Seq<char>> {
        if node.is_word {
            seq![extend(ctx, node)]
        } else {
            seq![]
        }
    }

    open spec fn combine(&self, a: Seq<Seq<char>>, b: Seq<Seq<char>>) -> Seq<Seq<char>> {
        a + b
    }

    open spec fn combinable(&self, a: Seq<Seq<char>>, b: Seq<Seq<char>>) -> bool {
        true
    }

    open spec fn transformable(&self, node: Trie, ctx: Seq<char>) -> bool {
        true
    }

    open spec fn visits(&self, node: Trie, child_ctx: Seq<char>, i: int) -> bool {
        true
    }

    fn transform(&self, node: &Trie, ctx: &Vec<char>) -> (r: (Vec<char>, Vec<String>)) {
        proof {
            lemma_chars_deep_view(*ctx);
        }
        let cur = extended(ctx, node);
        let mut part: Vec<String> = Vec::new();
        if node.is_word {
            part.push(string_of(&cur));
        }
        proof {
            lemma_chars_deep_view(cur);
            assert(part.deep_view() =~= self.own_part(*node, ctx.deep_view()));
        }
        (cur, part)
    }

    fn merge(&self, a: Vec<String>, b: Vec<String>) -> (r: Vec<String>) {
        let mut a = a;
        let mut b = b;
        let ghost da = a.deep_view();
        let ghost db = b.deep_view();
        a.append(&mut b);
        assert(a.deep_view() =~= da + db);
        a
    }

    fn recurse(&self, node: &Trie, child_ctx: &Vec<char>, i: usize) -> (r: bool) {
        true
    }
}

/// The words of a subtree that contain `target`: each node hands down the
/// characters spelled from the root to it and whether they already contain
/// `target`, a mark that stays set below the node where it is first set.
pub struct SubstringFilter {
    pub target: Vec<char>,
}

impl TreeFold for SubstringFilter {
    type Ctx = (Vec<char>, bool);

    type Part = Vec<String>;

    open spec fn next_ctx(&self, node: Trie, ctx: (Seq<char>, bool)) -> (Seq<char>, bool) {
        (extend(ctx.0, node), ctx.1 || has_substring(extend(ctx.0, node), self.target@))
    }

    open spec fn own_part(&self, node: Trie, ctx: (Seq<char>, bool)) -> Seq<Seq<char>> {
        if self.next_ctx(node, ctx).1 && node.is_word {
            seq![extend(ctx.0, node)]
        } else {
            seq![]
        }
    }

    open spec fn combine(&self, a: Seq<Seq<char>>, b: Seq<Seq<char>>) -> Seq<Seq<char>> {
        a + b
    }

    open spec fn combinable(&self, a: Seq<Seq<char>>, b: Seq<Seq<char>>) -> bool {
        true
    }

    open spec fn transformable(&self, node: Trie, ctx: (Seq<char>, bool)) -> bool {
        true
    }

    open spec fn visits(&self, node: Trie, child_ctx: (Seq<char>, bool), i: int) -> bool {
        true
    }

    fn transform(&self, node: &Trie, ctx: &(Vec<char>, bool)) -> (r: ((Vec<char>, bool), Vec<String>)) {
        proof {
            lemma_chars_deep_view(ctx.0);
        }
        let cur = extended(&ctx.0, node);
        let found = ctx.1 || contains_chars(&cur, &self.target);
        let mut part: Vec<String> = Vec::new();
        if found && node.is_word {
            part.push(string_of(&cur));
        }
        proof {
            lemma_chars_deep_view(cur);
            assert(part.deep_view() =~= self.own_part(*node, ctx.deep_view()));
        }
        ((cur, found), part)
    }

    fn merge(&self, a: Vec<String>, b: Vec<String>) -> (r: Vec<String>) {
        let mut a = a;
        let mut b = b;
        let ghost da = a.deep_view();
        let ghost db = b.deep_view();
        a.append(&mut b);
        assert(a.deep_view() =~= da + db);
        a
    }

    fn recurse(&self, node: &Trie, child_ctx: &(Vec<char>, bool), i: usize) -> (r: bool) {
        true
    }
}

/// The last `k` characters of `s`, or all of them when there are fewer.
pub open spec fn last_chars(s: Seq<char>, k: nat) -> Seq<char> {
    if s.len() > k {
        s.subrange(s.len() - k, s.len() as int)
    } else {
        s
    }
}

/// How much a node adds to the count of the window that ends at it: one for
/// each child, and one more when a word ends there.
pub open spec fn weight(node: Trie) -> int {
    node.children@.len() + if node.is_word {
        1int
    } else {
        0
    }
}

/// Counts of the windows of `length` characters along the paths of a
/// subtree: each node hands down the last `length` characters spelled from
/// the root to it; a node whose window is full adds its weight to the count
/// of that window.
pub struct WindowCounter {
    pub length: usize,
}

impl TreeFold for WindowCounter {
    type Ctx = Vec<char>;

    type Part = WordFrequencies;

    open spec fn next_ctx(&self, node: Trie, ctx: Seq<char>) -> Seq<char> {
        last_chars(extend(ctx, node), self.length as nat)
    }

    open spec fn own_part(&self, node: Trie, ctx: Seq<char>) -> Map<Seq<char>, int> {
        let w = self.next_ctx(node, ctx);
        if 0 < self.length && w.len() == self.length {
            Map::empty().insert(w, weight(node))
        } else {
            Map::empty()
        }
    }

    open spec fn combine(&self, a: Map<Seq<char>, int>, b: Map<Seq<char>, int>) -> Map<
        Seq<char>,
        int,
    > {
        add_counts(a, b)
    }

    open spec fn combinable(&self, a: Map<Seq<char>, int>, b: Map<Seq<char>, int>) -> bool {
        forall|k: Seq<char>| count_in(a, k) + count_in(b, k) <= usize::MAX
    }

    open spec fn transformable(&self, node: Trie, ctx: Seq<char>) -> bool {
        weight(node) <= usize::MAX
    }

    open spec fn visits(&self, node: Trie, child_ctx: Seq<char>, i: int) -> bool {
        true
    }

    fn transform(&self, node: &Trie, ctx: &Vec<char>) -> (r: (Vec<char>, WordFrequencies)) {
        proof {
            lemma_chars_deep_view(*ctx);
        }
        let cur = extended(ctx, node);
        let k = self.length;
        let window = if cur.len() > k {
            let start = cur.len() - k;
            let mut w: Vec<char> = Vec::new();
            let mut i: usize = start;
            while i < cur.len()
                invariant
                    start <= i <= cur@.len(),
                    w@ == cur@.subrange(start as int, i as int),
                decreases cur@.len() - i,
            {
                w.push(cur[i]);
                assert(cur@.subrange(start as int, i as int).push(cur@[i as int]) =~= cur@.subrange(
                    start as int,
                    i + 1,
                ));
                i += 1;
            }
            w
        } else {
            cur
        };
        let part = if 0 < k && window.len() == k {
            let count = node.children.len() + if node.is_word {
                1
            } else {
                0
            };
            WordFrequencies::single(string_of(&window), count)
        } else {
            WordFrequencies::new()
        };
        proof {
            lemma_chars_deep_view(window);
        }
        (window, part)
    }

    fn merge(&self, a: WordFrequencies, b: WordFrequencies) -> (r: WordFrequencies) {
        a.merge_with(&b)
    }

    fn recurse(&self, node: &Trie, child_ctx: &Vec<char>, i: usize) -> (r: bool) {
        true
    }
}

/// The words that a partial result holds, none when there is none.
pub open spec fn words_or_none(o: Option<Seq<Seq<char>>>) -> Seq<Seq<char>> {
    match o {
        Some(ws) => ws,
        None => Seq::empty(),
    }
}

/// The counts that a partial result holds, none when there is none.
pub open spec fn opt_counts(o: Option<Map<Seq<char>, int>>) -> Map<Seq<char>, int> {
    match o {
        Some(m) => m,
        None => Map::empty(),
    }
}

/// Counting the windows of the first `n` children of `node` never overflows,
/// gives each key at most `2 * nodes_upto(node, n) - n`, and keys only windows
/// of the full length.
proof fn lemma_window_children(f: WindowCounter, node: Trie, ctx: Seq<char>, n: int)
    requires
        0 <= n <= node.children@.len(),
        2 * nodes_upto(node, n) + 2 <= usize::MAX,
    ensures
        fits_children(f, node, ctx, n),
        nodes_upto(node, n) >= n,
        forall|k: Seq<char>|
            #![trigger count_in(opt_counts(fold_children(f, node, ctx, n)), k)]
            count_in(opt_counts(fold_children(f, node, ctx, n)), k) <= 2 * nodes_upto(node, n) - n,
        forall|k: Seq<char>| #[trigger]
            opt_counts(fold_children(f, node, ctx, n)).contains_key(k) ==> k.len() == f.length,
    decreases node, n,
{
    if n > 0 {
        let child = node.children@[n - 1];
        let clen = child.children@.len() as int;
        let cctx = f.next_ctx(node, ctx);
        lemma_window_children(f, node, ctx, n - 1);
        lemma_window_children(f, child, cctx, clen);
        let prev = fold_children(f, node, ctx, n - 1);
        let below = fold_children(f, child, cctx, clen);
        let own = f.own_part(child, cctx);
        let sub = merge_opt(f, below, own);
        assert forall|k: Seq<char>| count_in(own, k) <= clen + 1 by {}
        assert(f.combinable(opt_counts(below), own));
        assert forall|k: Seq<char>| #[trigger] count_in(sub, k) <= 2 * nodes_upto(child, clen) + 1 by {
            if below is Some {
                assert(count_in(sub, k) == count_in(opt_counts(below), k) + count_in(own, k));
            }
        }
        assert forall|k: Seq<char>| #[trigger] sub.contains_key(k) implies k.len() == f.length by {}
        assert(f.combinable(opt_counts(prev), sub));
        let cur = fold_children(f, node, ctx, n);
        assert(cur == Some(merge_opt(f, prev, sub)));
        assert forall|k: Seq<char>| #[trigger] count_in(opt_counts(cur), k) <= 2 * nodes_upto(
            node,
            n,
        ) - n by {
            if prev is Some {
                assert(count_in(opt_counts(cur), k) == count_in(opt_counts(prev), k) + count_in(
                    sub,
                    k,
                ));
            }
        }
    }
}

/// Counting the windows of a subtree never overflows, and keys only windows
/// of the full length.
proof fn lemma_window_tree(f: WindowCounter, node: Trie, ctx: Seq<char>)
    requires
        2 * node.node_count() <= usize::MAX,
    ensures
        fits_tree(f, node, ctx),
        forall|k: Seq<char>| #[trigger]
            fold_tree(f, node, ctx).contains_key(k) ==> k.len() == f.length,
{
    let len = node.children@.len() as int;
    lemma_window_children(f, node, ctx, len);
    let below = fold_children(f, node, ctx, len);
    let own = f.own_part(node, ctx);
    assert forall|k: Seq<char>| count_in(own, k) <= len + 1 by {}
    assert(f.combinable(opt_counts(below), own));
}

/// The words among `ws` that contain `t`, in the same order.
pub open spec fn words_containing(ws: Seq<Seq<char>>, t: Seq<char>) -> Seq<Seq<char>> {
    ws.filter(|w: Seq<char>| has_substring(w, t))
}

/// A string that contains `t` still does with one more character.
proof fn lemma_substring_extend(s: Seq<char>, t: Seq<char>, node: Trie)
    requires
        has_substring(s, t),
    ensures
        has_substring(extend(s, node), t),
{
    let i = choose|i: int| occurs_at(s, t, i);
    let e = extend(s, node);
    assert(e.subrange(i, i + t.len()) =~= s.subrange(i, i + t.len()));
    assert(occurs_at(e, t, i));
}

/// What a node contributes to the filtered traversal is what it contributes
/// to the listing, filtered.
proof fn lemma_own_filter(f: SubstringFilter, node: Trie, path: Seq<char>, found: bool)
    requires
        found ==> has_substring(path, f.target@),
    ensures
        f.own_part(node, (path, found)) == words_containing(
            WordCollector.own_part(node, path),
            f.target@,
        ),
{
    let t = f.target@;
    let pred = |w: Seq<char>| has_substring(w, t);
    let own_w = WordCollector.own_part(node, path);
    if found {
        lemma_substring_extend(path, t, node);
    }
    assert(f.next_ctx(node, (path, found)).1 == has_substring(extend(path, node), t));
    reveal_with_fuel(Seq::filter, 2);
    if node.is_word {
        let x = extend(path, node);
        assert(own_w.drop_last() =~= Seq::<Seq<char>>::empty());
        assert(own_w.last() == x);
        if pred(x) {
            assert(own_w.filter(pred) =~= seq![x]);
        } else {
            assert(own_w.filter(pred) =~= Seq::<Seq<char>>::empty());
        }
    } else {
        assert(own_w.filter(pred) =~= Seq::<Seq<char>>::empty());
    }
    assert(f.own_part(node, (path, found)) =~= own_w.filter(pred));
}

/// Over the first `n` children, the filtered traversal keeps exactly the
/// listed words that contain the target, given a context whose mark is set
/// only where the path contains the target.
proof fn lemma_filter_children(
    f: SubstringFilter,
    node: Trie,
    path: Seq<char>,
    found: bool,
    n: int,
)
    requires
        0 <= n <= node.children@.len(),
        found ==> has_substring(path, f.target@),
    ensures
        fold_children(f, node, (path, found), n) is Some <==> fold_children(WordCollector, node, path, n) is Some,
        fold_children(f, node, (path, found), n) is Some ==> fold_children(f, node, (path, found), n)->0
            == words_containing(fold_children(WordCollector, node, path, n)->0, f.target@),
    decreases node, n,
{
    if n > 0 {
        let child = node.children@[n - 1];
        let clen = child.children@.len() as int;
        let p = extend(path, node);
        if found {
            lemma_substring_extend(path, f.target@, node);
        }
        let cctx = f.next_ctx(node, (path, found));
        assert(cctx == (p, has_substring(p, f.target@)));
        lemma_filter_children(f, node, path, found, n - 1);
        lemma_filter_children(f, child, p, has_substring(p, f.target@), clen);
        let t = f.target@;
        let pred = |w: Seq<char>| has_substring(w, t);
        let own_w = WordCollector.own_part(child, p);
        let own_f = f.own_part(child, cctx);
        lemma_own_filter(f, child, p, has_substring(p, f.target@));
        let below_w = fold_children(WordCollector, child, p, clen);
        let below_f = fold_children(f, child, cctx, clen);
        let sub_w = merge_opt(WordCollector, below_w, own_w);
        let sub_f = merge_opt(f, below_f, own_f);
        if below_w is Some {
            Seq::filter_distributes_over_add(below_w->0, own_w, pred);
        }
        assert(sub_f == sub_w.filter(pred));
        let prev_w = fold_children(WordCollector, node, path, n - 1);
        if prev_w is Some {
            Seq::filter_distributes_over_add(prev_w->0, sub_w, pred);
        }
    }
}

/// An element of two sequences put together is an element of one of them.
proof fn lemma_concat_contains(a: Seq<Seq<char>>, b: Seq<Seq<char>>, x: Seq<char>)
    ensures
        (a + b).contains(x) <==> (a.contains(x) || b.contains(x)),
{
    if (a + b).contains(x) {
        let i = choose|i: int| 0 <= i < (a + b).len() && (a + b)[i] == x;
        if i >= a.len() {
            assert(b[i - a.len()] == x);
        }
    }
    if a.contains(x) {
        let i = choose|i: int| 0 <= i < a.len() && a[i] == x;
        assert((a + b)[i] == x);
    }
    if b.contains(x) {
        let i = choose|i: int| 0 <= i < b.len() && b[i] == x;
        assert((a + b)[a.len() + i] == x);
    }
}

/// `x` is `p` followed by a word stored below `node`.
pub open spec fn spelled_below(node: Trie, p: Seq<char>, x: Seq<char>) -> bool {
    p.is_prefix_of(x) && node.stores(x.subrange(p.len() as int, x.len() as int))
}

/// A word stored below the child at `j` is a word stored below `node` whose
/// first character is that child's label.
proof fn lemma_step_down(node: Trie, p: Seq<char>, x: Seq<char>, j: int)
    requires
        node.wf(),
        0 <= j < node.children@.len(),
    ensures
        spelled_below(node.children@[j], p.push(node.children@[j].value->0), x) <==> {
            &&& spelled_below(node, p, x)
            &&& x.len() > p.len()
            &&& child_index(node.children@, x[p.len() as int]) == j
        },
{
    let child = node.children@[j];
    let c = child.value->0;
    let q = p.push(c);
    let r = x.subrange(p.len() as int, x.len() as int);
    if q.is_prefix_of(x) {
        assert(x.subrange(0, p.len() as int) =~= x.subrange(0, q.len() as int).subrange(0, p.len() as int));
        assert(p =~= q.subrange(0, p.len() as int));
        assert(x[p.len() as int] == x.subrange(0, q.len() as int)[p.len() as int]);
    }
    if x.len() > p.len() {
        if child_index(node.children@, x[p.len() as int]) == j || (p.is_prefix_of(x) && x[p.len() as int] == c) {
            lemma_child_index(node.children@, c, j);
            assert(r[0] == x[p.len() as int]);
            assert(r.drop_first() =~= x.subrange(q.len() as int, x.len() as int));
            assert(node.reach(r) == child.reach(r.drop_first()));
        }
        if p.is_prefix_of(x) && x[p.len() as int] == c {
            assert(x.subrange(0, q.len() as int) =~= q);
        }
        if child_index(node.children@, x[p.len() as int]) == j {
            assert(node.children@[j].value == Some(x[p.len() as int]));
        }
    }
}

/// Listing the subtrees of the first `n` children of `node`, which received
/// `path`, gives each word stored below them once: the words below `node`
/// that go on through one of those children.
proof fn lemma_listing_children(node: Trie, path: Seq<char>, n: int)
    requires
        node.wf(),
        0 <= n <= node.children@.len(),
    ensures
        ({
            let l = words_or_none(fold_children(WordCollector, node, path, n));
            let p = extend(path, node);
            &&& l.no_duplicates()
            &&& forall|x: Seq<char>| #[trigger]
                l.contains(x) <==> {
                    &&& spelled_below(node, p, x)
                    &&& x.len() > p.len()
                    &&& child_index(node.children@, x[p.len() as int]) < n
                }
        }),
    decreases node, n,
{
    let p = extend(path, node);
    if n == 0 {
        assert forall|x: Seq<char>| spelled_below(node, p, x) && x.len() > p.len() implies child_index(
            node.children@,
            x[p.len() as int],
        ) >= 0 by {
            let r = x.subrange(p.len() as int, x.len() as int);
            assert(r[0] == x[p.len() as int]);
        }
    } else {
        let j = n - 1;
        let child = node.children@[j];
        let clen = child.children@.len() as int;
        let q = extend(p, child);
        lemma_wf_child(node, j);
        lemma_listing_children(node, path, j);
        lemma_listing_children(child, p, clen);
        let prev = words_or_none(fold_children(WordCollector, node, path, j));
        let below = words_or_none(fold_children(WordCollector, child, p, clen));
        let own = WordCollector.own_part(child, p);
        let sub = below + own;
        assert(merge_opt(WordCollector, fold_children(WordCollector, child, p, clen), own) == sub);
        assert(words_or_none(fold_children(WordCollector, node, path, n)) == prev + sub);
        assert(q == p.push(child.value->0));
        // What the child's subtree lists: the words stored below it.
        assert forall|x: Seq<char>| #[trigger] sub.contains(x) <==> spelled_below(child, q, x) by {
            lemma_concat_contains(below, own, x);
            if x == q {
                assert(x.subrange(q.len() as int, x.len() as int) =~= Seq::<char>::empty());
                assert(q.is_prefix_of(x));
                if child.is_word {
                    assert(own[0] == x);
                }
            } else {
                if spelled_below(child, q, x) {
                    let r = x.subrange(q.len() as int, x.len() as int);
                    if x.len() == q.len() {
                        assert(x =~= q);
                    }
                    assert(r[0] == x[q.len() as int]);
                }
                if own.contains(x) {
                    assert(own[0] == x);
                }
            }
        }
        assert(sub.no_duplicates()) by {
            if child.is_word {
                assert forall|a: int, b: int| 0 <= a < below.len() && 0 <= b < own.len() implies below[a]
                    != own[b] by {
                    assert(below.contains(below[a]));
                }
                vstd::seq_lib::lemma_no_dup_in_concat(below, own);
            } else {
                assert(sub =~= below);
            }
        }
        assert forall|x: Seq<char>| #[trigger] sub.contains(x) <==> {
            &&& spelled_below(node, p, x)
            &&& x.len() > p.len()
            &&& child_index(node.children@, x[p.len() as int]) == j
        } by {
            lemma_step_down(node, p, x, j);
        }
        assert forall|a: int, b: int| 0 <= a < prev.len() && 0 <= b < sub.len() implies prev[a]
            != sub[b] by {
            assert(prev.contains(prev[a]));
            assert(sub.contains(sub[b]));
        }
        vstd::seq_lib::lemma_no_dup_in_concat(prev, sub);
        assert forall|x: Seq<char>| #[trigger] (prev + sub).contains(x) <==> {
            &&& spelled_below(node, p, x)
            &&& x.len() > p.len()
            &&& child_index(node.children@, x[p.len() as int]) < n
        } by {
            lemma_concat_contains(prev, sub, x);
        }
    }
}

/// Listing a well-formed subtree gives each word stored below it once,
/// after the path that leads there.
pub proof fn lemma_listing(node: Trie, path: Seq<char>)
    requires
        node.wf(),
    ensures
        fold_tree(WordCollector, node, path).no_duplicates(),
        forall|x: Seq<char>| #[trigger]
            fold_tree(WordCollector, node, path).contains(x) <==> spelled_below(
                node,
                extend(path, node),
                x,
            ),
{
    let len = node.children@.len() as int;
    let p = extend(path, node);
    lemma_listing_children(node, path, len);
    let below = words_or_none(fold_children(WordCollector, node, path, len));
    let own = WordCollector.own_part(node, path);
    assert(fold_tree(WordCollector, node, path) == below + own);
    assert forall|x: Seq<char>| #[trigger] (below + own).contains(x) <==> spelled_below(node, p, x) by {
        lemma_concat_contains(below, own, x);
        if x == p {
            assert(x.subrange(p.len() as int, x.len() as int) =~= Seq::<char>::empty());
            assert(p.is_prefix_of(x));
            if node.is_word {
                assert(own[0] == x);
            }
        } else {
            if spelled_below(node, p, x) {
                let r = x.subrange(p.len() as int, x.len() as int);
                if x.len() == p.len() {
                    assert(x =~= p);
                }
                assert(r[0] == x[p.len() as int]);
            }
            if own.contains(x) {
                assert(own[0] == x);
            }
        }
    }
    if node.is_word {
        assert forall|a: int, b: int| 0 <= a < below.len() && 0 <= b < own.len() implies below[a]
            != own[b] by {
            assert(below.contains(below[a]));
        }
        vstd::seq_lib::lemma_no_dup_in_concat(below, own);
    } else {
        assert(below + own =~= below);
    }
}

/// A well-formed root lists each stored word once, and nothing else.
pub proof fn lemma_root_listing(t: Trie)
    requires
        t.wf(),
        t.value is None,
    ensures
        t.listed_words().no_duplicates(),
        forall|x: Seq<char>| #[trigger] t.listed_words().contains(x) <==> t.stores(x),
{
    lemma_listing(t, Seq::empty());
    assert(extend(Seq::empty(), t) == Seq::<char>::empty());
    assert forall|x: Seq<char>| #[trigger] t.listed_words().contains(x) <==> t.stores(x) by {
        assert(Seq::<char>::empty().is_prefix_of(x));
        assert(x.subrange(0, x.len() as int) =~= x);
        assert(spelled_below(t, Seq::empty(), x) == t.stores(x));
    }
}

impl Trie {
    /// The words stored in the subtree rooted at this node, in the order in
    /// which they are listed: the words below each child in turn, then the
    /// word that ends here. Each word starts with this node's own label.
    pub open spec fn listed_words(self) -> Seq<Seq<char>> {
        fold_tree(WordCollector, self, Seq::empty())
    }

    /// Every word stored in the tree, as the traversal lists it. On a
    /// well-formed root these are the stored words, each once.
    pub fn get_all_words(&self) -> (r: Vec<String>)
        ensures
            r.deep_view() == self.listed_words(),
            self.wf() && self.value is None ==> {
                &&& r.deep_view().no_duplicates()
                &&& forall|x: Seq<char>| #[trigger] r.deep_view().contains(x) <==> self.stores(x)
            },
    {
        let f = WordCollector;
        let start: Vec<char> = Vec::new();
        proof {
            lemma_chars_deep_view(start);
            assert(start@ =~= Seq::<char>::empty());
            lemma_fits_total(f, *self, start.deep_view());
        }
        let r = self.traverse(&f, &start);
        proof {
            if self.wf() && self.value is None {
                lemma_root_listing(*self);
            }
        }
        r
    }

    /// The counts of the windows of `substring_length` characters along the
    /// paths of the tree. The count of a window adds up, over the nodes where
    /// it ends, the number of children of the node and one more when a word
    /// ends there.
    pub open spec fn window_counts(self, substring_length: usize) -> Map<Seq<char>, int> {
        fold_tree(WindowCounter { length: substring_length }, self, Seq::empty())
    }

    /// The table of the windows of `substring_length` characters along the
    /// paths of the tree, with their counts. Each count is at most twice the
    /// number of nodes, so the number of nodes must leave room for that.
    pub fn get_all_substring_frequencies(&self, substring_length: usize) -> (r: WordFrequencies)
        requires
            2 * self.node_count() <= usize::MAX,
        ensures
            r@ == self.window_counts(substring_length),
            forall|k: Seq<char>| #[trigger] r@.contains_key(k) ==> k.len() == substring_length,
    {
        let f = WindowCounter { length: substring_length };
        let start: Vec<char> = Vec::new();
        proof {
            lemma_chars_deep_view(start);
            assert(start@ =~= Seq::<char>::empty());
            lemma_window_tree(f, *self, start.deep_view());
        }
        self.traverse(&f, &start)
    }
    /// The words stored in the tree that contain `substring`, in the order
    /// in which `get_all_words` lists them. On a well-formed root these are
    /// exactly the stored words that contain it.
    pub fn get_all_words_with_containing_substring(&self, substring: &str) -> (r: Vec<String>)
        ensures
            r.deep_view() == words_containing(self.listed_words(), substring@),
            self.wf() && self.value is None ==> forall|x: Seq<char>| #[trigger]
                r.deep_view().contains(x) <==> (self.stores(x) && has_substring(x, substring@)),
    {
        let f = SubstringFilter { target: chars_of(substring) };
        let start: (Vec<char>, bool) = (Vec::new(), false);
        proof {
            lemma_chars_deep_view(start.0);
            assert(start.0@ =~= Seq::<char>::empty());
            lemma_fits_total(f, *self, start.deep_view());
            lemma_filter_children(f, *self, Seq::empty(), false, self.children@.len() as int);
        }
        let r = self.traverse(&f, &start);
        proof {
            let t = substring@;
            let pred = |w: Seq<char>| has_substring(w, t);
            let own_w = WordCollector.own_part(*self, Seq::empty());
            lemma_own_filter(f, *self, Seq::empty(), false);
            let below_w = fold_children(WordCollector, *self, Seq::empty(), self.children@.len() as int);
            if below_w is Some {
                Seq::filter_distributes_over_add(below_w->0, own_w, pred);
            }
            if self.wf() && self.value is None {
                let l = self.listed_words();
                lemma_root_listing(*self);
                assert forall|x: Seq<char>| #[trigger] r.deep_view().contains(x) <==> (self.stores(x)
                    && has_substring(x, t)) by {
                    assert(pred(x) == has_substring(x, t));
                    assert(r.deep_view() == l.filter(pred));
                    if r.deep_view().contains(x) {
                        l.lemma_filter_contains_rev(pred, x);
                        let i = choose|i: int| 0 <= i < l.filter(pred).len() && l.filter(pred)[i] == x;
                        l.lemma_filter_pred(pred, i);
                    }
                    if self.stores(x) && has_substring(x, t) {
                        assert(self.listed_words().contains(x));
                        let i = choose|i: int| 0 <= i < l.len() && l[i] == x;
                        assert(pred(l[i]));
                        l.lemma_filter_contains(pred, i);
                    }
                }
            }
        }
        r
    }
}

} // verus!
