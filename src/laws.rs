use vstd::prelude::*;
use crate::queries::{lemma_root_listing, words_containing};
use crate::trie::Trie;

verus! {

/// What `t` reaches and stores is what inserting each of `ws` in turn into a
/// fresh root leaves: the empty path, the prefixes of the words, and the
/// words themselves.
pub open spec fn holds_exactly(t: Trie, ws: Seq<Seq<char>>) -> bool {
    &&& forall|p: Seq<char>| #[trigger]
        t.reaches(p) <==> (p.len() == 0 || exists|i: int| 0 <= i < ws.len() && p.is_prefix_of(ws[i]))
    &&& forall|p: Seq<char>| #[trigger] t.stores(p) <==> ws.contains(p)
}

/// A fresh root holds no word.
pub proof fn lemma_fresh_root(t: Trie)
    requires
        t.children@.len() == 0,
        !t.is_word,
    ensures
        holds_exactly(t, Seq::empty()),
{
    assert forall|p: Seq<char>| #[trigger] t.reaches(p) <==> p.len() == 0 by {}
}

/// Inserting `w` into a tree that holds `ws` (as `add` does, by its
/// contract) gives a tree that holds `ws` followed by `w`.
pub proof fn lemma_insert(before: Trie, after: Trie, ws: Seq<Seq<char>>, w: Seq<char>)
    requires
        holds_exactly(before, ws),
        forall|p: Seq<char>| #[trigger]
            after.reaches(p) <==> (before.reaches(p) || p.is_prefix_of(w)),
        forall|p: Seq<char>| #[trigger] after.stores(p) <==> (before.stores(p) || p == w),
    ensures
        holds_exactly(after, ws.push(w)),
{
    let vs = ws.push(w);
    assert forall|p: Seq<char>| #[trigger]
        after.reaches(p) <==> (p.len() == 0 || exists|i: int| 0 <= i < vs.len() && p.is_prefix_of(vs[i])) by {
        if p.is_prefix_of(w) {
            assert(p.is_prefix_of(vs[ws.len() as int]));
        }
        if exists|i: int| 0 <= i < vs.len() && p.is_prefix_of(vs[i]) {
            let i = choose|i: int| 0 <= i < vs.len() && p.is_prefix_of(vs[i]);
            if i < ws.len() {
                assert(vs[i] == ws[i]);
            }
        }
        if before.reaches(p) && p.len() > 0 {
            let i = choose|i: int| 0 <= i < ws.len() && p.is_prefix_of(ws[i]);
            assert(vs[i] == ws[i]);
        }
    }
    assert forall|p: Seq<char>| #[trigger] after.stores(p) <==> vs.contains(p) by {
        if vs.contains(p) {
            let i = choose|i: int| 0 <= i < vs.len() && vs[i] == p;
            if i < ws.len() {
                assert(ws[i] == p);
            }
        }
        if ws.contains(p) {
            let i = choose|i: int| 0 <= i < ws.len() && ws[i] == p;
            assert(vs[i] == p);
        }
        if p == w {
            assert(vs[ws.len() as int] == p);
        }
    }
}

/// Containment soundness: every inserted word is stored and reached, and a
/// non-empty string that starts no inserted word is not reached.
pub proof fn lemma_containment(t: Trie, ws: Seq<Seq<char>>)
    requires
        holds_exactly(t, ws),
    ensures
        forall|i: int| 0 <= i < ws.len() ==> t.stores(#[trigger] ws[i]) && t.reaches(ws[i]),
        forall|p: Seq<char>|
            p.len() > 0 && (forall|i: int| 0 <= i < ws.len() ==> !p.is_prefix_of(#[trigger] ws[i]))
                ==> !#[trigger] t.reaches(p),
{
    assert forall|i: int| 0 <= i < ws.len() implies t.stores(#[trigger] ws[i]) && t.reaches(ws[i]) by {
        assert(ws.contains(ws[i]));
        assert(ws[i].is_prefix_of(ws[i]));
    }
}

/// Round trip: a root that holds the words `ws` lists each of them exactly
/// once, and nothing else.
pub proof fn lemma_round_trip(t: Trie, ws: Seq<Seq<char>>)
    requires
        t.wf(),
        t.value is None,
        holds_exactly(t, ws),
    ensures
        t.listed_words().no_duplicates(),
        t.listed_words().to_set() == ws.to_set(),
{
    lemma_root_listing(t);
    assert forall|x: Seq<char>| #[trigger] t.listed_words().to_set().contains(x) <==> ws.to_set().contains(x) by {}
    assert(t.listed_words().to_set() =~= ws.to_set());
}

/// Two sequences without repeats that hold the same elements hold each as
/// many times.
proof fn lemma_same_multiset(a: Seq<Seq<char>>, b: Seq<Seq<char>>)
    requires
        a.no_duplicates(),
        b.no_duplicates(),
        a.to_set() == b.to_set(),
    ensures
        a.to_multiset() == b.to_multiset(),
{
    a.lemma_multiset_has_no_duplicates();
    b.lemma_multiset_has_no_duplicates();
    a.to_multiset_ensures();
    b.to_multiset_ensures();
    assert forall|x: Seq<char>| a.to_multiset().count(x) == b.to_multiset().count(x) by {
        assert(a.to_set().contains(x) == a.contains(x));
        assert(b.to_set().contains(x) == b.contains(x));
    }
    assert(a.to_multiset() =~= b.to_multiset());
}

/// Idempotent insertion: a root that holds `ws` and then `w` inserted once
/// lists the same multiset of words as one that holds `ws` and then `w`
/// inserted `n` times.
pub proof fn lemma_reinsert(once: Trie, many: Trie, ws: Seq<Seq<char>>, w: Seq<char>, n: nat)
    requires
        n >= 1,
        once.wf(),
        once.value is None,
        holds_exactly(once, ws.push(w)),
        many.wf(),
        many.value is None,
        holds_exactly(many, ws + Seq::new(n, |i: int| w)),
    ensures
        once.listed_words().to_multiset() == many.listed_words().to_multiset(),
{
    let a = ws.push(w);
    let b = ws + Seq::new(n, |i: int| w);
    lemma_round_trip(once, a);
    lemma_round_trip(many, b);
    assert forall|x: Seq<char>| #[trigger] a.to_set().contains(x) <==> b.to_set().contains(x) by {
        if a.contains(x) {
            let i = choose|i: int| 0 <= i < a.len() && a[i] == x;
            if i < ws.len() {
                assert(b[i] == x);
            } else {
                assert(b[ws.len() as int] == x);
            }
        }
        if b.contains(x) {
            let i = choose|i: int| 0 <= i < b.len() && b[i] == x;
            if i < ws.len() {
                assert(a[i] == x);
            } else {
                assert(a[ws.len() as int] == x);
            }
        }
    }
    assert(a.to_set() =~= b.to_set());
    lemma_same_multiset(once.listed_words(), many.listed_words());
}

/// The queries on a tree that holds nothing return nothing.
pub proof fn lemma_empty_tree(t: Trie, substring_length: usize, substring: Seq<char>)
    requires
        t.children@.len() == 0,
        !t.is_word,
        t.value is None,
    ensures
        t.listed_words() == Seq::<Seq<char>>::empty(),
        words_containing(t.listed_words(), substring) == Seq::<Seq<char>>::empty(),
        t.window_counts(substring_length) == Map::<Seq<char>, int>::empty(),
{
    reveal(Seq::filter);
    assert(words_containing(t.listed_words(), substring) =~= Seq::<Seq<char>>::empty());
}

} // verus!
