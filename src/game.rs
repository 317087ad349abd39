use vstd::prelude::*;
use rand::seq::SliceRandom;
use crate::frequencies::lemma_table_at;
use crate::gamestate::{self, masked, GameState, GameWord};
use crate::queries::words_containing;
use crate::text::has_substring;
use crate::trie::Trie;

verus! {

/// The length of the substrings that a game is built around.
pub const SUBSTRING_LENGTH: usize = 3;

/// How many of the most frequent substrings a game is drawn from.
pub const CANDIDATES: usize = 20;

/// `pick` is a key of `counts` that belongs to some `n` keys (or fewer) that
/// no other key outcounts.
pub open spec fn among_most_frequent(counts: Map<Seq<char>, int>, pick: Seq<char>, n: int) -> bool {
    &&& counts.contains_key(pick)
    &&& exists|top: Seq<Seq<char>>|
        {
            &&& top.len() <= n
            &&& top.contains(pick)
            &&& forall|k: Seq<char>|
                #![trigger counts.contains_key(k), top.contains(k)]
                counts.contains_key(k) && !top.contains(k) ==> counts[k] <= counts[pick]
        }
}

/// Relies on rand's `SliceRandom::shuffle` with the thread-local generator:
/// it only swaps items, so it keeps each of them. (The thread-local
/// generator panics if the system source of randomness fails.)
#[verifier::external_body]
fn shuffle(v: &mut Vec<usize>)
    ensures
        final(v)@.to_multiset() == old(v)@.to_multiset(),
{
    v.shuffle(&mut rand::thread_rng());
}

/// The positions of the entries with the highest counts, highest first, at
/// most `n` of them; ties keep the order of the entries. Fewer than `n` only
/// when every entry is among them.
pub fn most_frequent(es: &Vec<(String, usize)>, n: usize) -> (r: Vec<usize>)
    ensures
        r@.len() <= n,
        r@.no_duplicates(),
        forall|i: int| 0 <= i < r@.len() ==> #[trigger] r@[i] < es@.len(),
        r@.len() < n ==> forall|t: usize| t < es@.len() ==> #[trigger] r@.contains(t),
        forall|i: int, j: int|
            0 <= i < j < r@.len() ==> es@[#[trigger] r@[i] as int].1 >= es@[#[trigger] r@[j] as int].1,
        forall|i: int, t: int|
            0 <= i < r@.len() && 0 <= t < es@.len() && !r@.contains(t as usize) ==> es@[
                #[trigger] r@[i] as int].1 >= #[trigger] es@[t].1,
{
    let len = es.len();
    let mut taken: Vec<bool> = Vec::new();
    let mut k: usize = 0;
    while k < len
        invariant
            len == es@.len(),
            k <= len,
            taken@.len() == k,
            forall|t: int| 0 <= t < k ==> !taken@[t],
        decreases len - k,
    {
        taken.push(false);
        k += 1;
    }
    let mut picked: Vec<usize> = Vec::new();
    while picked.len() < n
        invariant
            len == es@.len(),
            taken@.len() == len,
            picked@.len() <= n,
            picked@.no_duplicates(),
            forall|i: int| 0 <= i < picked@.len() ==> #[trigger] picked@[i] < len,
            forall|t: int| 0 <= t < len ==> (#[trigger] taken@[t] <==> picked@.contains(t as usize)),
            forall|i: int, j: int|
                0 <= i < j < picked@.len() ==> es@[#[trigger] picked@[i] as int].1 >= es@[
                    #[trigger] picked@[j] as int].1,
            forall|i: int, t: int|
                0 <= i < picked@.len() && 0 <= t < len && !taken@[t] ==> es@[
                    #[trigger] picked@[i] as int].1 >= #[trigger] es@[t].1,
        decreases n - picked@.len(),
    {
        let mut best: Option<usize> = None;
        let mut t: usize = 0;
        while t < len
            invariant
                len == es@.len(),
                taken@.len() == len,
                t <= len,
                best matches Some(b) ==> b < len && !taken@[b as int] && forall|u: int|
                    0 <= u < t && !taken@[u] ==> es@[b as int].1 >= #[trigger] es@[u].1,
                best is None ==> forall|u: int| 0 <= u < t ==> #[trigger] taken@[u],
            decreases len - t,
        {
            if !taken[t] {
                match best {
                    None => {
                        best = Some(t);
                    },
                    Some(b) => {
                        if es[t].1 > es[b].1 {
                            best = Some(t);
                        }
                    },
                }
            }
            t += 1;
        }
        match best {
            None => {
                assert forall|t: usize| t < es@.len() implies #[trigger] picked@.contains(t) by {
                    assert(taken@[t as int]);
                }
                return picked;
            },
            Some(b) => {
                let ghost before = picked@;
                picked.push(b);
                taken.set(b, true);
                proof {
                    assert forall|t: int| 0 <= t < len implies (#[trigger] taken@[t] <==> picked@.contains(
                        t as usize,
                    )) by {
                        if picked@.contains(t as usize) && t != b {
                            let i = choose|i: int| 0 <= i < picked@.len() && picked@[i] == t as usize;
                            assert(before[i] == t as usize);
                        }
                        if t != b && before.contains(t as usize) {
                            let i = choose|i: int| 0 <= i < before.len() && before[i] == t as usize;
                            assert(picked@[i] == t as usize);
                        }
                        if t == b {
                            assert(picked@[before.len() as int] == b);
                        }
                    }
                    assert(!before.contains(b));
                    assert(picked@.no_duplicates()) by {
                        assert forall|i: int, j: int|
                            0 <= i < picked@.len() && 0 <= j < picked@.len() && i != j implies picked@[i]
                            != picked@[j] by {
                            if i == before.len() {
                                assert(before.contains(picked@[j]) || j == i);
                            } else if j == before.len() {
                                assert(before.contains(picked@[i]));
                            }
                        }
                    }
                }
            },
        }
    }
    picked
}

/// A game over a tree of words, and the state of the game being played.
pub struct GameController {
    pub model: Trie,
    pub state: GameState,
}

impl GameController {
    /// A controller over `trie`, showing the menu.
    pub fn new(trie: Trie) -> (r: GameController)
        ensures
            r.model == trie,
            r.state.substring is None,
            r.state.words@.len() == 0,
            r.state.view == gamestate::View::MENU,
    {
        GameController { model: trie, state: GameState::init_state() }
    }
    /// Starts a game around one of the most frequent substrings of
    /// `SUBSTRING_LENGTH` characters, drawn at random among the `CANDIDATES`
    /// most frequent: the words are those of the tree that contain it, each
    /// masked but for it. With no such substring the state stays as it was.
    pub fn start_random(&mut self) -> (r: &GameState)
        requires
            2 * old(self).model.node_count() <= usize::MAX,
        ensures
            *r == final(self).state,
            final(self).model == old(self).model,
            old(self).model.window_counts(SUBSTRING_LENGTH) == Map::<Seq<char>, int>::empty()
                ==> final(self).state == old(self).state,
            old(self).model.window_counts(SUBSTRING_LENGTH) != Map::<Seq<char>, int>::empty() ==> {
                let counts = old(self).model.window_counts(SUBSTRING_LENGTH);
                let s = final(self).state;
                let words = words_containing(old(self).model.listed_words(), s.substring->0@);
                &&& s.substring is Some
                &&& among_most_frequent(counts, s.substring->0@, CANDIDATES as int)
                &&& s.view == gamestate::View::PLAY
                &&& s.words@.len() == words.len()
                &&& forall|i: int|
                    0 <= i < words.len() ==> {
                        &&& (#[trigger] s.words@[i]).word@ == words[i]
                        &&& s.words@[i].masked_word@ == masked(words[i], s.substring->0@)
                        &&& !s.words@[i].completed
                    }
            },
    {
        let freqs = self.model.get_all_substring_frequencies(SUBSTRING_LENGTH);
        let es = freqs.entries();
        let n_es = es.len();
        let ghost counts = self.model.window_counts(SUBSTRING_LENGTH);
        let mut top = most_frequent(es, CANDIDATES);
        if top.len() == 0 {
            proof {
                if es@.len() > 0 {
                    assert(top@.contains(0usize));
                }
                assert(counts =~= Map::<Seq<char>, int>::empty()) by {
                    assert forall|k: Seq<char>| !counts.contains_key(k) by {
                        if counts.contains_key(k) {
                            let i = choose|i: int| 0 <= i < es@.len() && es@[i].0@ == k;
                        }
                    }
                }
            }
            return &self.state;
        }
        let ghost unshuffled = top@;
        shuffle(&mut top);
        proof {
            top@.to_multiset_ensures();
            unshuffled.to_multiset_ensures();
            assert(top@.len() == unshuffled.len());
            assert(top@.contains(top@[0]));
            assert(top@.to_multiset().count(top@[0]) > 0);
            assert(unshuffled.contains(top@[0]));
        }
        let p = top[0];
        let ghost pi = choose|i: int| 0 <= i < unshuffled.len() && unshuffled[i] == p;
        let pick = es[p].0.clone();
        let ghost names = Seq::new(unshuffled.len(), |i: int| es@[unshuffled[i] as int].0@);
        proof {
            lemma_table_at(es@, p as int);
            assert(names[pi] == pick@);
            assert(names.contains(pick@));
            assert forall|k: Seq<char>|
                #![trigger counts.contains_key(k), names.contains(k)]
                counts.contains_key(k) && !names.contains(k) implies counts[k] <= counts[pick@] by {
                let t = choose|t: int| 0 <= t < es@.len() && es@[t].0@ == k;
                lemma_table_at(es@, t);
                if unshuffled.contains(t as usize) {
                    let i = choose|i: int| 0 <= i < unshuffled.len() && unshuffled[i] == t as usize;
                    assert(names[i] == k);
                }
                assert(es@[unshuffled[pi] as int].1 >= es@[t].1);
            }
            assert(counts != Map::<Seq<char>, int>::empty()) by {
                assert(counts.contains_key(pick@));
            }
        }
        let words = self.model.get_all_words_with_containing_substring(pick.as_str());
        proof {
            let t = pick@;
            let pred = |w: Seq<char>| has_substring(w, t);
            assert forall|i: int| 0 <= i < words@.len() implies has_substring(#[trigger] words@[i]@, pick@) by {
                assert(words@[i]@ == words.deep_view()[i]);
                self.model.listed_words().lemma_filter_pred(pred, i);
            }
        }
        let ghost listed = words.deep_view();
        let ghost picked = pick@;
        self.state = GameState::new_game(pick, words);
        proof {
            assert(among_most_frequent(counts, picked, CANDIDATES as int));
            assert forall|i: int| 0 <= i < listed.len() implies (#[trigger] self.state.words@[i]).word@
                == listed[i] by {}
        }
        &self.state
    }

    /// Marks as guessed every word equal to `guess`; true when one of them
    /// had not been guessed before.
    pub fn submit_guess(&mut self, guess: &String) -> (r: bool)
        ensures
            final(self).model == old(self).model,
            final(self).state.substring == old(self).state.substring,
            final(self).state.view == old(self).state.view,
            final(self).state.words@.len() == old(self).state.words@.len(),
            forall|i: int|
                0 <= i < old(self).state.words@.len() ==> {
                    &&& (#[trigger] final(self).state.words@[i]).word == old(self).state.words@[i].word
                    &&& final(self).state.words@[i].masked_word == old(self).state.words@[i].masked_word
                    &&& final(self).state.words@[i].completed == (old(self).state.words@[i].completed
                        || old(self).state.words@[i].word@ == guess@)
                },
            r == exists|i: int|
                0 <= i < old(self).state.words@.len() && old(self).state.words@[i].word@ == guess@
                    && !old(self).state.words@[i].completed,
    {
        let ghost before = self.state.words@;
        let mut new_words: Vec<GameWord> = Vec::new();
        let mut changed = false;
        let n = self.state.words.len();
        let mut i: usize = 0;
        while i < n
            invariant
                n == self.state.words@.len(),
                self.state.words@ == before,
                i <= n,
                new_words@.len() == i,
                forall|j: int|
                    0 <= j < i ==> {
                        &&& (#[trigger] new_words@[j]).word == before[j].word
                        &&& new_words@[j].masked_word == before[j].masked_word
                        &&& new_words@[j].completed == (before[j].completed || before[j].word@
                            == guess@)
                    },
                changed == exists|j: int|
                    0 <= j < i && before[j].word@ == guess@ && !before[j].completed,
            decreases n - i,
        {
            let w = &self.state.words[i];
            let hit = w.word.eq(guess);
            if hit && !w.completed {
                changed = true;
            }
            let next = GameWord {
                word: w.word.clone(),
                masked_word: w.masked_word.clone(),
                completed: w.completed || hit,
            };
            new_words.push(next);
            proof {
                if changed {
                    if !(exists|j: int| 0 <= j < i && before[j].word@ == guess@ && !before[j].completed) {
                        assert(before[i as int].word@ == guess@ && !before[i as int].completed);
                    }
                }
            }
            i += 1;
        }
        self.state.words = new_words;
        changed
    }
}

} // verus!
