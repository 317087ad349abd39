use vstd::prelude::*;
use vstd::view::View as _;
use crate::text::{chars_of, find_chars, first_occurrence, has_substring, string_of};

verus! {

/// `word` with every character outside the first occurrence of `substring`
/// replaced by `_`.
pub open spec fn masked(word: Seq<char>, substring: Seq<char>) -> Seq<char> {
    let i = first_occurrence(word, substring);
    Seq::new(
        word.len(),
        |j: int|
            if i <= j < i + substring.len() {
                word[j]
            } else {
                '_'
            },
    )
}

/// Which screen the game shows.
#[derive(Clone, Copy, PartialEq, Eq, Debug, Structural)]
pub enum View {
    MENU,
    PLAY,
}

/// A word to guess: the word, what the player sees of it, and whether it
/// has been guessed.
pub struct GameWord {
    pub word: String,
    pub masked_word: String,
    pub completed: bool,
}

/// The state of a game: the substring that the words share, the words, and
/// the screen shown.
pub struct GameState {
    pub substring: Option<String>,
    pub words: Vec<GameWord>,
    pub view: View,
}

impl GameState {
    /// A game over `words`, each masked but for `substring`, none guessed yet.
    pub fn new_game(substring: String, words: Vec<String>) -> (r: GameState)
        requires
            forall|i: int| 0 <= i < words@.len() ==> has_substring(#[trigger] words@[i]@, substring@),
        ensures
            r.substring == Some(substring),
            r.view == View::PLAY,
            r.words@.len() == words@.len(),
            forall|i: int|
                0 <= i < words@.len() ==> {
                    &&& (#[trigger] r.words@[i]).word@ == words@[i]@
                    &&& r.words@[i].masked_word@ == masked(words@[i]@, substring@)
                    &&& !r.words@[i].completed
                },
    {
        let mut game_words: Vec<GameWord> = Vec::new();
        let n = words.len();
        let mut i: usize = 0;
        while i < n
            invariant
                n == words@.len(),
                i <= n,
                game_words@.len() == i,
                forall|j: int| 0 <= j < words@.len() ==> has_substring(#[trigger] words@[j]@, substring@),
                forall|j: int|
                    0 <= j < i ==> {
                        &&& (#[trigger] game_words@[j]).word@ == words@[j]@
                        &&& game_words@[j].masked_word@ == masked(words@[j]@, substring@)
                        &&& !game_words@[j].completed
                    },
            decreases n - i,
        {
            let w = words[i].clone();
            let s = substring.clone();
            assert(has_substring(words@[i as int]@, substring@));
            game_words.push(GameWord::new(w, s));
            i += 1;
        }
        GameState { substring: Some(substring), words: game_words, view: View::PLAY }
    }

    /// The state before any game: no substring, no words, the menu.
    pub fn init_state() -> (r: GameState)
        ensures
            r.substring is None,
            r.words@.len() == 0,
            r.view == View::MENU,
    {
        GameState { substring: None, words: Vec::new(), view: View::MENU }
    }
}

impl GameWord {
    /// `word`, masked but for `substring`, not guessed yet.
    fn new(word: String, substring: String) -> (r: GameWord)
        requires
            has_substring(word@, substring@),
        ensures
            r.word@ == word@,
            r.masked_word@ == masked(word@, substring@),
            !r.completed,
    {
        let masked_word = Self::mask(&word, &substring);
        GameWord { word, masked_word, completed: false }
    }

    /// `word` with every character outside the first occurrence of
    /// `substring` replaced by `_`.
    fn mask(word: &String, substring: &String) -> (r: String)
        requires
            has_substring(word@, substring@),
        ensures
            r@ == masked(word@, substring@),
    {
        let w = chars_of(word.as_str());
        let t = chars_of(substring.as_str());
        let n = w.len();
        let found = find_chars(&w, &t);
        assert(found is Some);
        let start = match found {
            Some(i) => i,
            None => 0,
        };
        assert(start + t@.len() <= w@.len());
        let end = start + t.len();
        let mut out: Vec<char> = Vec::new();
        let mut j: usize = 0;
        while j < n
            invariant
                n == w@.len(),
                j <= n,
                start as int == first_occurrence(w@, t@),
                end == start + t@.len(),
                out@.len() == j,
                forall|k: int| 0 <= k < j ==> out@[k] == masked(w@, t@)[k],
            decreases n - j,
        {
            if start <= j && j < end {
                out.push(w[j]);
            } else {
                out.push('_');
            }
            j += 1;
        }
        assert(out@ =~= masked(w@, t@));
        string_of(&out)
    }

    /// The same word, marked as guessed.
    pub fn new_completed(&self) -> (r: GameWord)
        ensures
            r.word == self.word,
            r.masked_word == self.masked_word,
            r.completed,
    {
        GameWord { word: self.word.clone(), masked_word: self.masked_word.clone(), completed: true }
    }
}

} // verus!
