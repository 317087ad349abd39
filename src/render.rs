use vstd::prelude::*;
use crate::queries::extend;
use crate::text::{chars_of, string_of};
use crate::trie::Trie;

verus! {

/// Drawn before a label that has siblings after it.
pub const BRANCH: char = '\u{251c}';

/// Drawn before the last label among its siblings.
pub const LAST_BRANCH: char = '\u{2514}';

/// Continues the line of a label that has siblings after it.
pub const VERTICAL: char = '\u{2502}';

/// Marks a node where a word ends.
pub const WORD_MARK: char = '\u{2705}';

/// The indentation that the children of `node` are drawn with.
pub open spec fn child_prefix(node: Trie, prefix: Seq<char>, is_last: bool) -> Seq<char> {
    match node.value {
        Some(_) => prefix.push(
            if is_last {
                ' '
            } else {
                VERTICAL
            },
        ),
        None => prefix,
    }
}

/// The line drawn for `node` itself: none for the root; else the
/// indentation, a branch, the label, and for the end of a word a mark and the
/// word spelled so far.
pub open spec fn node_line(node: Trie, prefix: Seq<char>, word: Seq<char>, is_last: bool) -> Seq<
    Seq<char>,
> {
    match node.value {
        Some(c) => seq![
            prefix.push(
                if is_last {
                    LAST_BRANCH
                } else {
                    BRANCH
                },
            ).push(c).push(' ') + if node.is_word {
                seq![WORD_MARK, ' '] + word.push(c)
            } else {
                Seq::empty()
            },
        ],
        None => Seq::empty(),
    }
}

/// The lines drawn for the subtrees of the first `n` children of `node`,
/// which is drawn with `prefix`, `word` and `is_last`.
pub open spec fn children_lines(
    node: Trie,
    prefix: Seq<char>,
    word: Seq<char>,
    is_last: bool,
    n: int,
) -> Seq<Seq<char>>
    decreases node, n,
{
    if n <= 0 || n > node.children@.len() {
        Seq::empty()
    } else {
        let child = node.children@[n - 1];
        let cp = child_prefix(node, prefix, is_last);
        let cw = extend(word, node);
        let last = n == node.children@.len();
        children_lines(node, prefix, word, is_last, n - 1) + node_line(child, cp, cw, last)
            + children_lines(child, cp, cw, last, child.children@.len() as int)
    }
}

/// The lines that draw the subtree rooted at `node`: its own line, then
/// those of its children's subtrees in order.
pub open spec fn tree_lines(node: Trie, prefix: Seq<char>, word: Seq<char>, is_last: bool) -> Seq<
    Seq<char>,
> {
    node_line(node, prefix, word, is_last) + children_lines(
        node,
        prefix,
        word,
        is_last,
        node.children@.len() as int,
    )
}

impl Trie {
    /// The lines that draw the whole tree, one per labelled node.
    pub fn print(&self) -> (r: Vec<String>)
        ensures
            r.deep_view() == tree_lines(*self, Seq::empty(), Seq::empty(), false),
    {
        let empty = "";
        proof {
            reveal_strlit("");
            assert(empty@ =~= Seq::<char>::empty());
        }
        self.print_helper(empty, empty, false)
    }

    /// The lines that draw the subtree rooted at this node, indented by
    /// `prefix`, below the characters `word`.
    pub fn print_helper(&self, prefix: &str, word: &str, is_last: bool) -> (r: Vec<String>)
        ensures
            r.deep_view() == tree_lines(*self, prefix@, word@, is_last),
    {
        let p = chars_of(prefix);
        let w = chars_of(word);
        self.lines(&p, &w, is_last)
    }

    fn lines(&self, prefix: &Vec<char>, word: &Vec<char>, is_last: bool) -> (r: Vec<String>)
        ensures
            r.deep_view() == tree_lines(*self, prefix@, word@, is_last),
        decreases self,
    {
        let mut out: Vec<String> = Vec::new();
        let mut cp = prefix.clone();
        let mut cw = word.clone();
        assert(cp@ =~= prefix@);
        assert(cw@ =~= word@);
        match self.value {
            Some(c) => {
                let mut line = prefix.clone();
                assert(line@ =~= prefix@);
                line.push(
                    if is_last {
                        LAST_BRANCH
                    } else {
                        BRANCH
                    },
                );
                line.push(c);
                line.push(' ');
                cw.push(c);
                if self.is_word {
                    line.push(WORD_MARK);
                    line.push(' ');
                    let mut k: usize = 0;
                    let ghost base = line@;
                    while k < cw.len()
                        invariant
                            k <= cw@.len(),
                            line@ == base + cw@.subrange(0, k as int),
                        decreases cw@.len() - k,
                    {
                        line.push(cw[k]);
                        assert(base + cw@.subrange(0, k + 1) =~= (base + cw@.subrange(0, k as int)).push(
                            cw@[k as int],
                        ));
                        k += 1;
                    }
                    assert(cw@.subrange(0, cw@.len() as int) =~= cw@);
                }
                out.push(string_of(&line));
                cp.push(
                    if is_last {
                        ' '
                    } else {
                        VERTICAL
                    },
                );
                proof {
                    let expected = node_line(*self, prefix@, word@, is_last);
                    assert(line@ =~= expected[0]);
                    assert(out.deep_view() =~= expected);
                }
            },
            None => {
                assert(out.deep_view() =~= node_line(*self, prefix@, word@, is_last));
            },
        }
        let n = self.children.len();
        let mut i: usize = 0;
        while i < n
            invariant
                n == self.children@.len(),
                i <= n,
                cp@ == child_prefix(*self, prefix@, is_last),
                cw@ == extend(word@, *self),
                out.deep_view() == node_line(*self, prefix@, word@, is_last) + children_lines(
                    *self,
                    prefix@,
                    word@,
                    is_last,
                    i as int,
                ),
            decreases n - i,
        {
            let last = i + 1 == n;
            let mut sub = self.children[i].lines(&cp, &cw, last);
            let ghost before = out.deep_view();
            let ghost added = sub.deep_view();
            out.append(&mut sub);
            proof {
                assert(out.deep_view() =~= before + added);
                let child = self.children@[i as int];
                assert(added == node_line(child, cp@, cw@, last) + children_lines(
                    child,
                    cp@,
                    cw@,
                    last,
                    child.children@.len() as int,
                ));
                assert(children_lines(*self, prefix@, word@, is_last, i + 1) == children_lines(
                    *self,
                    prefix@,
                    word@,
                    is_last,
                    i as int,
                ) + node_line(child, cp@, cw@, last) + children_lines(
                    child,
                    cp@,
                    cw@,
                    last,
                    child.children@.len() as int,
                ));
                assert(out.deep_view() =~= node_line(*self, prefix@, word@, is_last) + children_lines(
                    *self,
                    prefix@,
                    word@,
                    is_last,
                    i + 1,
                ));
            }
            i += 1;
        }
        out
    }
}

} // verus!
