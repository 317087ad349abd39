use vstd::prelude::*;
use vstd::string::*;

verus! {

/// A node of a prefix tree. The root carries no label; every other node
/// carries one character, and the labels along a path from the root spell a
/// prefix of the words inserted through it.
#[derive(PartialEq, Debug)]
pub struct Trie {
    pub value: Option<char>,
    pub children: Vec<Trie>,
    pub is_word: bool,
}

/// Position of the child labelled `c` among `cs`, or -1 when there is none.
pub open spec fn child_index(cs: Seq<Trie>, c: char) -> int {
    if exists|i: int| 0 <= i < cs.len() && cs[i].value == Some(c) {
        choose|i: int| 0 <= i < cs.len() && cs[i].value == Some(c)
    } else {
        -1
    }
}

/// No two nodes of `cs` carry the same label, and each carries one.
pub open spec fn labels_distinct(cs: Seq<Trie>) -> bool {
    &&& forall|i: int| 0 <= i < cs.len() ==> (#[trigger] cs[i]).value is Some
    &&& forall|i: int, j: int|
        0 <= i < j < cs.len() ==> (#[trigger] cs[i]).value != (#[trigger] cs[j]).value
}

/// Under distinct labels, a child carrying `c` is the one that `child_index` names.
pub proof fn lemma_child_index(cs: Seq<Trie>, c: char, i: int)
    requires
        labels_distinct(cs),
        0 <= i < cs.len(),
        cs[i].value == Some(c),
    ensures
        child_index(cs, c) == i,
{
    let j = child_index(cs, c);
    assert(0 <= j < cs.len() && cs[j].value == Some(c));
    if j < i {
        assert(cs[j].value != cs[i].value);
    } else if i < j {
        assert(cs[i].value != cs[j].value);
    }
}

/// Every child of a well-formed node is well formed.
pub proof fn lemma_wf_child(t: Trie, i: int)
    requires
        t.wf(),
        0 <= i < t.children@.len(),
    ensures
        t.children@[i].wf(),
{
    assert(t.children@[i].wf());
}

/// A non-empty `p` starts `s` exactly when both begin with the same
/// character and the rest of `p` starts the rest of `s`.
pub proof fn lemma_prefix_step(p: Seq<char>, s: Seq<char>)
    requires
        p.len() > 0,
        s.len() > 0,
    ensures
        p.is_prefix_of(s) <==> (p[0] == s[0] && p.drop_first().is_prefix_of(s.drop_first())),
{
    if p.is_prefix_of(s) {
        assert(p[0] == s.subrange(0, p.len() as int)[0]);
        assert(p.drop_first() =~= s.drop_first().subrange(0, p.len() - 1));
    }
    if p[0] == s[0] && p.drop_first().is_prefix_of(s.drop_first()) {
        assert forall|k: int| 0 <= k < p.len() implies p[k] == s[k] by {
            if k > 0 {
                assert(p[k] == p.drop_first()[k - 1]);
                assert(s.drop_first().subrange(0, p.len() - 1)[k - 1] == s[k]);
            }
        }
        assert(p =~= s.subrange(0, p.len() as int));
    }
}

/// How inserting a non-empty word below one child changes what a node reaches
/// and stores: the word's first character leads to the changed child, every
/// other character to the same node as before.
pub proof fn lemma_add_below(
    before: Trie,
    after: Trie,
    s: Seq<char>,
    i: int,
    old_child: Trie,
    fresh: bool,
)
    requires
        before.wf(),
        s.len() > 0,
        after.value == before.value,
        after.is_word == before.is_word,
        0 <= i < after.children@.len(),
        after.children@[i].wf(),
        after.children@[i].value == Some(s[0]),
        old_child.value == Some(s[0]),
        fresh ==> {
            &&& child_index(before.children@, s[0]) < 0
            &&& after.children@ == before.children@.push(after.children@[i])
            &&& old_child.children@.len() == 0
            &&& !old_child.is_word
        },
        !fresh ==> {
            &&& i == child_index(before.children@, s[0])
            &&& 0 <= i < before.children@.len()
            &&& old_child == before.children@[i]
            &&& after.children@ == before.children@.update(i, after.children@[i])
        },
        forall|q: Seq<char>|
            #[trigger] after.children@[i].reaches(q) <==> (old_child.reaches(q) || q.is_prefix_of(
                s.drop_first(),
            )),
        forall|q: Seq<char>|
            #[trigger] after.children@[i].stores(q) <==> (old_child.stores(q) || q == s.drop_first()),
    ensures
        after.wf(),
        forall|p: Seq<char>| #[trigger]
            after.reaches(p) <==> (before.reaches(p) || p.is_prefix_of(s)),
        forall|p: Seq<char>| #[trigger] after.stores(p) <==> (before.stores(p) || p == s),
{
    let bc = before.children@;
    let ac = after.children@;
    let head = s[0];
    assert(labels_distinct(ac)) by {
        assert forall|a: int, b: int| 0 <= a < b < ac.len() implies (#[trigger] ac[a]).value != (
        #[trigger] ac[b]).value by {
            if a != i && b != i {
                assert(ac[a] == bc[a] && ac[b] == bc[b]);
            } else if fresh {
                if a == i {
                    assert(b < bc.len());
                } else {
                    assert(ac[a] == bc[a]);
                    if bc[a].value == Some(head) {
                        assert(child_index(bc, head) >= 0);
                    }
                }
            } else {
                if a == i {
                    assert(ac[b] == bc[b] && bc[a].value == Some(head));
                } else {
                    assert(ac[a] == bc[a] && bc[b].value == Some(head));
                }
            }
        }
        assert forall|a: int| 0 <= a < ac.len() implies (#[trigger] ac[a]).value is Some by {
            if a != i {
                assert(ac[a] == bc[a]);
            }
        }
    }
    assert forall|a: int| 0 <= a < ac.len() implies (#[trigger] ac[a]).wf() by {
        if a != i {
            assert(ac[a] == bc[a]);
            lemma_wf_child(before, a);
        }
    }
    lemma_child_index(ac, head, i);
    assert forall|p: Seq<char>| p.len() > 0 implies #[trigger] after.reach(p) == (if p[0] == head {
        ac[i].reach(p.drop_first())
    } else {
        before.reach(p)
    }) by {
        if p[0] != head {
            let c = p[0];
            let j = child_index(bc, c);
            if j >= 0 {
                assert(0 <= j < bc.len() && bc[j].value == Some(c));
                assert(j != i);
                assert(ac[j] == bc[j]);
                lemma_child_index(ac, c, j);
            } else {
                if exists|k: int| 0 <= k < ac.len() && ac[k].value == Some(c) {
                    let k = choose|k: int| 0 <= k < ac.len() && ac[k].value == Some(c);
                    assert(k != i);
                    assert(ac[k] == bc[k]);
                    assert(false);
                }
            }
        }
    }
    assert forall|p: Seq<char>| #[trigger]
        after.reaches(p) <==> (before.reaches(p) || p.is_prefix_of(s)) by {
        if p.len() > 0 {
            lemma_prefix_step(p, s);
            assert(after.reach(p) == (if p[0] == head {
                ac[i].reach(p.drop_first())
            } else {
                before.reach(p)
            }));
            if p[0] == head {
                assert(ac[i].reaches(p.drop_first()) <==> (old_child.reaches(p.drop_first())
                    || p.drop_first().is_prefix_of(s.drop_first())));
                if !fresh {
                    assert(before.reach(p) == old_child.reach(p.drop_first()));
                } else if p.drop_first().len() > 0 {
                    assert(old_child.reach(p.drop_first()) is None);
                } else {
                    assert(p.drop_first().is_prefix_of(s.drop_first()));
                }
            }
        } else {
            assert(p.is_prefix_of(s));
        }
    }
    assert forall|p: Seq<char>| #[trigger] after.stores(p) <==> (before.stores(p) || p == s) by {
        if p.len() > 0 {
            assert(after.reach(p) == (if p[0] == head {
                ac[i].reach(p.drop_first())
            } else {
                before.reach(p)
            }));
            if p[0] == head {
                assert(ac[i].stores(p.drop_first()) <==> (old_child.stores(p.drop_first())
                    || p.drop_first() == s.drop_first()));
                if !fresh {
                    assert(before.reach(p) == old_child.reach(p.drop_first()));
                } else if p.drop_first().len() > 0 {
                    assert(old_child.reach(p.drop_first()) is None);
                }
                if p.drop_first() == s.drop_first() {
                    assert forall|k: int| 0 <= k < p.len() implies p[k] == s[k] by {
                        if k > 0 {
                            assert(p[k] == p.drop_first()[k - 1]);
                            assert(s[k] == s.drop_first()[k - 1]);
                        }
                    }
                    assert(p =~= s);
                }
            }
        } else {
            assert(p != s);
        }
    }
}

/// The first character of a non-empty string, and the rest of it.
pub fn head_tail(string: &str) -> (r: (char, &str))
    requires
        string@.len() > 0,
    ensures
        r.0 == string@[0],
        r.1@ == string@.drop_first(),
{
    let n = string.unicode_len();
    let head = string.get_char(0);
    let tail = string.substring_char(1, n);
    (head, tail)
}

/// `after` is `before` with the node that `path` leads to replaced by `sub`,
/// every other node and every label and word mark along the path kept.
pub open spec fn replaced_at(before: Trie, after: Trie, path: Seq<char>, sub: Trie) -> bool
    decreases path.len(),
{
    if path.len() == 0 {
        after == sub
    } else {
        let i = child_index(before.children@, path[0]);
        &&& 0 <= i < before.children@.len()
        &&& after.value == before.value
        &&& after.is_word == before.is_word
        &&& after.children@.len() == before.children@.len()
        &&& forall|j: int|
            0 <= j < before.children@.len() && j != i ==> after.children@[j]
                == before.children@[j]
        &&& replaced_at(before.children@[i], after.children@[i], path.drop_first(), sub)
    }
}

/// The number of nodes in the subtrees of the first `n` children of `node`.
pub open spec fn nodes_upto(node: Trie, n: int) -> nat
    decreases node, n,
{
    if n <= 0 || n > node.children@.len() {
        0
    } else {
        let child = node.children@[n - 1];
        nodes_upto(node, n - 1) + 1 + nodes_upto(child, child.children@.len() as int)
    }
}

/// Counting fewer children counts no more nodes.
pub proof fn lemma_nodes_upto_grows(node: Trie, i: int, n: int)
    requires
        0 <= i <= n <= node.children@.len(),
    ensures
        nodes_upto(node, i) <= nodes_upto(node, n),
    decreases n - i,
{
    if i < n {
        lemma_nodes_upto_grows(node, i, n - 1);
    }
}

impl Trie {
    /// The number of nodes in the subtree rooted at this node, itself included.
    pub open spec fn node_count(self) -> nat {
        1 + nodes_upto(self, self.children@.len() as int)
    }

    /// The tree invariant: at every node the children carry distinct labels.
    pub open spec fn wf(self) -> bool
        decreases self,
    {
        &&& labels_distinct(self.children@)
        &&& forall|i: int|
            0 <= i < self.children@.len() ==> (#[trigger] self.children@[i]).wf()
    }

    /// Inserts `string` as a word below this node: each character follows the
    /// child that carries it, or a new child appended for it, and the node
    /// reached last is marked as the end of a word.
    pub fn add(&mut self, string: &str)
        requires
            old(self).wf(),
        ensures
            final(self).wf(),
            final(self).value == old(self).value,
            forall|p: Seq<char>| #[trigger]
                final(self).reaches(p) <==> (old(self).reaches(p) || p.is_prefix_of(string@)),
            forall|p: Seq<char>| #[trigger]
                final(self).stores(p) <==> (old(self).stores(p) || p == string@),
        decreases string@.len(),
    {
        let ghost before = *self;
        if string.unicode_len() == 0 {
            self.is_word = true;
            proof {
                assert forall|p: Seq<char>| #[trigger]
                    self.reaches(p) <==> (before.reaches(p) || p.is_prefix_of(string@)) by {
                    if p.len() == 0 {
                        assert(p.is_prefix_of(string@));
                    }
                }
                assert forall|p: Seq<char>| #[trigger]
                    self.stores(p) <==> (before.stores(p) || p == string@) by {
                    if p.len() == 0 {
                        assert(p =~= string@);
                    }
                }
            }
        } else {
            let (head, tail) = head_tail(string);
            match self.get_child(head) {
                None => {
                    let mut new_child = Trie::new(head);
                    let ghost fresh_child = new_child;
                    new_child.add(tail);
                    self.children.push(new_child);
                    proof {
                        lemma_add_below(
                            before,
                            *self,
                            string@,
                            before.children@.len() as int,
                            fresh_child,
                            true,
                        );
                    }
                }
                Some(branch) => {
                    let ghost i = child_index(before.children@, head);
                    let ghost old_child = *branch;
                    proof {
                        lemma_wf_child(before, i);
                    }
                    branch.add(tail);
                    proof {
                        lemma_add_below(before, after_borrow(*self), string@, i, old_child, false);
                    }
                }
            }
        }
    }

    /// The node that `string` leads to, borrowed for change; `None` when a
    /// step has no child. Whatever the caller writes there is written into
    /// the tree at that place.
    pub fn get_word(&mut self, string: &str) -> (r: Option<&mut Trie>)
        requires
            old(self).wf(),
        ensures
            r is None ==> old(self).reach(string@) is None && *final(self) == *old(self),
            r is Some ==> {
                &&& old(self).reach(string@) == Some(*r.unwrap())
                &&& replaced_at(*old(self), *final(self), string@, *final(r.unwrap()))
            },
    {
        if self.find_node(string).is_none() {
            None
        } else {
            Some(self.descend(string))
        }
    }

    /// The node that `path` leads to, which must be there, borrowed for change.
    fn descend(&mut self, path: &str) -> (r: &mut Trie)
        requires
            old(self).wf(),
            old(self).reach(path@) is Some,
        ensures
            *r == old(self).reach(path@)->0,
            replaced_at(*old(self), *final(self), path@, *final(r)),
        decreases path@.len(),
    {
        if path.unicode_len() == 0 {
            self
        } else {
            let (head, tail) = head_tail(path);
            let ghost i = child_index(self.children@, head);
            proof {
                lemma_wf_child(*self, i);
            }
            let child = self.get_child(head).unwrap();
            child.descend(tail)
        }
    }

    /// The node that `path` leads to from this node, if every step has a child.
    pub open spec fn reach(self, path: Seq<char>) -> Option<Trie>
        decreases path.len(),
    {
        if path.len() == 0 {
            Some(self)
        } else {
            let i = child_index(self.children@, path[0]);
            if i < 0 {
                None
            } else {
                self.children@[i].reach(path.drop_first())
            }
        }
    }

    /// `path` can be followed from this node: it is a prefix stored below it.
    pub open spec fn reaches(self, path: Seq<char>) -> bool {
        self.reach(path) is Some
    }

    /// `path` leads to a node that ends a word.
    pub open spec fn stores(self, path: Seq<char>) -> bool {
        &&& self.reach(path) is Some
        &&& self.reach(path)->0.is_word
    }

    /// An empty root: no label, no children, not the end of a word.
    pub fn new_root() -> (r: Trie)
        ensures
            r.value is None,
            r.children@.len() == 0,
            !r.is_word,
            r.wf(),
    {
        Trie { value: None, children: Vec::new(), is_word: false }
    }

    /// A childless node labelled `value`, not the end of a word.
    pub fn new(value: char) -> (r: Trie)
        ensures
            r.value == Some(value),
            r.children@.len() == 0,
            !r.is_word,
            r.wf(),
    {
        Trie { value: Some(value), children: Vec::new(), is_word: false }
    }
    /// The child labelled `value`, borrowed for change; `None` when there is none.
    pub fn get_child(&mut self, value: char) -> (r: Option<&mut Trie>)
        requires
            labels_distinct(old(self).children@),
        ensures
            child_index(old(self).children@, value) < 0 ==> r is None && *final(self) == *old(self),
            child_index(old(self).children@, value) >= 0 ==> {
                &&& r is Some
                &&& *r.unwrap() == old(self).children@[child_index(old(self).children@, value)]
                &&& final(self).value == old(self).value
                &&& final(self).is_word == old(self).is_word
                &&& final(self).children@ == old(self).children@.update(
                    child_index(old(self).children@, value),
                    *final(r.unwrap()),
                )
            },
    {
        let n = self.children.len();
        let mut i: usize = 0;
        while i < n
            invariant
                n == self.children@.len(),
                *self == *old(self),
                labels_distinct(self.children@),
                forall|j: int| 0 <= j < i ==> self.children@[j].value != Some(value),
            decreases n - i,
        {
            let found = match self.children[i].value {
                Some(c) => c == value,
                None => false,
            };
            if found {
                proof {
                    lemma_child_index(self.children@, value, i as int);
                }
                return Some(&mut self.children[i]);
            }
            i += 1;
        }
        None
    }

    /// The node that `path` leads to from this one, or `None` when a step has no child.
    pub fn find_node(&self, path: &str) -> (r: Option<&Trie>)
        requires
            self.wf(),
        ensures
            r matches Some(n) ==> self.reach(path@) == Some(*n),
            r is None ==> self.reach(path@) is None,
        decreases path@.len(),
    {
        if path.unicode_len() == 0 {
            Some(self)
        } else {
            let (head, tail) = head_tail(path);
            let n = self.children.len();
            let mut i: usize = 0;
            while i < n
                invariant
                    n == self.children@.len(),
                    self.wf(),
                    path@.len() > 0,
                    head == path@[0],
                    tail@ == path@.drop_first(),
                    forall|j: int| 0 <= j < i ==> self.children@[j].value != Some(head),
                decreases n - i,
            {
                let found = match self.children[i].value {
                    Some(c) => c == head,
                    None => false,
                };
                if found {
                    proof {
                        lemma_child_index(self.children@, head, i as int);
                        lemma_wf_child(*self, i as int);
                    }
                    return self.children[i].find_node(tail);
                }
                i += 1;
            }
            None
        }
    }

    /// Whether `string` is a prefix stored in the tree (the end of a word or not).
    pub fn contains(&self, string: &str) -> (r: bool)
        requires
            self.wf(),
        ensures
            r == self.reaches(string@),
    {
        self.find_node(string).is_some()
    }

    /// Whether `string` was inserted as a whole word.
    pub fn has_word(&self, string: &str) -> (r: bool)
        requires
            self.wf(),
        ensures
            r == self.stores(string@),
    {
        match self.find_node(string) {
            Some(n) => n.is_word,
            None => false,
        }
    }
    /// The number of nodes in the subtree rooted at this node, or `None`
    /// when it does not fit in a `usize`.
    pub fn count_nodes(&self) -> (r: Option<usize>)
        ensures
            r matches Some(c) ==> c == self.node_count(),
            r is None ==> self.node_count() > usize::MAX,
        decreases self,
    {
        let n = self.children.len();
        let mut total: usize = 1;
        let mut i: usize = 0;
        while i < n
            invariant
                n == self.children@.len(),
                i <= n,
                total == 1 + nodes_upto(*self, i as int),
            decreases n - i,
        {
            proof {
                lemma_nodes_upto_grows(*self, i + 1, n as int);
            }
            match self.children[i].count_nodes() {
                None => {
                    return None;
                },
                Some(c) => {
                    if c > usize::MAX - total {
                        return None;
                    }
                    total = total + c;
                },
            }
            i += 1;
        }
        Some(total)
    }
}

} // verus!
