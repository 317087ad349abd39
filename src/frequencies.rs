use vstd::prelude::*;

verus! {

/// The count that `m` gives `k`, zero when `k` has none.
pub open spec fn count_in(m: Map<Seq<char>, int>, k: Seq<char>) -> int {
    if m.contains_key(k) {
        m[k]
    } else {
        0
    }
}

/// The union of two tables, adding the counts of a key found in both.
pub open spec fn add_counts(a: Map<Seq<char>, int>, b: Map<Seq<char>, int>) -> Map<Seq<char>, int> {
    Map::new(
        |k: Seq<char>| a.contains_key(k) || b.contains_key(k),
        |k: Seq<char>| count_in(a, k) + count_in(b, k),
    )
}

/// No key appears twice among `es`.
pub open spec fn keys_distinct(es: Seq<(String, usize)>) -> bool {
    forall|i: int, j: int|
        0 <= i < j < es.len() ==> (#[trigger] es[i]).0@ != (#[trigger] es[j]).0@
}

/// The table that the entries `es` spell, each key with its count.
pub open spec fn table_of(es: Seq<(String, usize)>) -> Map<Seq<char>, int> {
    Map::new(
        |k: Seq<char>| exists|i: int| 0 <= i < es.len() && es[i].0@ == k,
        |k: Seq<char>| es[choose|i: int| 0 <= i < es.len() && es[i].0@ == k].1 as int,
    )
}

/// With distinct keys, each entry gives the count of its key.
pub proof fn lemma_table_at(es: Seq<(String, usize)>, i: int)
    requires
        keys_distinct(es),
        0 <= i < es.len(),
    ensures
        table_of(es).contains_key(es[i].0@),
        table_of(es)[es[i].0@] == es[i].1 as int,
{
    let k = es[i].0@;
    assert(table_of(es).contains_key(k));
    let j = choose|j: int| 0 <= j < es.len() && es[j].0@ == k;
    if j < i {
        assert(es[j].0@ != es[i].0@);
    } else if i < j {
        assert(es[i].0@ != es[j].0@);
    }
}

/// Changing the count of an entry changes the count of its key alone.
pub proof fn lemma_table_update(es: Seq<(String, usize)>, j: int, e: (String, usize))
    requires
        keys_distinct(es),
        0 <= j < es.len(),
        e.0@ == es[j].0@,
    ensures
        keys_distinct(es.update(j, e)),
        table_of(es.update(j, e)) == table_of(es).insert(e.0@, e.1 as int),
{
    let us = es.update(j, e);
    assert(keys_distinct(us)) by {
        assert forall|a: int, b: int| 0 <= a < b < us.len() implies (#[trigger] us[a]).0@ != (
        #[trigger] us[b]).0@ by {
            assert(es[a].0@ != es[b].0@);
        }
    }
    assert forall|k: Seq<char>| #[trigger] table_of(us).contains_key(k) implies table_of(
        es,
    ).insert(e.0@, e.1 as int).contains_key(k) by {
        let i = choose|i: int| 0 <= i < us.len() && us[i].0@ == k;
        if i != j {
            assert(es[i].0@ == k);
        }
    }
    assert forall|k: Seq<char>| #[trigger]
        table_of(es).insert(e.0@, e.1 as int).contains_key(k) implies table_of(
        us,
    ).contains_key(k) && table_of(us)[k] == table_of(es).insert(e.0@, e.1 as int)[k] by {
        if k == e.0@ {
            assert(us[j].0@ == k);
            lemma_table_at(us, j);
        } else {
            let i = choose|i: int| 0 <= i < es.len() && es[i].0@ == k;
            assert(us[i] == es[i]);
            lemma_table_at(us, i);
            lemma_table_at(es, i);
        }
    }
    assert(table_of(us) =~= table_of(es).insert(e.0@, e.1 as int));
}

/// Appending an entry with a new key adds that key alone.
pub proof fn lemma_table_push(es: Seq<(String, usize)>, e: (String, usize))
    requires
        keys_distinct(es),
        !table_of(es).contains_key(e.0@),
    ensures
        keys_distinct(es.push(e)),
        table_of(es.push(e)) == table_of(es).insert(e.0@, e.1 as int),
{
    let ps = es.push(e);
    assert(keys_distinct(ps)) by {
        assert forall|a: int, b: int| 0 <= a < b < ps.len() implies (#[trigger] ps[a]).0@ != (
        #[trigger] ps[b]).0@ by {
            if b == es.len() {
                assert(ps[a] == es[a]);
                assert(table_of(es).contains_key(es[a].0@));
            } else {
                assert(es[a].0@ != es[b].0@);
            }
        }
    }
    assert forall|k: Seq<char>| #[trigger] table_of(ps).contains_key(k) implies table_of(
        es,
    ).insert(e.0@, e.1 as int).contains_key(k) by {
        let i = choose|i: int| 0 <= i < ps.len() && ps[i].0@ == k;
        if i < es.len() {
            assert(es[i].0@ == k);
        }
    }
    assert forall|k: Seq<char>| #[trigger]
        table_of(es).insert(e.0@, e.1 as int).contains_key(k) implies table_of(
        ps,
    ).contains_key(k) && table_of(ps)[k] == table_of(es).insert(e.0@, e.1 as int)[k] by {
        if k == e.0@ {
            assert(ps[es.len() as int].0@ == k);
            lemma_table_at(ps, es.len() as int);
        } else {
            let i = choose|i: int| 0 <= i < es.len() && es[i].0@ == k;
            assert(ps[i] == es[i]);
            lemma_table_at(ps, i);
            lemma_table_at(es, i);
        }
    }
    assert(table_of(ps) =~= table_of(es).insert(e.0@, e.1 as int));
}

/// A table from substrings to counts; each substring appears once.
pub struct WordFrequencies {
    entries: Vec<(String, usize)>,
}

impl View for WordFrequencies {
    type V = Map<Seq<char>, int>;

    closed spec fn view(&self) -> Map<Seq<char>, int> {
        table_of(self.entries@)
    }
}

impl DeepView for WordFrequencies {
    type V = Map<Seq<char>, int>;

    open spec fn deep_view(&self) -> Map<Seq<char>, int> {
        self@
    }
}

impl WordFrequencies {
    #[verifier::type_invariant]
    spec fn inv(self) -> bool {
        keys_distinct(self.entries@)
    }

    /// An empty table.
    pub fn new() -> (r: WordFrequencies)
        ensures
            r@ == Map::<Seq<char>, int>::empty(),
    {
        let r = WordFrequencies { entries: Vec::new() };
        assert(r@ =~= Map::<Seq<char>, int>::empty());
        r
    }

    /// A table holding `key` alone, with `count`.
    pub fn single(key: String, count: usize) -> (r: WordFrequencies)
        ensures
            r@ == Map::<Seq<char>, int>::empty().insert(key@, count as int),
    {
        let mut entries: Vec<(String, usize)> = Vec::new();
        proof {
            assert(table_of(entries@) =~= Map::<Seq<char>, int>::empty());
            lemma_table_push(entries@, (key, count));
        }
        entries.push((key, count));
        WordFrequencies { entries }
    }

    /// The entries of the table, each key once, in no promised order.
    pub fn entries(&self) -> (r: &Vec<(String, usize)>)
        ensures
            table_of(r@) == self@,
            keys_distinct(r@),
    {
        proof {
            use_type_invariant(self);
        }
        &self.entries
    }

    /// The count of `key`, or `None` when the table has no such key.
    pub fn get(&self, key: &str) -> (r: Option<&usize>)
        ensures
            r is Some <==> self@.contains_key(key@),
            r is Some ==> *r.unwrap() as int == self@[key@],
    {
        proof {
            use_type_invariant(self);
        }
        let k = key.to_owned();
        let n = self.entries.len();
        let mut i: usize = 0;
        while i < n
            invariant
                n == self.entries@.len(),
                k@ == key@,
                keys_distinct(self.entries@),
                forall|j: int| 0 <= j < i ==> self.entries@[j].0@ != key@,
            decreases n - i,
        {
            if self.entries[i].0.eq(&k) {
                proof {
                    lemma_table_at(self.entries@, i as int);
                }
                return Some(&self.entries[i].1);
            }
            i += 1;
        }
        None
    }

    /// The two tables together: a key of either, with the sum of its counts.
    pub fn merge_with(self, other: &WordFrequencies) -> (r: WordFrequencies)
        requires
            forall|k: Seq<char>| count_in(self@, k) + count_in(other@, k) <= usize::MAX,
        ensures
            r@ == add_counts(self@, other@),
    {
        proof {
            use_type_invariant(&self);
            use_type_invariant(other);
        }
        let ghost a = self@;
        let ghost b = other@;
        let os = &other.entries;
        let mut es = self.entries;
        let m = os.len();
        let mut j: usize = 0;
        while j < m
            invariant
                m == os@.len(),
                j <= m,
                keys_distinct(es@),
                keys_distinct(os@),
                table_of(os@) == b,
                forall|k: Seq<char>| count_in(a, k) + count_in(b, k) <= usize::MAX,
                table_of(es@) == add_counts(a, table_of(os@.take(j as int))),
            decreases m - j,
        {
            let ghost before = table_of(os@.take(j as int));
            let ghost key = os@[j as int].0@;
            proof {
                lemma_table_at(os@, j as int);
                assert(os@.take(j + 1) =~= os@.take(j as int).push(os@[j as int]));
                assert(keys_distinct(os@.take(j as int)));
                if before.contains_key(key) {
                    let i = choose|i: int| 0 <= i < j && os@.take(j as int)[i].0@ == key;
                    assert(os@[i].0@ != os@[j as int].0@);
                }
                lemma_table_push(os@.take(j as int), os@[j as int]);
            }
            match find_key(&es, &os[j].0) {
                Some(i) => {
                    proof {
                        lemma_table_at(es@, i as int);
                    }
                    let ghost t_old = table_of(es@);
                    proof {
                        assert(t_old == add_counts(a, before));
                        assert(!before.contains_key(key));
                        assert(t_old[key] == count_in(a, key));
                        assert(os@[j as int].1 as int == count_in(b, key));
                    }
                    let k = es[i].0.clone();
                    let c = es[i].1 + os[j].1;
                    proof {
                        lemma_table_update(es@, i as int, (k, c));
                    }
                    es.set(i, (k, c));
                    proof {
                        let v = os@[j as int].1 as int;
                        let lhs = t_old.insert(key, c as int);
                        let rhs = add_counts(a, before.insert(key, v));
                        assert(table_of(es@) == lhs);
                        assert forall|q: Seq<char>| #[trigger] lhs.contains_key(q) <==> rhs.contains_key(q) by {}
                        assert forall|q: Seq<char>| #[trigger] lhs.contains_key(q) implies lhs[q] == rhs[q] by {
                            if q == key {
                                assert(count_in(before.insert(key, v), q) == v);
                            } else {
                                assert(count_in(before.insert(key, v), q) == count_in(before, q));
                            }
                        }
                        assert(lhs =~= rhs);
                    }
                },
                None => {
                    let ghost t_old = table_of(es@);
                    proof {
                        assert(!t_old.contains_key(key));
                    }
                    let k = os[j].0.clone();
                    let c = os[j].1;
                    proof {
                        lemma_table_push(es@, (k, c));
                    }
                    es.push((k, c));
                    proof {
                        let v = os@[j as int].1 as int;
                        let lhs = t_old.insert(key, v);
                        let rhs = add_counts(a, before.insert(key, v));
                        assert(table_of(es@) == lhs);
                        assert forall|q: Seq<char>| #[trigger] lhs.contains_key(q) <==> rhs.contains_key(q) by {}
                        assert forall|q: Seq<char>| #[trigger] lhs.contains_key(q) implies lhs[q] == rhs[q] by {
                            if q == key {
                                assert(count_in(before.insert(key, v), q) == v);
                                assert(count_in(a, q) == 0);
                            } else {
                                assert(count_in(before.insert(key, v), q) == count_in(before, q));
                            }
                        }
                        assert(lhs =~= rhs);
                    }
                },
            }
            proof {
                assert(table_of(es@) =~= add_counts(a, table_of(os@.take(j + 1))));
            }
            j += 1;
        }
        proof {
            assert(os@.take(m as int) =~= os@);
        }
        WordFrequencies { entries: es }
    }
}

/// The position of the entry with key `key`, if there is one.
fn find_key(es: &Vec<(String, usize)>, key: &String) -> (r: Option<usize>)
    ensures
        r is None ==> forall|t: int| 0 <= t < es@.len() ==> es@[t].0@ != key@,
        r matches Some(i) ==> i < es@.len() && es@[i as int].0@ == key@,
{
    let n = es.len();
    let mut i: usize = 0;
    while i < n
        invariant
            n == es@.len(),
            forall|t: int| 0 <= t < i ==> es@[t].0@ != key@,
        decreases n - i,
    {
        if es[i].0.eq(key) {
            return Some(i);
        }
        i += 1;
    }
    None
}

} // verus!
