//! A small name-keyed map, backed by an association list with unique keys.
//! Its view is a mathematical `Map` from character sequences to the views of
//! the stored values, which lets every pass state its contract over `Map`.

use vstd::prelude::*;

verus! {

/// The map described by an association list: later entries win, though with
/// unique keys the order never matters.
pub open spec fn assoc_map<V: DeepView>(s: Seq<(String, V)>) -> Map<Seq<char>, V::V>
    decreases s.len(),
{
    if s.len() == 0 {
        Map::empty()
    } else {
        assoc_map(s.drop_last()).insert(s.last().0@, s.last().1.deep_view())
    }
}

/// `m` with the key `t` removed, and every entry whose value is `t` removed.
pub open spec fn drop_key_and_value(m: Map<Seq<char>, Seq<char>>, t: Seq<char>) -> Map<
    Seq<char>,
    Seq<char>,
> {
    Map::new(|k: Seq<char>| m.contains_key(k) && k != t && m[k] != t, |k: Seq<char>| m[k])
}

/// A name-to-value map with unique keys.
pub struct StrMap<V> {
    pairs: Vec<(String, V)>,
}

impl<V: DeepView> View for StrMap<V> {
    type V = Map<Seq<char>, V::V>;

    closed spec fn view(&self) -> Map<Seq<char>, V::V> {
        assoc_map(self.pairs@)
    }
}

pub open spec fn unique_keys<V>(s: Seq<(String, V)>) -> bool {
    forall|i: int, j: int| 0 <= i < j < s.len() ==> s[i].0@ != s[j].0@
}

proof fn lemma_assoc_contains<V: DeepView>(s: Seq<(String, V)>, k: Seq<char>)
    ensures
        assoc_map(s).contains_key(k) <==> exists|i: int| 0 <= i < s.len() && s[i].0@ == k,
    decreases s.len(),
{
    if s.len() > 0 {
        lemma_assoc_contains(s.drop_last(), k);
        if assoc_map(s).contains_key(k) {
            if s.last().0@ != k {
                let i = choose|i: int| 0 <= i < s.drop_last().len() && s.drop_last()[i].0@ == k;
                assert(s[i].0@ == k);
            } else {
                assert(s[s.len() - 1].0@ == k);
            }
        } else {
            assert(forall|i: int| 0 <= i < s.len() - 1 ==> s.drop_last()[i] == s[i]);
        }
    }
}

proof fn lemma_assoc_index<V: DeepView>(s: Seq<(String, V)>, i: int)
    requires
        unique_keys(s),
        0 <= i < s.len(),
    ensures
        assoc_map(s).contains_key(s[i].0@),
        assoc_map(s)[s[i].0@] == s[i].1.deep_view(),
    decreases s.len(),
{
    if i == s.len() - 1 {
        assert(assoc_map(s) == assoc_map(s.drop_last()).insert(s.last().0@, s.last().1.deep_view()));
    } else {
        assert(forall|j: int| 0 <= j < s.len() - 1 ==> s.drop_last()[j] == s[j]);
        lemma_assoc_index(s.drop_last(), i);
        assert(s[i].0@ != s.last().0@);
    }
}

proof fn lemma_assoc_remove_absent<V: DeepView>(s: Seq<(String, V)>, k: Seq<char>)
    requires
        forall|i: int| 0 <= i < s.len() ==> s[i].0@ != k,
    ensures
        assoc_map(s).remove(k) == assoc_map(s),
    decreases s.len(),
{
    lemma_assoc_contains(s, k);
    assert(assoc_map(s).remove(k) =~= assoc_map(s));
}

proof fn lemma_assoc_remove_at<V: DeepView>(s: Seq<(String, V)>, i: int)
    requires
        unique_keys(s),
        0 <= i < s.len(),
    ensures
        assoc_map(s.remove(i)) == assoc_map(s).remove(s[i].0@),
        unique_keys(s.remove(i)),
    decreases s.len(),
{
    let k = s[i].0@;
    let r = s.remove(i);
    assert(unique_keys(r)) by {
        assert(forall|a: int| 0 <= a < r.len() ==> #[trigger] r[a] == (if a < i {
            s[a]
        } else {
            s[a + 1]
        }));
    }
    if i == s.len() - 1 {
        assert(r =~= s.drop_last());
        lemma_assoc_remove_absent(s.drop_last(), k);
    } else {
        let sd = s.drop_last();
        assert(forall|j: int| 0 <= j < sd.len() ==> sd[j] == s[j]);
        lemma_assoc_remove_at(sd, i);
        assert(r.drop_last() =~= sd.remove(i));
        assert(r.last() == s.last());
        assert(assoc_map(r) == assoc_map(sd.remove(i)).insert(s.last().0@, s.last().1.deep_view()));
        assert(k != s.last().0@);
        assert(assoc_map(s).remove(k) =~= assoc_map(sd).remove(k).insert(
            s.last().0@,
            s.last().1.deep_view(),
        ));
    }
}

impl<V: DeepView> StrMap<V> {
    /// Keys are never repeated in the backing list.
    pub closed spec fn wf(&self) -> bool {
        unique_keys(self.pairs@)
    }

    pub fn new() -> (r: Self)
        ensures
            r.wf(),
            r@ == Map::<Seq<char>, V::V>::empty(),
    {
        StrMap { pairs: Vec::new() }
    }

    /// Look a name up; `Some` exactly when the view contains the name.
    pub fn get(&self, name: &String) -> (r: Option<&V>)
        requires
            self.wf(),
        ensures
            match r {
                Some(v) => self@.contains_key(name@) && v.deep_view() == self@[name@],
                None => !self@.contains_key(name@),
            },
    {
        let n = self.pairs.len();
        let mut i: usize = 0;
        while i < n
            invariant
                0 <= i <= n,
                n == self.pairs.len(),
                self.wf(),
                forall|j: int| 0 <= j < i ==> self.pairs@[j].0@ != name@,
            decreases n - i,
        {
            if self.pairs[i].0 == *name {
                proof {
                    lemma_assoc_index(self.pairs@, i as int);
                }
                return Some(&self.pairs[i].1);
            }
            i += 1;
        }
        proof {
            lemma_assoc_contains(self.pairs@, name@);
        }
        None
    }

    /// Remove a name if present; removing an absent name changes nothing.
    pub fn remove(&mut self, name: &String)
        requires
            old(self).wf(),
        ensures
            final(self).wf(),
            final(self)@ == old(self)@.remove(name@),
    {
        let n = self.pairs.len();
        let mut i: usize = 0;
        while i < n
            invariant
                0 <= i <= n,
                n == self.pairs.len(),
                self.wf(),
                self.pairs@ == old(self).pairs@,
                forall|j: int| 0 <= j < i ==> self.pairs@[j].0@ != name@,
            decreases n - i,
        {
            if self.pairs[i].0 == *name {
                proof {
                    lemma_assoc_remove_at(self.pairs@, i as int);
                }
                self.pairs.remove(i);
                return ;
            }
            i += 1;
        }
        proof {
            lemma_assoc_remove_absent(self.pairs@, name@);
        }
    }

    /// Bind a name, overwriting any earlier binding.
    pub fn insert(&mut self, name: String, value: V)
        requires
            old(self).wf(),
        ensures
            final(self).wf(),
            final(self)@ == old(self)@.insert(name@, value.deep_view()),
    {
        self.remove(&name);
        proof {
            lemma_assoc_contains(self.pairs@, name@);
        }
        let ghost before = self.pairs@;
        self.pairs.push((name, value));
        proof {
            assert(self.pairs@.drop_last() =~= before);
            assert(unique_keys(self.pairs@)) by {
                assert(forall|j: int|
                    0 <= j < before.len() ==> self.pairs@[j] == before[j]);
                lemma_assoc_contains(before, self.pairs@.last().0@);
            }
            assert(self@ =~= old(self)@.insert(self.pairs@.last().0@, value.deep_view()));
        }
    }
}

impl StrMap<String> {
    /// Remove the key `t` and every entry whose value is `t`.
    pub fn drop_through(&mut self, t: &String)
        requires
            old(self).wf(),
        ensures
            final(self).wf(),
            final(self)@ == drop_key_and_value(old(self)@, t@),
    {
        let n = self.pairs.len();
        let mut kept: Vec<(String, String)> = Vec::new();
        let mut i: usize = 0;
        while i < n
            invariant
                0 <= i <= n,
                n == self.pairs.len(),
                unique_keys(self.pairs@),
                unique_keys(kept@),
                forall|a: int| 0 <= a < kept@.len() ==> exists|b: int|
                    0 <= b < i && #[trigger] kept@[a] == self.pairs@[b],
                assoc_map(kept@) == drop_key_and_value(
                    assoc_map(self.pairs@.take(i as int)),
                    t@,
                ),
            decreases n - i,
        {
            let ghost pre = self.pairs@.take(i as int);
            let ghost kept_pre = kept@;
            proof {
                assert(self.pairs@.take(i + 1) =~= pre.push(self.pairs@[i as int]));
                assert(pre.push(self.pairs@[i as int]).drop_last() =~= pre);
                assert(unique_keys(pre)) by {
                    assert(forall|j: int| 0 <= j < i ==> pre[j] == self.pairs@[j]);
                }
                lemma_assoc_contains(pre, self.pairs@[i as int].0@);
            }
            let keep = !(self.pairs[i].0 == *t) && !(self.pairs[i].1 == *t);
            if keep {
                let p = (self.pairs[i].0.clone(), self.pairs[i].1.clone());
                assert(p == self.pairs@[i as int]);
                kept.push(p);
                proof {
                    assert(kept@.drop_last() =~= kept_pre);
                    assert(unique_keys(kept@)) by {
                        assert(forall|j: int| 0 <= j < kept_pre.len() ==> kept@[j] == kept_pre[j]);
                    }
                    assert(assoc_map(kept@) =~= drop_key_and_value(
                        assoc_map(self.pairs@.take(i + 1)),
                        t@,
                    ));
                }
            } else {
                proof {
                    assert(assoc_map(kept@) =~= drop_key_and_value(
                        assoc_map(self.pairs@.take(i + 1)),
                        t@,
                    ));
                }
            }
            i += 1;
        }
        proof {
            assert(self.pairs@.take(n as int) =~= self.pairs@);
        }
        self.pairs = kept;
    }
}

} // verus!
