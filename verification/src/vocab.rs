//! Vocabulary: a mapping from token strings to non-negative ids.
//!
//! The map is held as an association list with pairwise-distinct keys, so its
//! behaviour can be stated over a `Map<Seq<char>, usize>` view.

use vstd::prelude::*;
use vstd::string::StringExecFns;

verus! {

/// Abstract map denoted by an association list of (token, id) pairs.
pub open spec fn assoc_map(s: Seq<(String, usize)>) -> Map<Seq<char>, usize>
    decreases s.len(),
{
    if s.len() == 0 {
        Map::empty()
    } else {
        assoc_map(s.drop_last()).insert(s.last().0@, s.last().1)
    }
}

/// All keys of the association list are distinct.
pub open spec fn distinct_keys(s: Seq<(String, usize)>) -> bool {
    forall |i: int, j: int| 0 <= i < j < s.len() ==>
        (#[trigger] s[i]).0@ != (#[trigger] s[j]).0@
}

/// With distinct keys, the abstract map holds exactly the listed pairs.
proof fn lemma_assoc_map_props(s: Seq<(String, usize)>)
    requires
        distinct_keys(s),
    ensures
        forall |t: Seq<char>| #[trigger] assoc_map(s).contains_key(t) ==>
            exists |i: int| 0 <= i < s.len() && (#[trigger] s[i]).0@ == t,
        forall |i: int| 0 <= i < s.len() ==>
            assoc_map(s).contains_key((#[trigger] s[i]).0@)
                && assoc_map(s)[s[i].0@] == s[i].1,
    decreases s.len(),
{
    if s.len() > 0 {
        let prefix = s.drop_last();
        assert(distinct_keys(prefix)) by {
            assert(forall |i: int, j: int| 0 <= i < j < prefix.len() ==>
                (#[trigger] prefix[i]).0@ != (#[trigger] prefix[j]).0@);
        }
        lemma_assoc_map_props(prefix);
        assert forall |t: Seq<char>| #[trigger] assoc_map(s).contains_key(t) implies
            exists |i: int| 0 <= i < s.len() && (#[trigger] s[i]).0@ == t by {
            if t == s.last().0@ {
                assert(s[s.len() - 1].0@ == t);
            } else {
                assert(assoc_map(prefix).contains_key(t));
                let i = choose |i: int| 0 <= i < prefix.len()
                    && (#[trigger] prefix[i]).0@ == t;
                assert(s[i].0@ == t);
            }
        }
        assert forall |i: int| 0 <= i < s.len() implies
            assoc_map(s).contains_key((#[trigger] s[i]).0@)
                && assoc_map(s)[s[i].0@] == s[i].1 by {
            if i < s.len() - 1 {
                assert(prefix[i] == s[i]);
                assert(s[i].0@ != s[s.len() - 1].0@);
            }
        }
    }
}

/// With distinct keys, the abstract map's domain is finite, with one key per pair.
proof fn lemma_assoc_map_dom_len(s: Seq<(String, usize)>)
    requires
        distinct_keys(s),
    ensures
        assoc_map(s).dom().finite(),
        assoc_map(s).dom().len() == s.len(),
    decreases s.len(),
{
    if s.len() > 0 {
        let prefix = s.drop_last();
        assert(distinct_keys(prefix)) by {
            assert(forall |i: int, j: int| 0 <= i < j < prefix.len() ==>
                (#[trigger] prefix[i]).0@ != (#[trigger] prefix[j]).0@);
        }
        lemma_assoc_map_dom_len(prefix);
        lemma_assoc_map_props(prefix);
        assert(!assoc_map(prefix).contains_key(s.last().0@)) by {
            if assoc_map(prefix).contains_key(s.last().0@) {
                let i = choose |i: int| 0 <= i < prefix.len()
                    && (#[trigger] prefix[i]).0@ == s.last().0@;
                assert(s[i].0@ == s[s.len() - 1].0@);
            }
        }
        assert(assoc_map(s).dom() =~= assoc_map(prefix).dom().insert(s.last().0@));
    } else {
        assert(assoc_map(s).dom() =~= Set::<Seq<char>>::empty());
    }
}

/// Mapping from token strings to ids; must contain each key at most once.
pub struct Vocab {
    entries: Vec<(String, usize)>,
}

impl View for Vocab {
    type V = Map<Seq<char>, usize>;

    closed spec fn view(&self) -> Map<Seq<char>, usize> {
        assoc_map(self.entries@)
    }
}

impl Vocab {
    /// The association list never repeats a key.
    pub closed spec fn wf(&self) -> bool {
        distinct_keys(self.entries@)
    }

    /// An empty vocabulary.
    pub fn new() -> (r: Vocab)
        ensures
            r.wf(),
            r@ == Map::<Seq<char>, usize>::empty(),
    {
        Vocab { entries: Vec::new() }
    }

    /// Number of tokens in the vocabulary.
    pub fn len(&self) -> (r: usize)
        requires
            self.wf(),
        ensures
            r == self@.dom().len(),
    {
        proof {
            lemma_assoc_map_dom_len(self.entries@);
        }
        self.entries.len()
    }

    /// Whether `token` has an id.
    pub fn contains(&self, token: &str) -> (r: bool)
        requires
            self.wf(),
        ensures
            r == self@.contains_key(token@),
    {
        self.get(token).is_some()
    }

    /// The id of `token`, if the vocabulary holds it.
    pub fn get(&self, token: &str) -> (r: Option<usize>)
        requires
            self.wf(),
        ensures
            r == (if self@.contains_key(token@) {
                Some(self@[token@])
            } else {
                None::<usize>
            }),
    {
        proof {
            lemma_assoc_map_props(self.entries@);
        }
        let t = String::from_str(token);
        let n = self.entries.len();
        let mut k: usize = 0;
        while k < n
            invariant
                self.wf(),
                n == self.entries@.len(),
                k <= n,
                t@ == token@,
                forall |j: int| 0 <= j < k ==> (#[trigger] self.entries@[j]).0@ != token@,
            decreases n - k,
        {
            if self.entries[k].0 == t {
                proof {
                    lemma_assoc_map_props(self.entries@);
                }
                return Some(self.entries[k].1);
            }
            k += 1;
        }
        proof {
            lemma_assoc_map_props(self.entries@);
            if self@.contains_key(token@) {
                let i = choose |i: int| 0 <= i < self.entries@.len()
                    && (#[trigger] self.entries@[i]).0@ == token@;
            }
        }
        None
    }

    /// Gives `token` the id `id`, replacing any earlier id for it.
    pub fn insert(&mut self, token: &str, id: usize)
        requires
            old(self).wf(),
        ensures
            final(self).wf(),
            final(self)@ == old(self)@.insert(token@, id),
    {
        proof {
            lemma_assoc_map_props(self.entries@);
        }
        let t = String::from_str(token);
        let n = self.entries.len();
        let mut k: usize = 0;
        while k < n
            invariant
                self.wf(),
                self.entries@ == old(self).entries@,
                n == self.entries@.len(),
                k <= n,
                t@ == token@,
                forall |j: int| 0 <= j < k ==> (#[trigger] self.entries@[j]).0@ != token@,
            decreases n - k,
        {
            if self.entries[k].0 == t {
                let ghost prior = self.entries@;
                self.entries.remove(k);
                self.entries.insert(k, (t, id));
                proof {
                    assert(self.entries@ =~= prior.update(k as int, (t, id)));
                    lemma_update_same_key(prior, k as int, t, id);
                }
                return;
            }
            k += 1;
        }
        let ghost prior = self.entries@;
        self.entries.push((t, id));
        proof {
            assert(self.entries@.drop_last() =~= prior);
            lemma_assoc_map_props(prior);
            if old(self)@.contains_key(token@) {
                let i = choose |i: int| 0 <= i < prior.len()
                    && (#[trigger] prior[i]).0@ == token@;
            }
            assert(distinct_keys(self.entries@)) by {
                assert(forall |j: int| 0 <= j < prior.len() ==>
                    (#[trigger] prior[j]).0@ != token@);
            }
        }
    }

    /// A well-formed vocabulary holds finitely many tokens.
    pub proof fn lemma_dom_finite(&self)
        requires
            self.wf(),
        ensures
            self@.dom().finite(),
    {
        lemma_assoc_map_dom_len(self.entries@);
    }

    /// The pairs held, for callers that walk the whole vocabulary.
    pub fn entry_list(&self) -> (r: &Vec<(String, usize)>)
        requires
            self.wf(),
        ensures
            r@.len() == self@.dom().len(),
            forall |i: int| 0 <= i < r@.len() ==>
                self@.contains_key((#[trigger] r@[i]).0@) && self@[r@[i].0@] == r@[i].1,
    {
        proof {
            lemma_assoc_map_props(self.entries@);
            lemma_assoc_map_dom_len(self.entries@);
        }
        &self.entries
    }
}

/// Updating the pair at `k` without changing its key updates the abstract map at that key.
proof fn lemma_update_same_key(s: Seq<(String, usize)>, k: int, t: String, id: usize)
    requires
        distinct_keys(s),
        0 <= k < s.len(),
        s[k].0@ == t@,
    ensures
        distinct_keys(s.update(k, (t, id))),
        assoc_map(s.update(k, (t, id))) == assoc_map(s).insert(t@, id),
{
    let s2 = s.update(k, (t, id));
    assert(distinct_keys(s2)) by {
        assert(forall |i: int| 0 <= i < s2.len() ==> (#[trigger] s2[i]).0@ == s[i].0@);
    }
    lemma_assoc_map_props(s);
    lemma_assoc_map_props(s2);
    assert forall |key: Seq<char>|
        assoc_map(s2).contains_key(key) == #[trigger] assoc_map(s).insert(t@, id).contains_key(key)
    by {
        if assoc_map(s2).contains_key(key) {
            let i = choose |i: int| 0 <= i < s2.len() && (#[trigger] s2[i]).0@ == key;
            if i == k {
                assert(assoc_map(s).insert(t@, id).contains_key(key));
            } else {
                assert(s[i].0@ == key);
            }
        }
        if assoc_map(s).insert(t@, id).contains_key(key) {
            if key == t@ {
                assert(s2[k].0@ == key);
            } else {
                assert(assoc_map(s).contains_key(key));
                let i = choose |i: int| 0 <= i < s.len() && (#[trigger] s[i]).0@ == key;
                assert(s2[i].0@ == key);
            }
        }
    }
    assert forall |key: Seq<char>| #[trigger] assoc_map(s2).contains_key(key) implies
        assoc_map(s2)[key] == assoc_map(s).insert(t@, id)[key]
    by {
        let i = choose |i: int| 0 <= i < s2.len() && (#[trigger] s2[i]).0@ == key;
        if i == k {
            assert(assoc_map(s2)[key] == id);
        } else {
            assert(s[i].0@ == key);
            assert(key != t@) by {
                if key == t@ {
                    assert(s[i].0@ == s[k].0@);
                }
            }
            assert(assoc_map(s2)[key] == s2[i].1);
        }
    }
    assert(assoc_map(s2) =~= assoc_map(s).insert(t@, id));
}

} // verus!
