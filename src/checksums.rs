use vstd::prelude::*;

verus! {

/// The map that entries `s` describe, a later entry for a key replacing an
/// earlier one.
pub open spec fn map_of(s: Seq<(String, String)>) -> Map<Seq<char>, Seq<char>>
    decreases s.len(),
{
    if s.len() == 0 {
        Map::empty()
    } else {
        map_of(s.drop_last()).insert(s.last().0@, s.last().1@)
    }
}

pub open spec fn keys_of(s: Seq<(String, String)>) -> Seq<Seq<char>> {
    s.map_values(|e: (String, String)| e.0@)
}

pub open spec fn unique_keys(s: Seq<(String, String)>) -> bool {
    forall|i: int, j: int| 0 <= i < j < s.len() ==> (#[trigger] s[i]).0@ != (#[trigger] s[j]).0@
}

pub proof fn lemma_map_of_contains(s: Seq<(String, String)>, k: Seq<char>)
    ensures
        map_of(s).contains_key(k) <==> keys_of(s).contains(k),
    decreases s.len(),
{
    if s.len() == 0 {
        assert(keys_of(s).len() == 0);
    } else {
        lemma_map_of_contains(s.drop_last(), k);
        assert(keys_of(s) =~= keys_of(s.drop_last()).push(s.last().0@));
        if k == s.last().0@ {
            assert(keys_of(s)[s.len() - 1] == k);
        }
        if keys_of(s.drop_last()).contains(k) {
            let i = choose|i: int| 0 <= i < keys_of(s.drop_last()).len() && keys_of(s.drop_last())[i] == k;
            assert(keys_of(s)[i] == k);
        }
        if keys_of(s).contains(k) && k != s.last().0@ {
            let i = choose|i: int| 0 <= i < keys_of(s).len() && keys_of(s)[i] == k;
            assert(keys_of(s.drop_last())[i] == k);
        }
    }
}

pub proof fn lemma_map_of_value(s: Seq<(String, String)>, i: int)
    requires
        unique_keys(s),
        0 <= i < s.len(),
    ensures
        map_of(s).contains_key(s[i].0@),
        map_of(s)[s[i].0@] == s[i].1@,
    decreases s.len(),
{
    if i < s.len() - 1 {
        assert(s.drop_last()[i] == s[i]);
        assert(unique_keys(s.drop_last()));
        lemma_map_of_value(s.drop_last(), i);
        assert(s[i].0@ != s[s.len() - 1].0@);
    }
}

pub proof fn lemma_map_of_update(s: Seq<(String, String)>, i: int, e: (String, String))
    requires
        unique_keys(s),
        0 <= i < s.len(),
        s[i].0@ == e.0@,
    ensures
        map_of(s.update(i, e)) == map_of(s).insert(e.0@, e.1@),
    decreases s.len(),
{
    let t = s.update(i, e);
    if i == s.len() - 1 {
        assert(t.drop_last() == s.drop_last());
        assert(map_of(s).insert(e.0@, e.1@) =~= map_of(s.drop_last()).insert(e.0@, e.1@));
    } else {
        assert(t.drop_last() == s.drop_last().update(i, e));
        assert(unique_keys(s.drop_last()));
        lemma_map_of_update(s.drop_last(), i, e);
        assert(s[i].0@ != s.last().0@);
        assert(map_of(t) =~= map_of(s).insert(e.0@, e.1@));
    }
}

/// A map from directory path to its change-detection token (the commit the
/// repository's HEAD points at), one token per path. `key_order` gives the
/// paths in the order they were first inserted.
#[derive(Debug)]
pub struct Checksums {
    entries: Vec<(String, String)>,
}

impl View for Checksums {
    type V = Map<Seq<char>, Seq<char>>;

    closed spec fn view(&self) -> Map<Seq<char>, Seq<char>> {
        map_of(self.entries@)
    }
}

impl Checksums {
    #[verifier::type_invariant]
    spec fn inv(&self) -> bool {
        unique_keys(self.entries@)
    }

    /// Each path of the map once, in insertion order.
    pub closed spec fn key_order(&self) -> Seq<Seq<char>> {
        keys_of(self.entries@)
    }

    pub proof fn lemma_key_order(&self, k: Seq<char>)
        ensures
            self@.contains_key(k) <==> self.key_order().contains(k),
    {
        lemma_map_of_contains(self.entries@, k);
    }

    pub fn new() -> (r: Self)
        ensures
            r@ == Map::<Seq<char>, Seq<char>>::empty(),
            r.key_order() == Seq::<Seq<char>>::empty(),
    {
        let r = Checksums { entries: Vec::new() };
        assert(keys_of(r.entries@) =~= Seq::<Seq<char>>::empty());
        r
    }

    /// The number of paths in the map.
    pub fn len(&self) -> (r: usize)
        ensures
            r == self.key_order().len(),
    {
        self.entries.len()
    }

    /// The path and token at position `i` of the insertion order.
    pub fn entry(&self, i: usize) -> (r: (&String, &String))
        requires
            i < self.key_order().len(),
        ensures
            r.0@ == self.key_order()[i as int],
            self@.contains_key(r.0@),
            self@[r.0@] == r.1@,
    {
        proof {
            use_type_invariant(self);
            lemma_map_of_value(self.entries@, i as int);
        }
        (&self.entries[i].0, &self.entries[i].1)
    }

    fn position(&self, path: &String) -> (r: Option<usize>)
        ensures
            match r {
                Some(i) => i < self.entries@.len() && self.entries@[i as int].0@ == path@,
                None => !keys_of(self.entries@).contains(path@),
            },
    {
        let mut i: usize = 0;
        while i < self.entries.len()
            invariant
                i <= self.entries@.len(),
                forall|k: int| 0 <= k < i ==> (#[trigger] self.entries@[k]).0@ != path@,
            decreases self.entries@.len() - i,
        {
            if self.entries[i].0 == *path {
                return Some(i);
            }
            i += 1;
        }
        proof {
            if keys_of(self.entries@).contains(path@) {
                let k = choose|k: int| 0 <= k < keys_of(self.entries@).len() && keys_of(self.entries@)[k] == path@;
                assert(self.entries@[k].0@ == path@);
            }
        }
        None
    }

    /// The token recorded for `path`, if any.
    pub fn get(&self, path: &String) -> (r: Option<String>)
        ensures
            match r {
                Some(t) => self@.contains_key(path@) && self@[path@] == t@,
                None => !self@.contains_key(path@),
            },
    {
        proof {
            use_type_invariant(self);
            lemma_map_of_contains(self.entries@, path@);
        }
        match self.position(path) {
            Some(i) => {
                proof {
                    lemma_map_of_value(self.entries@, i as int);
                }
                Some(self.entries[i].1.clone())
            },
            None => None,
        }
    }

    /// Records `token` for `path`, replacing an earlier token for it.
    pub fn insert(&mut self, path: String, token: String)
        ensures
            final(self)@ == old(self)@.insert(path@, token@),
            final(self).key_order() == (if old(self).key_order().contains(path@) {
                old(self).key_order()
            } else {
                old(self).key_order().push(path@)
            }),
    {
        proof {
            use_type_invariant(&*self);
        }
        let ghost token_v = token@;
        let ghost path_v = path@;
        let ghost old_entries = self.entries@;
        let found = self.position(&path);
        let mut entries: Vec<(String, String)> = Vec::new();
        std::mem::swap(&mut entries, &mut self.entries);
        assert(entries@ == old_entries);
        match found {
            Some(i) => {
                proof {
                    lemma_map_of_update(old_entries, i as int, (path, token));
                }
                entries.set(i, (path, token));
                proof {
                    assert(entries@ == old_entries.update(i as int, (path, token)));
                    assert(keys_of(entries@) =~= keys_of(old_entries));
                    assert(keys_of(old_entries)[i as int] == path_v);
                    assert forall|a: int, b: int| 0 <= a < b < entries@.len() implies
                        (#[trigger] entries@[a]).0@ != (#[trigger] entries@[b]).0@ by {
                        assert(keys_of(entries@)[a] == entries@[a].0@);
                        assert(keys_of(entries@)[b] == entries@[b].0@);
                        assert(old_entries[a].0@ != old_entries[b].0@);
                    }
                }
            },
            None => {
                entries.push((path, token));
                proof {
                    assert(entries@.drop_last() == old_entries);
                    assert(keys_of(entries@) =~= keys_of(old_entries).push(path_v));
                    assert forall|a: int, b: int| 0 <= a < b < entries@.len() implies
                        (#[trigger] entries@[a]).0@ != (#[trigger] entries@[b]).0@ by {
                        if b == old_entries.len() {
                            assert(keys_of(old_entries)[a] == old_entries[a].0@);
                        } else {
                            assert(old_entries[a].0@ != old_entries[b].0@);
                        }
                    }
                }
            },
        }
        self.entries = entries;
    }
}

} // verus!
