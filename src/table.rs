use vstd::prelude::*;

verus! {

/// No two entries share a key.
pub open spec fn keys_distinct<T>(s: Seq<(String, T)>) -> bool {
    forall|i: int, j: int| 0 <= i < s.len() && 0 <= j < s.len() && i != j ==> s[i].0@ != s[j].0@
}

/// Some entry has `key`.
pub open spec fn has_key<T>(s: Seq<(String, T)>, key: Seq<char>) -> bool {
    exists|k: int| 0 <= k < s.len() && #[trigger] s[k].0@ == key
}

/// Position of the entry with `key`, where there is one.
pub open spec fn key_index<T>(s: Seq<(String, T)>, key: Seq<char>) -> int {
    choose|k: int| 0 <= k < s.len() && #[trigger] s[k].0@ == key
}

/// The value stored under `key`.
pub open spec fn lookup<T>(s: Seq<(String, T)>, key: Seq<char>) -> Option<T> {
    if has_key(s, key) {
        Some(s[key_index(s, key)].1)
    } else {
        None
    }
}

/// The entries after `value` is stored under `key`: an entry with that key has its value
/// replaced in place; otherwise a new entry goes to the end.
pub open spec fn stored<T>(s: Seq<(String, T)>, key: String, value: T) -> Seq<(String, T)> {
    if has_key(s, key@) {
        s.update(key_index(s, key@), (s[key_index(s, key@)].0, value))
    } else {
        s.push((key, value))
    }
}

/// The entries after the one with `key` is taken out.
pub open spec fn taken<T>(s: Seq<(String, T)>, key: Seq<char>) -> Seq<(String, T)> {
    if has_key(s, key) {
        s.remove(key_index(s, key))
    } else {
        s
    }
}

proof fn lemma_key_index<T>(s: Seq<(String, T)>, k: int)
    requires
        keys_distinct(s),
        0 <= k < s.len(),
    ensures
        has_key(s, s[k].0@),
        key_index(s, s[k].0@) == k,
{
    assert(s[k].0@ == s[k].0@);
}

/// Storing keeps keys distinct; afterwards the key gives the value stored and every other
/// key gives what it gave before.
pub proof fn lemma_stored<T>(s: Seq<(String, T)>, key: String, value: T)
    requires
        keys_distinct(s),
    ensures
        keys_distinct(stored(s, key, value)),
        lookup(stored(s, key, value), key@) == Some(value),
        forall|other: Seq<char>| other != key@ ==> lookup(stored(s, key, value), other) == lookup(s, other),
        stored(s, key, value).len() == if has_key(s, key@) { s.len() } else { s.len() + 1 },
{
    let r = stored(s, key, value);
    if has_key(s, key@) {
        let k = key_index(s, key@);
        lemma_key_index(r, k);
        assert forall|other: Seq<char>| other != key@ implies lookup(r, other) == lookup(s, other) by {
            if has_key(s, other) {
                let j = key_index(s, other);
                assert(r[j] == s[j]);
                lemma_key_index(r, j);
            }
            if has_key(r, other) {
                let j = key_index(r, other);
                assert(r[j] == s[j]);
            }
        }
    } else {
        let n = s.len() as int;
        assert forall|i: int, j: int| 0 <= i < r.len() && 0 <= j < r.len() && i != j implies r[i].0@
            != r[j].0@ by {
            if i == n {
                assert(s[j].0@ == r[j].0@);
            } else if j == n {
                assert(s[i].0@ == r[i].0@);
            }
        }
        lemma_key_index(r, n);
        assert forall|other: Seq<char>| other != key@ implies lookup(r, other) == lookup(s, other) by {
            if has_key(s, other) {
                let j = key_index(s, other);
                assert(r[j] == s[j]);
                lemma_key_index(r, j);
            }
            if has_key(r, other) {
                let j = key_index(r, other);
                assert(r[j] == s[j]);
            }
        }
    }
}

/// Taking keeps keys distinct; afterwards the key gives nothing and every other key gives
/// what it gave before.
pub proof fn lemma_taken<T>(s: Seq<(String, T)>, key: Seq<char>)
    requires
        keys_distinct(s),
    ensures
        keys_distinct(taken(s, key)),
        lookup(taken(s, key), key) is None,
        forall|other: Seq<char>| other != key ==> lookup(taken(s, key), other) == lookup(s, other),
        taken(s, key).len() == if has_key(s, key) { s.len() - 1 } else { s.len() as int },
{
    if has_key(s, key) {
        let k = key_index(s, key);
        let r = taken(s, key);
        assert forall|i: int| 0 <= i < r.len() implies #[trigger] r[i].0@ != key by {
            if i < k {
                assert(r[i] == s[i]);
            } else {
                assert(r[i] == s[i + 1]);
            }
        }
        assert forall|i: int, j: int| 0 <= i < r.len() && 0 <= j < r.len() && i != j implies r[i].0@
            != r[j].0@ by {
            let si = if i < k { i } else { i + 1 };
            let sj = if j < k { j } else { j + 1 };
            assert(r[i] == s[si]);
            assert(r[j] == s[sj]);
        }
        assert forall|other: Seq<char>| other != key implies lookup(r, other) == lookup(s, other) by {
            if has_key(s, other) {
                let j = key_index(s, other);
                let rj = if j < k { j } else { j - 1 };
                assert(r[rj] == s[j]);
                lemma_key_index(r, rj);
            }
            if has_key(r, other) {
                let j = key_index(r, other);
                let sj = if j < k { j } else { j + 1 };
                assert(r[j] == s[sj]);
                lemma_key_index(s, sj);
            }
        }
    }
}

/// Entries keyed by text, each key at most once.
#[derive(Debug)]
pub struct KeyTable<T> {
    entries: Vec<(String, T)>,
}

impl<T> View for KeyTable<T> {
    type V = Seq<(String, T)>;

    closed spec fn view(&self) -> Seq<(String, T)> {
        self.entries@
    }
}

impl<T> KeyTable<T> {
    /// Each key at most once.
    pub open spec fn wf(&self) -> bool {
        keys_distinct(self@)
    }

    pub fn new() -> (r: KeyTable<T>)
        ensures
            r@ == Seq::<(String, T)>::empty(),
            r.wf(),
    {
        KeyTable { entries: Vec::new() }
    }

    pub fn len(&self) -> (r: usize)
        ensures
            r == self@.len(),
    {
        self.entries.len()
    }

    fn position(&self, key: &String) -> (r: Option<usize>)
        requires
            self.wf(),
        ensures
            match r {
                Some(k) => k < self@.len() && key_index(self@, key@) == k && has_key(self@, key@),
                None => !has_key(self@, key@),
            },
    {
        let mut k: usize = 0;
        while k < self.entries.len()
            invariant
                k <= self@.len(),
                self@ == self.entries@,
                keys_distinct(self@),
                forall|j: int| 0 <= j < k ==> self@[j].0@ != key@,
            decreases self@.len() - k,
        {
            if self.entries[k].0 == *key {
                proof {
                    lemma_key_index(self@, k as int);
                }
                return Some(k);
            }
            k = k + 1;
        }
        None
    }

    /// The value stored under `key`.
    pub fn get(&self, key: &String) -> (r: Option<&T>)
        requires
            self.wf(),
        ensures
            match r {
                Some(v) => lookup(self@, key@) == Some(*v),
                None => lookup(self@, key@) is None,
            },
    {
        match self.position(key) {
            Some(k) => Some(&self.entries[k].1),
            None => None,
        }
    }

    /// Stores `value` under `key`, replacing what was there.
    pub fn insert(&mut self, key: String, value: T)
        requires
            old(self).wf(),
        ensures
            final(self)@ == stored(old(self)@, key, value),
            final(self).wf(),
    {
        proof {
            lemma_stored(self@, key, value);
        }
        match self.position(&key) {
            Some(k) => {
                let ghost s = self@;
                let (old_key, _old_value) = self.entries.remove(k);
                self.entries.insert(k, (old_key, value));
                assert(self@ =~= stored(s, key, value));
            },
            None => {
                self.entries.push((key, value));
            },
        }
    }

    /// Takes out the entry with `key` and hands its value over.
    pub fn take(&mut self, key: &String) -> (r: Option<T>)
        requires
            old(self).wf(),
        ensures
            r == lookup(old(self)@, key@),
            final(self)@ == taken(old(self)@, key@),
            final(self).wf(),
    {
        proof {
            lemma_taken(self@, key@);
        }
        match self.position(key) {
            Some(k) => {
                let (_key, value) = self.entries.remove(k);
                Some(value)
            },
            None => None,
        }
    }
}

} // verus!
