//! The resource change set: an insertion-ordered map from resource key to
//! filtered diff body. Keys are unique and case-sensitive; inserting an
//! existing key overwrites its body in place (last write wins).

use vstd::prelude::*;

verus! {

/// One `(resource key, diff body)` pair per changed resource, in insertion
/// order, with unique keys.
pub struct ResourceChangeSet {
    keys: Vec<String>,
    bodies: Vec<String>,
}

/// No key occurs twice.
pub open spec fn unique_keys(entries: Seq<(Seq<char>, Seq<char>)>) -> bool {
    forall|i: int, j: int| 0 <= i < j < entries.len() ==> entries[i].0 != entries[j].0
}

impl ResourceChangeSet {
    /// The entries, as `(key, body)` character sequences in insertion order.
    pub closed spec fn entries(self) -> Seq<(Seq<char>, Seq<char>)> {
        Seq::new(self.keys@.len(), |i: int| (self.keys@[i]@, self.bodies@[i]@))
    }

    /// The two columns pair up.
    pub closed spec fn lengths_match(self) -> bool {
        self.keys@.len() == self.bodies@.len()
    }

    pub open spec fn wf(self) -> bool {
        self.lengths_match() && unique_keys(self.entries())
    }

    pub open spec fn spec_len(self) -> nat {
        self.entries().len()
    }

    pub open spec fn contains_key(self, k: Seq<char>) -> bool {
        exists|i: int| 0 <= i < self.entries().len() && self.entries()[i].0 == k
    }

    /// The index of `k` among the entries.
    pub open spec fn key_index(self, k: Seq<char>) -> int {
        choose|i: int| 0 <= i < self.entries().len() && self.entries()[i].0 == k
    }

    /// The body stored under `k`.
    pub open spec fn body_of(self, k: Seq<char>) -> Seq<char> {
        self.entries()[self.key_index(k)].1
    }

    pub fn new() -> (s: Self)
        ensures
            s.wf(),
            s.entries() == Seq::<(Seq<char>, Seq<char>)>::empty(),
    {
        let s = ResourceChangeSet { keys: Vec::new(), bodies: Vec::new() };
        proof {
            assert(s.entries() =~= Seq::<(Seq<char>, Seq<char>)>::empty());
        }
        s
    }

    pub fn len(&self) -> (n: usize)
        ensures
            n == self.spec_len(),
    {
        self.keys.len()
    }

    pub fn is_empty(&self) -> (b: bool)
        ensures
            b == (self.spec_len() == 0),
    {
        self.keys.len() == 0
    }

    /// The key of the `i`th entry.
    pub fn key_at(&self, i: usize) -> (k: &String)
        requires
            self.wf(),
            i < self.spec_len(),
        ensures
            k@ == self.entries()[i as int].0,
    {
        &self.keys[i]
    }

    /// The body of the `i`th entry.
    pub fn body_at(&self, i: usize) -> (b: &String)
        requires
            self.wf(),
            i < self.spec_len(),
        ensures
            b@ == self.entries()[i as int].1,
    {
        &self.bodies[i]
    }

    /// The position of `key`, scanning from the front.
    fn position_of(&self, key: &Vec<char>) -> (r: Option<usize>)
        ensures
            match r {
                Some(i) => i < self.spec_len() && self.entries()[i as int].0 == key@,
                None => !self.contains_key(key@),
            },
    {
        let n: usize = self.keys.len();
        let mut i: usize = 0;
        while i < n
            invariant
                n == self.keys@.len(),
                self.entries().len() == n,
                0 <= i <= n,
                forall|k: int| 0 <= k < i ==> self.entries()[k].0 != key@,
            decreases n - i,
        {
            let ck = crate::text::to_chars(self.keys[i].as_str());
            if crate::text::eq_chars(&ck, key) {
                return Some(i);
            }
            i += 1;
        }
        None
    }

    /// Insert `body` under `key`: a new entry at the end, or, when the key is
    /// already present, an overwrite of its body in place.
    pub fn insert(&mut self, key: String, body: String)
        requires
            old(self).wf(),
        ensures
            final(self).wf(),
            old(self).contains_key(key@) ==> final(self).entries() == old(self).entries().update(
                old(self).key_index(key@),
                (key@, body@),
            ),
            !old(self).contains_key(key@) ==> final(self).entries() == old(self).entries().push(
                (key@, body@),
            ),
    {
        let ck = crate::text::to_chars(key.as_str());
        match self.position_of(&ck) {
            Some(i) => {
                let ghost idx = old(self).key_index(key@);
                proof {
                    // unique keys: the found position is the chosen index
                    assert(old(self).contains_key(key@));
                    assert(0 <= idx < old(self).entries().len() && old(self).entries()[idx].0
                        == key@);
                    assert(idx == i as int);
                }
                self.bodies[i] = body;
                proof {
                    assert(self.entries() =~= old(self).entries().update(
                        i as int,
                        (key@, body@),
                    ));
                }
            },
            None => {
                self.keys.push(key);
                self.bodies.push(body);
                proof {
                    assert(self.entries() =~= old(self).entries().push((key@, body@)));
                }
            },
        }
    }

    /// Look up the body stored under `key`.
    pub fn get(&self, key: &str) -> (r: Option<&String>)
        requires
            self.wf(),
        ensures
            match r {
                Some(b) => self.contains_key(key@) && b@ == self.body_of(key@),
                None => !self.contains_key(key@),
            },
    {
        let ck = crate::text::to_chars(key);
        match self.position_of(&ck) {
            Some(i) => {
                proof {
                    let idx = self.key_index(key@);
                    assert(self.contains_key(key@));
                    assert(0 <= idx < self.entries().len() && self.entries()[idx].0 == key@);
                    assert(idx == i as int);
                }
                Some(&self.bodies[i])
            },
            None => None,
        }
    }

    /// The keys, cloned, in insertion order.
    pub fn keys_cloned(&self) -> (r: Vec<String>)
        ensures
            r.deep_view() == self.entries().map_values(|e: (Seq<char>, Seq<char>)| e.0),
    {
        let n: usize = self.keys.len();
        let mut r: Vec<String> = Vec::new();
        let mut i: usize = 0;
        while i < n
            invariant
                n == self.keys@.len(),
                self.entries().len() == n,
                0 <= i <= n,
                r.deep_view().len() == i,
                forall|k: int| 0 <= k < i ==> r.deep_view()[k] == self.entries()[k].0,
            decreases n - i,
        {
            let ghost old_r = r.deep_view();
            r.push(self.keys[i].clone());
            proof {
                assert(r.deep_view() =~~= old_r.push(self.keys@[i as int]@));
            }
            i += 1;
        }
        proof {
            assert(r.deep_view() =~~= self.entries().map_values(
                |e: (Seq<char>, Seq<char>)| e.0,
            ));
        }
        r
    }
}

} // verus!
