//! The in-memory index: which record directory holds each name.
//!
//! It is rebuilt from a scan of the store root at startup and kept current
//! as records are added and removed. Two names whose storage keys coincide
//! map to the same directory; the index keeps both names.
use vstd::prelude::*;
use crate::codec::{
    data_text, decode_data, decoded_name, encode_data, lemma_data_round_trip, opt_view, views,
};
use crate::digest::{key_of, storage_key};
use crate::text::{ends_with_cr, single_line};

verus! {

/// One directory found under the store root: its name (the storage key)
/// and the contents of its `data` file, if it has one.
pub struct ScannedDir {
    pub key: String,
    pub data: Option<String>,
}

impl View for ScannedDir {
    type V = (Seq<char>, Option<Seq<char>>);

    open spec fn view(&self) -> Self::V {
        (self.key@, opt_view(self.data))
    }
}

/// The index that a scan gives, directories taken in order: each
/// directory whose `data` file holds a name maps that name to its key; a
/// later directory wins for a name held twice.
pub open spec fn recovered(dirs: Seq<(Seq<char>, Option<Seq<char>>)>) -> Map<Seq<char>, Seq<char>>
    decreases dirs.len(),
{
    if dirs.len() == 0 {
        Map::empty()
    } else {
        let m = recovered(dirs.drop_last());
        let d = dirs.last();
        match d.1 {
            Some(c) => match decoded_name(c) {
                Some(n) => m.insert(n, d.0),
                None => m,
            },
            None => m,
        }
    }
}

/// The names of the store, each with the storage key of its directory.
pub struct Index {
    names: Vec<String>,
    keys: Vec<String>,
    model: Ghost<Map<Seq<char>, Seq<char>>>,
}

impl View for Index {
    type V = Map<Seq<char>, Seq<char>>;

    closed spec fn view(&self) -> Self::V {
        self.model@
    }
}

impl Index {
    /// The names and keys are parallel, the names distinct, and together
    /// they are the model.
    pub closed spec fn wf(&self) -> bool {
        &&& self.names.len() == self.keys.len()
        &&& forall|i: int, j: int|
            0 <= i < j < self.names.len() ==> self.names[i]@ != self.names[j]@
        &&& forall|i: int|
            0 <= i < self.names.len() ==> #[trigger] self.model@.contains_key(self.names[i]@)
                && self.model@[self.names[i]@] == self.keys[i]@
        &&& forall|n: Seq<char>|
            #[trigger] self.model@.contains_key(n) ==> exists|i: int|
                0 <= i < self.names.len() && self.names[i]@ == n
    }

    /// An index with no names.
    pub fn new() -> (r: Index)
        ensures
            r.wf(),
            r@ == Map::<Seq<char>, Seq<char>>::empty(),
    {
        Index { names: Vec::new(), keys: Vec::new(), model: Ghost(Map::empty()) }
    }

    fn find(&self, name: &str) -> (r: Option<usize>)
        requires
            self.wf(),
        ensures
            match r {
                Some(i) => i < self.names.len() && self.names[i as int]@ == name@,
                None => !self@.contains_key(name@),
            },
    {
        let target = String::from_str(name);
        let mut i: usize = 0;
        while i < self.names.len()
            invariant
                i <= self.names.len(),
                target@ == name@,
                forall|j: int| 0 <= j < i ==> self.names[j]@ != name@,
            decreases self.names.len() - i,
        {
            if self.names[i] == target {
                return Some(i);
            }
            i = i + 1;
        }
        None
    }

    /// Number of names.
    pub fn len(&self) -> (r: usize)
        requires
            self.wf(),
        ensures
            r == self@.len(),
    {
        proof {
            self.lemma_len();
        }
        self.names.len()
    }

    proof fn lemma_len(&self)
        requires
            self.wf(),
        ensures
            self@.len() == self.names.len(),
            self@.dom() == views(self.names@).to_set(),
    {
        let s = views(self.names@);
        assert(self@.dom() =~= s.to_set()) by {
            assert forall|n: Seq<char>| self@.dom().contains(n) implies s.contains(n) by {
                let i = choose|i: int| 0 <= i < self.names.len() && self.names[i]@ == n;
                assert(s[i] == n);
            }
            assert forall|n: Seq<char>| s.contains(n) implies self@.dom().contains(n) by {
                let i = choose|i: int| 0 <= i < s.len() && s[i] == n;
                assert(self.model@.contains_key(self.names[i]@));
            }
        }
        assert(s.no_duplicates());
        s.unique_seq_to_set();
    }

    /// The storage key recorded for `name`, if the index holds it.
    pub fn get(&self, name: &str) -> (r: Option<String>)
        requires
            self.wf(),
        ensures
            opt_view(r) == (if self@.contains_key(name@) {
                Some(self@[name@])
            } else {
                None
            }),
    {
        match self.find(name) {
            Some(i) => Some(self.keys[i].clone()),
            None => None,
        }
    }

    /// Whether the index holds `name`.
    pub fn contains(&self, name: &str) -> (r: bool)
        requires
            self.wf(),
        ensures
            r == self@.contains_key(name@),
    {
        self.find(name).is_some()
    }

    /// The names, each once, in the order they first came in.
    pub fn names(&self) -> (r: Vec<String>)
        requires
            self.wf(),
        ensures
            views(r@).to_set() == self@.dom(),
            views(r@).no_duplicates(),
    {
        proof {
            self.lemma_len();
        }
        let mut out: Vec<String> = Vec::new();
        let mut i: usize = 0;
        while i < self.names.len()
            invariant
                i <= self.names.len(),
                out.len() == i,
                forall|k: int| 0 <= k < i ==> #[trigger] out[k]@ == self.names[k]@,
            decreases self.names.len() - i,
        {
            let c = self.names[i].clone();
            out.push(c);
            i = i + 1;
        }
        proof {
            assert(views(out@) =~= views(self.names@));
        }
        out
    }

    /// Records that `name` is kept under `key`, in place of any key it had.
    pub fn insert(&mut self, name: String, key: String)
        requires
            old(self).wf(),
        ensures
            final(self).wf(),
            final(self)@ == old(self)@.insert(name@, key@),
    {
        let ghost m = self@.insert(name@, key@);
        match self.find(name.as_str()) {
            Some(i) => {
                let ghost n0 = self.names@;
                let ghost k0 = self.keys@;
                let ghost m0 = self.model@;
                self.keys.set(i, key);
                self.model = Ghost(m);
                assert forall|j: int| 0 <= j < self.names.len() implies #[trigger] self.model@.contains_key(
                    self.names[j]@,
                ) && self.model@[self.names[j]@] == self.keys[j]@ by {
                    if j != i {
                        assert(n0[j]@ != n0[i as int]@);
                        assert(m0.contains_key(n0[j]@));
                    }
                }
                assert forall|n: Seq<char>| #[trigger] self.model@.contains_key(n) implies exists|
                    j: int,
                | 0 <= j < self.names.len() && self.names[j]@ == n by {
                    if n == name@ {
                        assert(self.names[i as int]@ == n);
                    }
                }
            },
            None => {
                let ghost n0 = self.names@;
                let ghost k0 = self.keys@;
                let ghost m0 = self.model@;
                assert forall|j: int| 0 <= j < n0.len() implies n0[j]@ != name@ by {
                    assert(m0.contains_key(n0[j]@));
                }
                self.names.push(name);
                self.keys.push(key);
                self.model = Ghost(m);
                assert forall|j: int| 0 <= j < self.names.len() implies #[trigger] self.model@.contains_key(
                    self.names[j]@,
                ) && self.model@[self.names[j]@] == self.keys[j]@ by {
                    if j < n0.len() {
                        assert(self.names[j] == n0[j]);
                        assert(self.keys[j] == k0[j]);
                        assert(m0.contains_key(n0[j]@));
                    }
                }
                assert forall|n: Seq<char>| #[trigger] self.model@.contains_key(n) implies exists|
                    j: int,
                | 0 <= j < self.names.len() && self.names[j]@ == n by {
                    if n == name@ {
                        assert(self.names[n0.len() as int]@ == n);
                    } else {
                        let j = choose|j: int| 0 <= j < n0.len() && n0[j]@ == n;
                        assert(self.names[j]@ == n);
                    }
                }
            },
        }
    }

    /// Adds `name`, keyed by its storage key, and returns that key: the
    /// directory that holds the record, whether or not it existed.
    pub fn add_or_get(&mut self, name: &str) -> (r: String)
        requires
            old(self).wf(),
        ensures
            final(self).wf(),
            r@ == key_of(name@),
            final(self)@ == old(self)@.insert(name@, key_of(name@)),
    {
        let key = storage_key(name);
        self.insert(String::from_str(name), key.clone());
        key
    }

    /// Takes `name` out of the index and returns the key of the directory
    /// to delete, or `None` when the index did not hold it (removing twice
    /// is no error).
    pub fn remove(&mut self, name: &str) -> (r: Option<String>)
        requires
            old(self).wf(),
        ensures
            final(self).wf(),
            final(self)@ == old(self)@.remove(name@),
            opt_view(r) == (if old(self)@.contains_key(name@) {
                Some(old(self)@[name@])
            } else {
                None
            }),
    {
        match self.find(name) {
            Some(i) => {
                let ghost n0 = self.names@;
                let ghost k0 = self.keys@;
                let ghost m = self@.remove(name@);
                let key = self.keys.remove(i);
                self.names.remove(i);
                self.model = Ghost(m);
                assert forall|j: int| 0 <= j < self.names.len() implies #[trigger] self.model@.contains_key(
                    self.names[j]@,
                ) && self.model@[self.names[j]@] == self.keys[j]@ by {
                    if j < i {
                        assert(self.names[j] == n0[j]);
                        assert(self.keys[j] == k0[j]);
                        assert(n0[j]@ != n0[i as int]@);
                    } else {
                        assert(self.names[j] == n0[j + 1]);
                        assert(self.keys[j] == k0[j + 1]);
                        assert(n0[j + 1]@ != n0[i as int]@);
                    }
                }
                assert forall|n: Seq<char>| #[trigger] self.model@.contains_key(n) implies exists|
                    j: int,
                | 0 <= j < self.names.len() && self.names[j]@ == n by {
                    let j = choose|j: int| 0 <= j < n0.len() && n0[j]@ == n;
                    if j < i {
                        assert(self.names[j]@ == n);
                    } else {
                        assert(j != i);
                        assert(self.names[j - 1]@ == n);
                    }
                }
                Some(key)
            },
            None => {
                assert(self@.remove(name@) =~= self@);
                None
            },
        }
    }

    /// Rebuilds the index from a scan of the store root. A directory with
    /// no `data` file, or one that holds no name, is skipped.
    pub fn recover(dirs: &Vec<ScannedDir>) -> (r: Index)
        ensures
            r.wf(),
            r@ == recovered(dirs@.map_values(|d: ScannedDir| d@)),
    {
        let ghost ds = dirs@.map_values(|d: ScannedDir| d@);
        let mut idx = Index::new();
        let mut i: usize = 0;
        proof {
            assert(ds.subrange(0, 0) =~= Seq::<(Seq<char>, Option<Seq<char>>)>::empty());
        }
        while i < dirs.len()
            invariant
                i <= dirs.len(),
                ds == dirs@.map_values(|d: ScannedDir| d@),
                idx.wf(),
                idx@ == recovered(ds.subrange(0, i as int)),
            decreases dirs.len() - i,
        {
            proof {
                assert(ds.subrange(0, i + 1).drop_last() =~= ds.subrange(0, i as int));
                assert(ds.subrange(0, i + 1).last() == dirs[i as int]@);
            }
            match &dirs[i].data {
                Some(c) => {
                    let (name, _note) = decode_data(c.as_str());
                    match name {
                        Some(n) => {
                            idx.insert(n, dirs[i].key.clone());
                        },
                        None => {},
                    }
                },
                None => {},
            }
            i = i + 1;
        }
        proof {
            assert(ds.subrange(0, dirs.len() as int) =~= ds);
        }
        idx
    }
}

/// Whether a `data` file, if there is one, holds a name.
pub open spec fn holds_name(data: Option<Seq<char>>) -> bool {
    match data {
        Some(c) => decoded_name(c) is Some,
        None => false,
    }
}

/// What to write into a record's `data` file when `name` is added: its
/// name and an empty note, unless the file already holds a name.
pub fn initial_data(existing: &Option<String>, name: &str) -> (r: Option<String>)
    ensures
        opt_view(r) == (if holds_name(opt_view(*existing)) {
            None
        } else {
            Some(data_text(name@, Seq::empty()))
        }),
{
    let seed = match existing {
        Some(c) => {
            let (n, _note) = decode_data(c.as_str());
            n.is_none()
        },
        None => true,
    };
    proof {
        reveal_strlit("");
    }
    if seed {
        Some(encode_data(name, ""))
    } else {
        None
    }
}

/// Removing a name twice is removing it once: after the first removal the
/// index no longer holds the name, so the second finds nothing to remove
/// and leaves the index as it was.
pub proof fn lemma_remove_twice(m: Map<Seq<char>, Seq<char>>, name: Seq<char>)
    ensures
        !m.remove(name).contains_key(name),
        m.remove(name).remove(name) == m.remove(name),
{
    assert(m.remove(name).remove(name) =~= m.remove(name));
}

/// A scan of directories whose `data` files were written for the given
/// names (each on one line, not ending in a carriage return) recovers
/// exactly those names.
pub proof fn lemma_recovery_complete(
    dirs: Seq<(Seq<char>, Option<Seq<char>>)>,
    names: Seq<Seq<char>>,
    notes: Seq<Seq<char>>,
)
    requires
        dirs.len() == names.len(),
        notes.len() == names.len(),
        forall|i: int|
            0 <= i < names.len() ==> single_line(#[trigger] names[i]) && !ends_with_cr(names[i])
                && dirs[i].1 == Some(data_text(names[i], notes[i])),
    ensures
        recovered(dirs).dom() == names.to_set(),
    decreases dirs.len(),
{
    if dirs.len() == 0 {
        assert(recovered(dirs).dom() =~= names.to_set());
    } else {
        let last = names.len() - 1;
        lemma_recovery_complete(dirs.drop_last(), names.drop_last(), notes.drop_last());
        assert(single_line(names[last]));
        lemma_data_round_trip(names[last], notes[last]);
        assert forall|x: Seq<char>| #[trigger] names.contains(x) <==> names.drop_last().contains(x)
            || x == names.last() by {
            if names.contains(x) {
                let i = choose|i: int| 0 <= i < names.len() && names[i] == x;
                if i < last {
                    assert(names.drop_last()[i] == x);
                }
            }
            if names.drop_last().contains(x) {
                let i = choose|i: int| 0 <= i < names.drop_last().len() && names.drop_last()[i] == x;
                assert(names[i] == x);
            }
            if x == names.last() {
                assert(names[last] == x);
            }
        }
        assert(recovered(dirs).dom() =~= names.to_set());
    }
}

} // verus!
