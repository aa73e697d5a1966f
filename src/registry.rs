//! The registry store: key-to-name bindings with an index of the names in use.
use vstd::prelude::*;

use crate::error::Error;
use crate::key::PublicKey;
use crate::model::{after_put, lists_exactly, names_unique, put_result, Bindings};

verus! {

/// Owns the bindings and the index of names in use. Every request is applied
/// whole before the next one is looked at.
pub struct AccountsHandler {
    pubkey_to_name: Vec<(PublicKey, String)>,
    names: Vec<String>,
    bindings: Ghost<Bindings>,
}

impl View for AccountsHandler {
    type V = Bindings;

    closed spec fn view(&self) -> Bindings {
        self.bindings@
    }
}

impl AccountsHandler {
    /// The names held in the index.
    pub closed spec fn names_in_use(&self) -> Set<Seq<char>> {
        Set::new(|n: Seq<char>| exists|j: int| 0 <= j < self.names@.len() && self.names@[j]@ == n)
    }

    closed spec fn index_name(&self, j: int) -> Seq<char> {
        self.names@[j]@
    }

    /// The stored pairs list the bindings; the index holds each bound name once
    /// and nothing else; no name is bound to two keys.
    pub closed spec fn wf(&self) -> bool {
        let m = self.bindings@;
        &&& lists_exactly(self.pubkey_to_name@, m)
        &&& forall|j: int| 0 <= j < self.names@.len() ==> m.contains_value(#[trigger] self.index_name(j))
        &&& forall|k: Seq<u8>|
            #[trigger] m.contains_key(k) ==> exists|j: int|
                0 <= j < self.names@.len() && #[trigger] self.index_name(j) == m[k]
        &&& forall|i: int, j: int|
            0 <= i < j < self.names@.len() ==> self.index_name(i) != self.index_name(j)
        &&& names_unique(m)
    }

    /// An empty registry.
    pub fn new() -> (h: AccountsHandler)
        ensures
            h.wf(),
            h@ == Map::<Seq<u8>, Seq<char>>::empty(),
            h.names_in_use() == Set::<Seq<char>>::empty(),
    {
        let h = AccountsHandler { pubkey_to_name: Vec::new(), names: Vec::new(), bindings: Ghost(Map::empty()) };
        assert(h.names_in_use() =~= Set::<Seq<char>>::empty());
        h
    }

    /// Position of the pair stored for `key`, if any.
    fn find_key(&self, key: &PublicKey) -> (r: Option<usize>)
        requires
            self.wf(),
        ensures
            match r {
                Some(i) => i < self.pubkey_to_name@.len() && self.pubkey_to_name@[i as int].0@ == key@,
                None => !self@.contains_key(key@),
            },
    {
        let mut i: usize = 0;
        while i < self.pubkey_to_name.len()
            invariant
                i <= self.pubkey_to_name@.len(),
                forall|j: int| 0 <= j < i ==> self.pubkey_to_name@[j].0@ != key@,
            decreases self.pubkey_to_name@.len() - i,
        {
            if self.pubkey_to_name[i].0.same_as(key) {
                return Some(i);
            }
            i = i + 1;
        }
        None
    }

    /// Whether some key holds `name`, looked up in the index.
    fn name_taken(&self, name: &String) -> (r: bool)
        requires
            self.wf(),
        ensures
            r == self@.values().contains(name@),
    {
        let mut j: usize = 0;
        while j < self.names.len()
            invariant
                self.wf(),
                j <= self.names@.len(),
                forall|i: int| 0 <= i < j ==> self.index_name(i) != name@,
            decreases self.names@.len() - j,
        {
            if self.names[j] == *name {
                assert(self@.contains_value(self.index_name(j as int)));
                return true;
            }
            j = j + 1;
        }
        proof {
            if self@.values().contains(name@) {
                let k = choose|k: Seq<u8>| self@.contains_key(k) && self@[k] == name@;
                assert(self@.contains_key(k));
            }
        }
        false
    }

    /// Position of a name that the index holds.
    fn position_of_name(&self, name: &String) -> (j: usize)
        requires
            self.wf(),
            self@.values().contains(name@),
        ensures
            j < self.names@.len(),
            self.index_name(j as int) == name@,
    {
        proof {
            let k = choose|k: Seq<u8>| self@.contains_key(k) && self@[k] == name@;
            assert(self@.contains_key(k));
        }
        let len = self.names.len();
        let mut j: usize = 0;
        while !(self.names[j] == *name)
            invariant
                len == self.names@.len(),
                j < len,
                exists|l: int| j <= l < self.names@.len() && self.index_name(l) == name@,
            decreases self.names@.len() - j,
        {
            proof {
                let l = choose|l: int| j <= l < self.names@.len() && self.index_name(l) == name@;
                assert(l != j);
            }
            j = j + 1;
        }
        j
    }

    /// Binds `name` to `pubkey` unless another key holds that name: a first
    /// registration, a restatement of the current binding, or a rename. A
    /// rejected request changes nothing.
    pub fn put(&mut self, pubkey: PublicKey, name: String) -> (r: Result<(), Error>)
        requires
            old(self).wf(),
        ensures
            final(self).wf(),
            r == put_result(old(self)@, pubkey@, name@),
            final(self)@ == after_put(old(self)@, pubkey@, name@),
            final(self).names_in_use() == final(self)@.values(),
            names_unique(final(self)@),
    {
        let ghost m = self@;
        match self.find_key(&pubkey) {
            None => {
                if self.name_taken(&name) {
                    proof {
                        self.lemma_index_is_values();
                    }
                    return Err(Error::AlreadyExisting);
                }
                let ghost pre = *self;
                self.pubkey_to_name.push((pubkey, name.clone()));
                self.names.push(name);
                self.bindings = Ghost(m.insert(pubkey@, name@));
                proof {
                    self.lemma_wf_after_insert(pre, pubkey@, name@);
                }
            },
            Some(i) => {
                proof {
                    assert(m.contains_key(self.pubkey_to_name@[i as int].0@));
                }
                if self.pubkey_to_name[i].1 == name {
                    proof {
                        assert(m.insert(pubkey@, name@) =~= m);
                        self.lemma_index_is_values();
                    }
                    return Ok(());
                }
                if self.name_taken(&name) {
                    proof {
                        self.lemma_index_is_values();
                    }
                    return Err(Error::AlreadyExisting);
                }
                let j = self.position_of_name(&self.pubkey_to_name[i].1);
                let ghost pre = *self;
                self.names[j] = name.clone();
                self.pubkey_to_name[i] = (pubkey, name);
                self.bindings = Ghost(m.insert(pubkey@, name@));
                proof {
                    self.lemma_wf_after_rename(pre, i as int, j as int, pubkey@, name@);
                }
            },
        }
        proof {
            self.lemma_index_is_values();
        }
        Ok(())
    }

    /// The index holds exactly the bound names.
    proof fn lemma_index_is_values(&self)
        requires
            self.wf(),
        ensures
            self.names_in_use() == self@.values(),
            names_unique(self@),
    {
        assert forall|n: Seq<char>| #[trigger] self@.values().contains(n) implies self.names_in_use().contains(n) by {
            let k = choose|k: Seq<u8>| self@.contains_key(k) && self@[k] == n;
            assert(self@.contains_key(k));
        }
        assert forall|n: Seq<char>| #[trigger] self.names_in_use().contains(n) implies self@.values().contains(n) by {
            let j = choose|j: int| 0 <= j < self.names@.len() && self.names@[j]@ == n;
            assert(self@.contains_value(self.index_name(j)));
        }
        assert(self.names_in_use() =~= self@.values());
    }

    /// A new key bound to a free name, pushed at the end of both vectors.
    proof fn lemma_wf_after_insert(&self, pre: AccountsHandler, k: Seq<u8>, n: Seq<char>)
        requires
            pre.wf(),
            !pre@.contains_key(k),
            !pre@.values().contains(n),
            self.pubkey_to_name@ == pre.pubkey_to_name@.push(self.pubkey_to_name@.last()),
            self.pubkey_to_name@.last().0@ == k,
            self.pubkey_to_name@.last().1@ == n,
            self.names@ == pre.names@.push(self.names@.last()),
            self.names@.last()@ == n,
            self@ == pre@.insert(k, n),
        ensures
            self.wf(),
    {
        let m = pre@;
        let m2 = self@;
        let e = self.pubkey_to_name@;
        let last = e.len() - 1;
        assert forall|i: int| 0 <= i < e.len() implies #[trigger] m2.contains_key(e[i].0@) && m2[e[i].0@] == e[i].1@ by {
            if i < last {
                assert(pre.pubkey_to_name@[i] == e[i]);
                assert(m.contains_key(e[i].0@));
            }
        }
        assert forall|i: int, j: int| 0 <= i < j < e.len() implies e[i].0@ != e[j].0@ by {
            assert(pre.pubkey_to_name@[i] == e[i]);
            if j < last {
                assert(pre.pubkey_to_name@[j] == e[j]);
            } else {
                assert(m.contains_key(pre.pubkey_to_name@[i].0@));
            }
        }
        assert forall|k2: Seq<u8>| #[trigger] m2.contains_key(k2) implies exists|i: int| 0 <= i < e.len() && e[i].0@ == k2 by {
            if k2 == k {
                assert(e[last].0@ == k2);
            } else {
                assert(m.contains_key(k2));
                let i = choose|i: int| 0 <= i < pre.pubkey_to_name@.len() && pre.pubkey_to_name@[i].0@ == k2;
                assert(e[i] == pre.pubkey_to_name@[i]);
            }
        }
        let ns = self.names@;
        let nlast = ns.len() - 1;
        assert forall|j: int| 0 <= j < ns.len() implies m2.contains_value(#[trigger] self.index_name(j)) by {
            if j < nlast {
                assert(pre.index_name(j) == self.index_name(j));
                assert(m.contains_value(pre.index_name(j)));
                let k3 = choose|k3: Seq<u8>| m.dom().contains(k3) && m[k3] == pre.index_name(j);
                assert(m2.dom().contains(k3));
            } else {
                assert(m2.dom().contains(k));
            }
        }
        assert forall|k2: Seq<u8>| #[trigger] m2.contains_key(k2) implies exists|j: int|
            0 <= j < ns.len() && #[trigger] self.index_name(j) == m2[k2] by {
            if k2 == k {
                assert(self.index_name(nlast) == m2[k2]);
            } else {
                assert(m.contains_key(k2));
                let j = choose|j: int| 0 <= j < pre.names@.len() && #[trigger] pre.index_name(j) == m[k2];
                assert(self.index_name(j) == pre.index_name(j));
            }
        }
        assert forall|i: int, j: int| 0 <= i < j < ns.len() implies self.index_name(i) != self.index_name(j) by {
            assert(self.index_name(i) == pre.index_name(i));
            if j < nlast {
                assert(self.index_name(j) == pre.index_name(j));
            } else {
                assert(m.contains_value(pre.index_name(i)));
            }
        }
        assert forall|k1: Seq<u8>, k2: Seq<u8>|
            m2.contains_key(k1) && m2.contains_key(k2) && #[trigger] m2[k1] == #[trigger] m2[k2] implies k1 == k2 by {
            if k1 != k && k2 != k {
                assert(m[k1] == m[k2]);
            } else if k1 == k && k2 != k {
                assert(m.contains_key(k2));
            } else if k1 != k && k2 == k {
                assert(m.contains_key(k1));
            }
        }
    }

    /// A bound key moved to a free name, in place in both vectors.
    proof fn lemma_wf_after_rename(&self, pre: AccountsHandler, i: int, j: int, k: Seq<u8>, n: Seq<char>)
        requires
            pre.wf(),
            0 <= i < pre.pubkey_to_name@.len(),
            0 <= j < pre.names@.len(),
            pre.pubkey_to_name@[i].0@ == k,
            pre@.contains_key(k),
            pre.index_name(j) == pre@[k],
            !pre@.values().contains(n),
            self.pubkey_to_name@ == pre.pubkey_to_name@.update(i, self.pubkey_to_name@[i]),
            self.pubkey_to_name@[i].0@ == k,
            self.pubkey_to_name@[i].1@ == n,
            self.names@ == pre.names@.update(j, self.names@[j]),
            self.index_name(j) == n,
            self@ == pre@.insert(k, n),
        ensures
            self.wf(),
    {
        let m = pre@;
        let m2 = self@;
        let e = self.pubkey_to_name@;
        let pe = pre.pubkey_to_name@;
        assert(m2.dom() =~= m.dom());
        assert forall|l: int| 0 <= l < e.len() implies #[trigger] m2.contains_key(e[l].0@) && m2[e[l].0@] == e[l].1@ by {
            if l != i {
                assert(pe[l] == e[l]);
                assert(m.contains_key(pe[l].0@));
            }
        }
        assert forall|a: int, b: int| 0 <= a < b < e.len() implies e[a].0@ != e[b].0@ by {
            assert(pe[a].0@ != pe[b].0@);
            if a != i {
                assert(pe[a] == e[a]);
            }
            if b != i {
                assert(pe[b] == e[b]);
            }
        }
        assert forall|k2: Seq<u8>| #[trigger] m2.contains_key(k2) implies exists|l: int| 0 <= l < e.len() && e[l].0@ == k2 by {
            assert(m.contains_key(k2));
            let l = choose|l: int| 0 <= l < pe.len() && pe[l].0@ == k2;
            if l != i {
                assert(e[l] == pe[l]);
            }
        }
        let ns = self.names@;
        assert forall|a: int| 0 <= a < ns.len() implies m2.contains_value(#[trigger] self.index_name(a)) by {
            if a != j {
                assert(self.index_name(a) == pre.index_name(a));
                assert(pre.index_name(a) != pre.index_name(j));
                assert(m.contains_value(pre.index_name(a)));
                let k3 = choose|k3: Seq<u8>| m.dom().contains(k3) && m[k3] == pre.index_name(a);
                assert(k3 != k);
                assert(m2.dom().contains(k3));
            } else {
                assert(m2.dom().contains(k));
            }
        }
        assert forall|k2: Seq<u8>| #[trigger] m2.contains_key(k2) implies exists|a: int|
            0 <= a < ns.len() && #[trigger] self.index_name(a) == m2[k2] by {
            if k2 == k {
                assert(self.index_name(j) == m2[k2]);
            } else {
                assert(m.contains_key(k2));
                let a = choose|a: int| 0 <= a < pre.names@.len() && #[trigger] pre.index_name(a) == m[k2];
                if a == j {
                    assert(m[k2] == m[k]);
                }
                assert(self.index_name(a) == pre.index_name(a));
            }
        }
        assert forall|a: int, b: int| 0 <= a < b < ns.len() implies self.index_name(a) != self.index_name(b) by {
            if a != j && b != j {
                assert(self.index_name(a) == pre.index_name(a));
                assert(self.index_name(b) == pre.index_name(b));
            } else if a == j {
                assert(self.index_name(b) == pre.index_name(b));
                assert(m.contains_value(pre.index_name(b)));
            } else {
                assert(self.index_name(a) == pre.index_name(a));
                assert(m.contains_value(pre.index_name(a)));
            }
        }
        assert forall|k1: Seq<u8>, k2: Seq<u8>|
            m2.contains_key(k1) && m2.contains_key(k2) && #[trigger] m2[k1] == #[trigger] m2[k2] implies k1 == k2 by {
            if k1 != k && k2 != k {
                assert(m[k1] == m[k2]);
            } else if k1 == k && k2 != k {
                assert(m.contains_key(k2));
            } else if k1 != k && k2 == k {
                assert(m.contains_key(k1));
            }
        }
    }

    /// A copy of every binding, one pair per key.
    pub fn get_all(&self) -> (r: Vec<(PublicKey, String)>)
        requires
            self.wf(),
        ensures
            lists_exactly(r@, self@),
    {
        let mut r: Vec<(PublicKey, String)> = Vec::new();
        let mut i: usize = 0;
        while i < self.pubkey_to_name.len()
            invariant
                i <= self.pubkey_to_name@.len(),
                r@.len() == i,
                forall|l: int| 0 <= l < i ==> r@[l].0@ == self.pubkey_to_name@[l].0@ && r@[l].1@ == self.pubkey_to_name@[l].1@,
            decreases self.pubkey_to_name@.len() - i,
        {
            let key = self.pubkey_to_name[i].0;
            let name = self.pubkey_to_name[i].1.clone();
            r.push((key, name));
            i = i + 1;
        }
        assert forall|k: Seq<u8>| #[trigger] self@.contains_key(k) implies exists|i: int| 0 <= i < r@.len() && r@[i].0@ == k by {
            let i = choose|i: int| 0 <= i < self.pubkey_to_name@.len() && self.pubkey_to_name@[i].0@ == k;
            assert(r@[i].0@ == k);
        }
        r
    }
}

} // verus!
