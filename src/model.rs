//! The registry as a mathematical map from key bytes to name characters, and
//! what a `put` request does to it.
use vstd::prelude::*;

use crate::error::Error;
use crate::key::PublicKey;

verus! {

/// The registry's contents: each registered key's bytes mapped to its name.
pub type Bindings = Map<Seq<u8>, Seq<char>>;

/// No two distinct keys are bound to the same name.
pub open spec fn names_unique(m: Bindings) -> bool {
    forall|k1: Seq<u8>, k2: Seq<u8>|
        #![trigger m[k1], m[k2]]
        m.contains_key(k1) && m.contains_key(k2) && m[k1] == m[k2] ==> k1 == k2
}

/// A `put` of `name` for `key` is accepted when it restates the key's current
/// binding, or when no key holds `name` yet (a first registration or a rename).
pub open spec fn put_accepted(m: Bindings, key: Seq<u8>, name: Seq<char>) -> bool {
    (m.contains_key(key) && m[key] == name) || !m.values().contains(name)
}

/// What a `put` answers.
pub open spec fn put_result(m: Bindings, key: Seq<u8>, name: Seq<char>) -> Result<(), Error> {
    if put_accepted(m, key, name) {
        Ok(())
    } else {
        Err(Error::AlreadyExisting)
    }
}

/// The registry after a `put`: the key is bound to the name when accepted, and
/// nothing changes when rejected.
pub open spec fn after_put(m: Bindings, key: Seq<u8>, name: Seq<char>) -> Bindings {
    if put_accepted(m, key, name) {
        m.insert(key, name)
    } else {
        m
    }
}

/// The registry after a series of `put` requests, applied in order.
pub open spec fn run_puts(m: Bindings, reqs: Seq<(Seq<u8>, Seq<char>)>) -> Bindings
    decreases reqs.len(),
{
    if reqs.len() == 0 {
        m
    } else {
        run_puts(after_put(m, reqs[0].0, reqs[0].1), reqs.drop_first())
    }
}

/// The answers to a series of `put` requests, applied in order.
pub open spec fn put_answers(m: Bindings, reqs: Seq<(Seq<u8>, Seq<char>)>) -> Seq<Result<(), Error>>
    decreases reqs.len(),
{
    if reqs.len() == 0 {
        Seq::empty()
    } else {
        seq![put_result(m, reqs[0].0, reqs[0].1)] + put_answers(
            after_put(m, reqs[0].0, reqs[0].1),
            reqs.drop_first(),
        )
    }
}

/// `s` lists the bindings of `m`: every pair is a binding, no key is listed
/// twice, and every binding is listed.
pub open spec fn lists_exactly(s: Seq<(PublicKey, String)>, m: Bindings) -> bool {
    &&& forall|i: int|
        0 <= i < s.len() ==> #[trigger] m.contains_key(s[i].0@) && m[s[i].0@] == s[i].1@
    &&& forall|i: int, j: int| 0 <= i < j < s.len() ==> s[i].0@ != s[j].0@
    &&& forall|k: Seq<u8>|
        #[trigger] m.contains_key(k) ==> exists|i: int| 0 <= i < s.len() && s[i].0@ == k
}

} // verus!
