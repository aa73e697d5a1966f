//! Properties of the registry that relate several requests, proved over the
//! model that `AccountsHandler::put` is specified against.
use vstd::prelude::*;

use crate::error::Error;
use crate::model::{
    after_put, names_unique, put_accepted, put_answers, put_result, run_puts, Bindings,
};

verus! {

/// One `put` of `name` for each key, in the order of `keys`.
pub open spec fn same_name_requests(keys: Seq<Seq<u8>>, name: Seq<char>) -> Seq<(Seq<u8>, Seq<char>)> {
    keys.map_values(|k: Seq<u8>| (k, name))
}

/// A key not yet registered, asking for a name nobody holds, is accepted and
/// bound to that name; on an empty registry it becomes the only binding.
pub proof fn lemma_first_registration(m: Bindings, key: Seq<u8>, name: Seq<char>)
    requires
        !m.contains_key(key),
        !m.values().contains(name),
    ensures
        put_result(m, key, name) == Ok::<(), Error>(()),
        after_put(m, key, name) == m.insert(key, name),
        m == Map::<Seq<u8>, Seq<char>>::empty() ==> after_put(m, key, name) == map![key => name],
{
    assert(Map::<Seq<u8>, Seq<char>>::empty().insert(key, name) =~= map![key => name]);
}

/// Repeating an accepted `put` is accepted again and changes nothing.
pub proof fn lemma_repeated_put(m: Bindings, key: Seq<u8>, name: Seq<char>)
    requires
        put_accepted(m, key, name),
    ensures
        put_result(after_put(m, key, name), key, name) == Ok::<(), Error>(()),
        after_put(after_put(m, key, name), key, name) == after_put(m, key, name),
        after_put(m, key, name) == m.insert(key, name),
        m == Map::<Seq<u8>, Seq<char>>::empty() ==> after_put(after_put(m, key, name), key, name)
            == map![key => name],
{
    let m1 = m.insert(key, name);
    assert(m1.insert(key, name) =~= m1);
    assert(Map::<Seq<u8>, Seq<char>>::empty().insert(key, name) =~= map![key => name]);
}

/// Renaming a key to a free name is accepted, and its former name becomes
/// free for any other key.
pub proof fn lemma_rename_frees_old_name(
    m: Bindings,
    key: Seq<u8>,
    other: Seq<u8>,
    first: Seq<char>,
    second: Seq<char>,
)
    requires
        !m.values().contains(first),
        !m.values().contains(second),
        first != second,
        other != key,
    ensures
        put_result(m, key, first) == Ok::<(), Error>(()),
        put_result(after_put(m, key, first), key, second) == Ok::<(), Error>(()),
        after_put(after_put(m, key, first), key, second) == m.insert(key, second),
        put_accepted(after_put(after_put(m, key, first), key, second), other, first),
{
    let m1 = m.insert(key, first);
    assert(!m1.values().contains(second)) by {
        if m1.values().contains(second) {
            let k = choose|k: Seq<u8>| m1.dom().contains(k) && m1[k] == second;
            assert(m.dom().contains(k));
        }
    }
    let m2 = m1.insert(key, second);
    assert(m2 =~= m.insert(key, second));
    assert(!m2.values().contains(first)) by {
        if m2.values().contains(first) {
            let k = choose|k: Seq<u8>| m2.dom().contains(k) && m2[k] == first;
            assert(m.dom().contains(k));
        }
    }
}

/// Once a key holds a name, a `put` of that name for another key is rejected
/// and changes nothing.
pub proof fn lemma_taken_name_rejected(m: Bindings, k1: Seq<u8>, k2: Seq<u8>, name: Seq<char>)
    requires
        names_unique(m),
        k1 != k2,
        put_accepted(m, k1, name),
    ensures
        after_put(m, k1, name) == m.insert(k1, name),
        put_result(after_put(m, k1, name), k2, name) == Err::<(), Error>(Error::AlreadyExisting),
        after_put(after_put(m, k1, name), k2, name) == after_put(m, k1, name),
        m == Map::<Seq<u8>, Seq<char>>::empty() ==> after_put(after_put(m, k1, name), k2, name)
            == map![k1 => name],
{
    let m1 = m.insert(k1, name);
    assert(m1.contains_key(k1));
    assert(m1.values().contains(name));
    if m1.contains_key(k2) && m1[k2] == name {
        assert(m.contains_key(k2) && m[k2] == name);
        assert(m.values().contains(name));
    }
    assert(Map::<Seq<u8>, Seq<char>>::empty().insert(k1, name) =~= map![k1 => name]);
}

/// A key that renames itself onto a name another key holds is rejected and
/// keeps its current name.
pub proof fn lemma_rename_onto_taken_rejected(
    m: Bindings,
    k1: Seq<u8>,
    k2: Seq<u8>,
    n1: Seq<char>,
    n2: Seq<char>,
)
    requires
        k1 != k2,
        n1 != n2,
        put_accepted(m, k1, n1),
        put_accepted(after_put(m, k1, n1), k2, n2),
    ensures
        ({
            let m2 = after_put(after_put(m, k1, n1), k2, n2);
            &&& put_result(m2, k2, n1) == Err::<(), Error>(Error::AlreadyExisting)
            &&& after_put(m2, k2, n1) == m2
            &&& m2[k2] == n2
        }),
{
    let m2 = m.insert(k1, n1).insert(k2, n2);
    assert(m2.contains_key(k1) && m2[k1] == n1);
    assert(m2.values().contains(n1));
}

/// Name uniqueness survives any series of `put` requests.
pub proof fn lemma_runs_keep_names_unique(m: Bindings, reqs: Seq<(Seq<u8>, Seq<char>)>)
    requires
        names_unique(m),
    ensures
        names_unique(run_puts(m, reqs)),
    decreases reqs.len(),
{
    if reqs.len() > 0 {
        lemma_put_keeps_names_unique(m, reqs[0].0, reqs[0].1);
        lemma_runs_keep_names_unique(after_put(m, reqs[0].0, reqs[0].1), reqs.drop_first());
    }
}

/// Name uniqueness survives one `put`.
pub proof fn lemma_put_keeps_names_unique(m: Bindings, key: Seq<u8>, name: Seq<char>)
    requires
        names_unique(m),
    ensures
        names_unique(after_put(m, key, name)),
{
    if put_accepted(m, key, name) {
        let m2 = m.insert(key, name);
        assert forall|k1: Seq<u8>, k2: Seq<u8>|
            m2.contains_key(k1) && m2.contains_key(k2) && #[trigger] m2[k1] == #[trigger] m2[k2] implies k1 == k2 by {
            if k1 != key && k2 != key {
                assert(m[k1] == m[k2]);
            } else if k1 == key && k2 != key {
                assert(m.contains_key(k2));
            } else if k1 != key && k2 == key {
                assert(m.contains_key(k1));
            }
        }
    }
}

/// Of `answers`, the one at `w` is an acceptance and all others are
/// rejections as already existing.
pub open spec fn accepted_only_at(answers: Seq<Result<(), Error>>, w: int) -> bool {
    forall|i: int|
        0 <= i < answers.len() ==> #[trigger] answers[i] == if i == w {
            Ok::<(), Error>(())
        } else {
            Err::<(), Error>(Error::AlreadyExisting)
        }
}

/// While a key holds `name` in a registry with unique names, a series of
/// `put` requests for `name` leaves the registry as it is and is accepted
/// exactly for the requests from that key.
proof fn lemma_holder_keeps_name(m: Bindings, holder: Seq<u8>, keys: Seq<Seq<u8>>, name: Seq<char>)
    requires
        names_unique(m),
        m.contains_key(holder),
        m[holder] == name,
    ensures
        run_puts(m, same_name_requests(keys, name)) == m,
        put_answers(m, same_name_requests(keys, name)).len() == keys.len(),
        forall|i: int|
            0 <= i < keys.len() ==> #[trigger] put_answers(m, same_name_requests(keys, name))[i] == (
            if keys[i] == holder {
                Ok::<(), Error>(())
            } else {
                Err::<(), Error>(Error::AlreadyExisting)
            }),
    decreases keys.len(),
{
    let reqs = same_name_requests(keys, name);
    if keys.len() > 0 {
        let k = keys[0];
        assert(reqs[0] == (k, name));
        assert(reqs.drop_first() =~= same_name_requests(keys.drop_first(), name));
        assert(m.values().contains(name));
        if k == holder {
            assert(m.insert(k, name) =~= m);
        } else if m.contains_key(k) && m[k] == name {
            assert(false);
        }
        assert(after_put(m, k, name) == m);
        lemma_holder_keeps_name(m, holder, keys.drop_first(), name);
        let rest = put_answers(m, same_name_requests(keys.drop_first(), name));
        assert forall|i: int| 0 <= i < keys.len() implies #[trigger] put_answers(m, reqs)[i] == (
            if keys[i] == holder {
                Ok::<(), Error>(())
            } else {
                Err::<(), Error>(Error::AlreadyExisting)
            }) by {
            if i > 0 {
                assert(put_answers(m, reqs)[i] == rest[i - 1]);
                assert(keys.drop_first()[i - 1] == keys[i]);
            }
        }
    }
}

/// Of `put` requests for one name from distinct keys, applied in any order,
/// exactly one is accepted, provided the name is free or held by one of those
/// keys; all others are rejected as already existing.
pub proof fn lemma_contested_name_has_one_winner(m: Bindings, keys: Seq<Seq<u8>>, name: Seq<char>)
    requires
        names_unique(m),
        keys.len() > 0,
        forall|i: int, j: int| 0 <= i < j < keys.len() ==> keys[i] != keys[j],
        !m.values().contains(name) || exists|i: int|
            0 <= i < keys.len() && m.contains_key(keys[i]) && m[keys[i]] == name,
    ensures
        put_answers(m, same_name_requests(keys, name)).len() == keys.len(),
        exists|w: int|
            0 <= w < keys.len() && #[trigger] accepted_only_at(
                put_answers(m, same_name_requests(keys, name)),
                w,
            ),
{
    let reqs = same_name_requests(keys, name);
    let answers = put_answers(m, reqs);
    if !m.values().contains(name) {
        let k = keys[0];
        assert(reqs[0] == (k, name));
        let m1 = m.insert(k, name);
        assert(after_put(m, k, name) == m1);
        lemma_put_keeps_names_unique(m, k, name);
        assert(reqs.drop_first() =~= same_name_requests(keys.drop_first(), name));
        lemma_holder_keeps_name(m1, k, keys.drop_first(), name);
        let rest = put_answers(m1, same_name_requests(keys.drop_first(), name));
        assert forall|i: int| 0 <= i < keys.len() implies (#[trigger] answers[i] == if i == 0 {
            Ok::<(), Error>(())
        } else {
            Err::<(), Error>(Error::AlreadyExisting)
        }) by {
            if i > 0 {
                assert(answers[i] == rest[i - 1]);
                assert(keys.drop_first()[i - 1] == keys[i]);
                assert(keys[0] != keys[i]);
            }
        }
        assert(accepted_only_at(answers, 0));
    } else {
        let w = choose|w: int| 0 <= w < keys.len() && m.contains_key(keys[w]) && m[keys[w]] == name;
        lemma_holder_keeps_name(m, keys[w], keys, name);
        assert forall|i: int| 0 <= i < keys.len() implies (#[trigger] answers[i] == if i == w {
            Ok::<(), Error>(())
        } else {
            Err::<(), Error>(Error::AlreadyExisting)
        }) by {
            if i != w {
                if i < w {
                    assert(keys[i] != keys[w]);
                } else {
                    assert(keys[w] != keys[i]);
                }
            }
        }
        assert(accepted_only_at(answers, w));
    }
}

} // verus!
