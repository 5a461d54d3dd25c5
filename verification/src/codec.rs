//! Persistence: the store rendered as JSON text and rebuilt from it. The JSON
//! encoding and decoding themselves go through serde_json behind trusted
//! wrappers; the shape checks and the rebuild, counter rule included, are
//! verified, and the round trip is stated as a law.

use std::collections::BTreeMap;
use vstd::prelude::*;

use crate::store::user_views;
use crate::store::users_map;
use crate::store::StoreError;
use crate::store::User;
use crate::store::UserManager;
use crate::store::UserView;

verus! {

/// A record as it crosses the JSON boundary: the mapping key, then the
/// record's own identifier field, its name, its email and its age.
pub open spec fn rec_of(u: UserView) -> (u32, u32, Seq<char>, Seq<char>, u8) {
    (u.id, u.id, u.name, u.email, u.age)
}

/// The records of a store, in entry order, as they cross the JSON boundary.
pub open spec fn store_recs(es: Seq<UserView>) -> Seq<(u32, u32, Seq<char>, Seq<char>, u8)> {
    es.map(|i: int, u: UserView| rec_of(u))
}

/// Abstract values of decoded records.
pub open spec fn recs_view(v: Seq<(u32, u32, String, String, u8)>) -> Seq<
    (u32, u32, Seq<char>, Seq<char>, u8),
> {
    v.map(|i: int, t: (u32, u32, String, String, u8)| (t.0, t.1, t.2@, t.3@, t.4))
}

/// The JSON text serde_json renders for the given records.
pub uninterp spec fn json_of(recs: Seq<(u32, u32, Seq<char>, Seq<char>, u8)>) -> Seq<char>;

/// What serde_json parses a given text into: the records of the mapping in
/// increasing key order, or nothing when the text is not a JSON mapping of
/// the expected shape.
pub uninterp spec fn records_of(s: Seq<char>) -> Option<Seq<(u32, u32, Seq<char>, Seq<char>, u8)>>;

/// Relies on serde_json::to_string_pretty over a BTreeMap keyed by the
/// identifier: for records in strictly increasing identifier order the text
/// is a function of the records alone, and serde_json::from_str parses it
/// back to exactly those records.
#[verifier::external_body]
fn records_to_json(users: &Vec<User>) -> (r: String)
    requires
        forall|i: int, j: int|
            0 <= i < j < users@.len() ==> (#[trigger] users@[i]).id < (#[trigger] users@[j]).id,
    ensures
        r@ == json_of(store_recs(user_views(users@))),
        records_of(r@) == Some(store_recs(user_views(users@))),
{
    let mut m: BTreeMap<u32, BTreeMap<&str, serde_json::Value>> = BTreeMap::new();
    for u in users.iter() {
        let mut o = BTreeMap::new();
        o.insert("id", serde_json::Value::from(u.id));
        o.insert("name", serde_json::Value::from(u.name.clone()));
        o.insert("email", serde_json::Value::from(u.email.clone()));
        o.insert("age", serde_json::Value::from(u.age));
        m.insert(u.id, o);
    }
    serde_json::to_string_pretty(&m).expect("a map with integer keys serializes")
}

/// Relies on serde_json::from_str into a BTreeMap keyed by the integer
/// identifier: the outcome is a function of the text alone, and on success
/// the entries come out with strictly increasing keys.
#[verifier::external_body]
fn json_to_records(s: &str) -> (r: Option<Vec<(u32, u32, String, String, u8)>>)
    ensures
        match r {
            Some(v) => records_of(s@) == Some(recs_view(v@)),
            None => records_of(s@) is None,
        },
        r matches Some(v) ==> forall|i: int, j: int|
            0 <= i < j < v@.len() ==> (#[trigger] v@[i]).0 < (#[trigger] v@[j]).0,
{
    let m: BTreeMap<u32, serde_json::Value> = serde_json::from_str(s).ok()?;
    let mut out = Vec::new();
    for (k, v) in m {
        let id = u32::try_from(v.get("id")?.as_u64()?).ok()?;
        let name = v.get("name")?.as_str()?.to_string();
        let email = v.get("email")?.as_str()?.to_string();
        let age = u8::try_from(v.get("age")?.as_u64()?).ok()?;
        out.push((k, id, name, email, age));
    }
    Some(out)
}

/// Decoded records have the expected shape when each record's identifier
/// field equals its key and the highest key leaves room for a next
/// identifier.
pub open spec fn recs_good(rs: Seq<(u32, u32, Seq<char>, Seq<char>, u8)>) -> bool {
    &&& forall|i: int| 0 <= i < rs.len() ==> (#[trigger] rs[i]).0 == rs[i].1
    &&& (rs.len() > 0 ==> rs.last().0 < u32::MAX)
}

/// The counter a loaded store starts with: one past the last (highest) key,
/// or 1 for an empty mapping.
pub open spec fn next_of(rs: Seq<(u32, u32, Seq<char>, Seq<char>, u8)>) -> u32 {
    if rs.len() == 0 {
        1u32
    } else {
        (rs.last().0 + 1) as u32
    }
}

/// The mapping the decoded records stand for, later entries winning on a
/// repeated key.
pub open spec fn recs_map(rs: Seq<(u32, u32, Seq<char>, Seq<char>, u8)>) -> Map<u32, UserView>
    decreases rs.len(),
{
    if rs.len() == 0 {
        Map::empty()
    } else {
        recs_map(rs.drop_last()).insert(
            rs.last().0,
            UserView { id: rs.last().1, name: rs.last().2, email: rs.last().3, age: rs.last().4 },
        )
    }
}

/// With pairwise distinct identifiers, the mapping the boundary records of a
/// record sequence stand for holds exactly those records, each under its own
/// identifier.
proof fn lemma_recs_map_of_views(es: Seq<UserView>)
    requires
        forall|i: int, j: int| 0 <= i < j < es.len() ==> es[i].id != es[j].id,
    ensures
        forall|id: u32|
            #[trigger] recs_map(store_recs(es)).dom().contains(id) <==> exists|i: int|
                0 <= i < es.len() && es[i].id == id,
        forall|i: int|
            0 <= i < es.len() ==> recs_map(store_recs(es)).contains_pair(
                (#[trigger] es[i]).id,
                es[i],
            ),
    decreases es.len(),
{
    if es.len() > 0 {
        let prev = es.drop_last();
        assert(store_recs(es).drop_last() =~= store_recs(prev));
        assert(store_recs(es).last() == rec_of(es.last()));
        lemma_recs_map_of_views(prev);
        let m = recs_map(store_recs(es));
        let last = es.last();
        assert(m == recs_map(store_recs(prev)).insert(last.id, last));
        assert forall|id: u32| #[trigger] m.dom().contains(id) implies exists|i: int|
            0 <= i < es.len() && es[i].id == id by {
            if id == last.id {
                assert(es[es.len() - 1].id == id);
            } else {
                assert(recs_map(store_recs(prev)).dom().contains(id));
                let i = choose|i: int| 0 <= i < prev.len() && prev[i].id == id;
                assert(prev[i] == es[i]);
                assert(es[i].id == id);
            }
        }
        assert forall|id: u32| (exists|i: int| 0 <= i < es.len() && es[i].id == id) implies
            m.dom().contains(id) by {
            let i = choose|i: int| 0 <= i < es.len() && es[i].id == id;
            if i < es.len() - 1 {
                assert(prev[i] == es[i]);
                assert(recs_map(store_recs(prev)).dom().contains(id));
            } else {
                assert(id == last.id);
            }
        }
        assert forall|i: int| 0 <= i < es.len() implies m.contains_pair(
            (#[trigger] es[i]).id,
            es[i],
        ) by {
            if i < es.len() - 1 {
                assert(prev[i] == es[i]);
                assert(recs_map(store_recs(prev)).contains_pair(es[i].id, es[i]));
                assert(es[i].id != last.id);
            }
        }
    }
}

/// The round-trip law: the text `to_json` promises for a well-formed store
/// parses back (per `records_of`) to exactly the store's own boundary
/// records; those records pass `load_from_json`'s shape checks; and the
/// mapping rebuilt from them is the store's own mapping, field for field,
/// with the counter recomputed to one past the highest stored identifier (1
/// for an empty store), whatever the counter was before saving. Together
/// with the contracts of `to_json` and `load_from_json`: loading saved text
/// restores the mapping exactly.
pub proof fn lemma_save_load_round_trip(s: UserManager)
    requires
        s.wf(),
    ensures
        recs_good(store_recs(s.entries())),
        recs_map(store_recs(s.entries())) == s@,
        s.entries().len() == 0 ==> next_of(store_recs(s.entries())) == 1,
        s.entries().len() > 0 ==> next_of(store_recs(s.entries())) == s.entries().last().id + 1
            && s@.dom().contains(s.entries().last().id) && (forall|id: u32|
            #[trigger] s@.dom().contains(id) ==> id <= s.entries().last().id),
{
    s.lemma_entries();
    let es = s.entries();
    assert(forall|i: int, j: int| 0 <= i < j < es.len() ==> es[i].id != es[j].id);
    lemma_recs_map_of_views(es);
    assert forall|i: int| 0 <= i < store_recs(es).len() implies (#[trigger] store_recs(es)[i]).0
        == store_recs(es)[i].1 by {
        assert(store_recs(es)[i] == rec_of(es[i]));
    }
    if es.len() > 0 {
        assert(store_recs(es).last() == rec_of(es.last()));
        assert(es.last().id < s.counter());
    }
    let m = recs_map(store_recs(es));
    assert forall|id: u32| #[trigger] m.dom().contains(id) implies s@.dom().contains(id) && m[id]
        == s@[id] by {
        let i = choose|i: int| 0 <= i < es.len() && es[i].id == id;
        assert(m.contains_pair(es[i].id, es[i]));
        assert(s@.contains_pair(es[i].id, es[i]));
    }
    assert forall|id: u32| #[trigger] s@.dom().contains(id) implies m.dom().contains(id) by {
        let i = choose|i: int| 0 <= i < es.len() && es[i].id == id;
        assert(m.contains_pair(es[i].id, es[i]));
    }
    assert(m =~= s@);
    if es.len() > 0 {
        assert forall|id: u32| #[trigger] s@.dom().contains(id) implies id
            <= es.last().id by {
            let i = choose|i: int| 0 <= i < es.len() && es[i].id == id;
            if i < es.len() - 1 {
                assert(es[i].id < es[es.len() - 1].id);
            }
        }
        assert(s@.contains_pair(es[es.len() - 1].id, es[es.len() - 1]));
    }
}

impl UserManager {
    /// The whole mapping as JSON text: an object keyed by the identifier
    /// written as a string, each value an object with fields id, name, email
    /// and age. The text parses back to exactly the store's records.
    pub fn to_json(&self) -> (r: String)
        requires
            self.wf(),
        ensures
            r@ == json_of(store_recs(self.entries())),
            records_of(r@) == Some(store_recs(self.entries())),
    {
        proof {
            self.lemma_entries();
        }
        let recs = self.records();
        proof {
            assert forall|i: int, j: int| 0 <= i < j < recs@.len() implies (
            #[trigger] recs@[i]).id < (#[trigger] recs@[j]).id by {
                assert(user_views(recs@)[i] == recs@[i]@);
                assert(user_views(recs@)[j] == recs@[j]@);
            }
        }
        records_to_json(recs)
    }

    /// Replaces the whole store by the mapping the text describes and
    /// recomputes the counter to one past the highest identifier (1 when the
    /// mapping is empty). The text is rejected as `Malformed`, with the store
    /// left unchanged, when it is not a JSON mapping of the expected shape,
    /// when a record's identifier field differs from its key, or when the
    /// highest identifier leaves no room for a next one. Loaded records are
    /// not re-validated: persisted data is trusted as written.
    pub fn load_from_json(&mut self, s: &str) -> (r: Result<(), StoreError>)
        requires
            old(self).wf(),
        ensures
            final(self).wf(),
            match records_of(s@) {
                Some(rs) => if recs_good(rs) {
                    r == Ok::<(), StoreError>(()) && final(self)@ == recs_map(rs)
                        && final(self).counter() == next_of(rs)
                } else {
                    r == Err::<(), StoreError>(StoreError::Malformed) && *final(self) == *old(self)
                },
                None => r == Err::<(), StoreError>(StoreError::Malformed)
                    && *final(self) == *old(self),
            },
    {
        match json_to_records(s) {
            None => Err(StoreError::Malformed),
            Some(v) => {
                let ghost rs = recs_view(v@);
                let mut users: Vec<User> = Vec::new();
                let n = v.len();
                let mut i: usize = 0;
                while i < n
                    invariant
                        i <= n,
                        n == v@.len(),
                        rs == recs_view(v@),
                        *self == *old(self),
                        old(self).wf(),
                        records_of(s@) == Some(rs),
                        forall|p: int, q: int|
                            0 <= p < q < rs.len() ==> (#[trigger] rs[p]).0 < (#[trigger] rs[q]).0,
                        users@.len() == i,
                        forall|j: int| 0 <= j < i ==> (#[trigger] rs[j]).0 == rs[j].1,
                        forall|j: int| 0 <= j < i ==> (#[trigger] users@[j]).id == rs[j].0,
                        forall|j: int|
                            0 <= j < i ==> (#[trigger] users@[j])@ == (UserView {
                                id: rs[j].1,
                                name: rs[j].2,
                                email: rs[j].3,
                                age: rs[j].4,
                            }),
                        users_map(users@) == recs_map(rs.subrange(0, i as int)),
                    decreases n - i,
                {
                    let t = &v[i];
                    if t.0 != t.1 {
                        proof {
                            assert(rs[i as int].0 != rs[i as int].1);
                            assert(!recs_good(rs));
                        }
                        return Err(StoreError::Malformed);
                    }
                    let u = User::new(t.0, t.2.clone(), t.3.clone(), t.4);
                    let ghost users0 = users@;
                    users.push(u);
                    proof {
                        let k = i as int;
                        assert(users@.drop_last() =~= users0);
                        assert(rs.subrange(0, k + 1).drop_last() =~= rs.subrange(0, k));
                        assert(rs.subrange(0, k + 1).last() == rs[k]);
                        assert(rs[k] == (v@[k].0, v@[k].1, v@[k].2@, v@[k].3@, v@[k].4));
                        assert(u@ == (UserView {
                            id: rs[k].1,
                            name: rs[k].2,
                            email: rs[k].3,
                            age: rs[k].4,
                        }));
                        assert(users_map(users@) == recs_map(rs.subrange(0, k + 1)));
                    }
                    i += 1;
                }
                proof {
                    assert(rs.subrange(0, n as int) =~= rs);
                }
                let next: u32;
                if users.len() == 0 {
                    next = 1;
                } else {
                    let last_id = users[users.len() - 1].id;
                    if last_id == u32::MAX {
                        proof {
                            assert(rs.last().0 == u32::MAX);
                            assert(!recs_good(rs));
                        }
                        return Err(StoreError::Malformed);
                    }
                    next = last_id + 1;
                }
                proof {
                    assert forall|p: int, q: int| 0 <= p < q < users@.len() implies (
                    #[trigger] users@[p]).id < (#[trigger] users@[q]).id by {
                        assert(users@[p].id == rs[p].0);
                        assert(users@[q].id == rs[q].0);
                    }
                    assert forall|p: int| 0 <= p < users@.len() implies (#[trigger] users@[p]).id
                        < next by {
                        if p < users@.len() - 1 {
                            assert(users@[p].id < users@[users@.len() - 1].id);
                        }
                    }
                }
                self.replace(users, next);
                Ok(())
            },
        }
    }
}

} // verus!
