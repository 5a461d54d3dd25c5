//! The record store: user records keyed by identifier, a monotonic
//! next-identifier counter, and the validation rules every written record
//! must pass.

use vstd::prelude::*;
use vstd::string::StrSliceExecFns;

use crate::text::contains_substr;
use crate::text::lower_of;
use crate::text::lowercase;
use crate::text::matches_at;
use crate::text::name_matches;

verus! {

/// The search rule as a predicate on stored records: does the record's name
/// match the query, case-insensitively?
pub open spec fn match_pred(query: Seq<char>) -> spec_fn(UserView) -> bool {
    |uv: UserView| name_matches(uv.name, query)
}

/// The largest age a record may carry.
pub const MAX_AGE: u8 = 120;

/// Abstract value of a user record: the identifier, the name and the email as
/// character sequences, and the age.
pub struct UserView {
    pub id: u32,
    pub name: Seq<char>,
    pub email: Seq<char>,
    pub age: u8,
}

/// How an operation on the store can fail. The first three are the validation
/// failures, in the order the checks are made; `NotFound` is a lookup of an
/// absent identifier; `Malformed` rejects text that does not describe a
/// mapping of the expected shape.
#[derive(Debug, Clone, Copy, PartialEq, Eq, Structural)]
pub enum StoreError {
    EmptyName,
    InvalidEmail,
    AgeTooLarge,
    NotFound,
    Malformed,
}

impl StoreError {
    /// The validation failures, as opposed to lookup or decoding failures.
    pub open spec fn is_validation(self) -> bool {
        self == StoreError::EmptyName || self == StoreError::InvalidEmail
            || self == StoreError::AgeTooLarge
    }
}

pub open spec fn valid_name(name: Seq<char>) -> bool {
    name.len() > 0
}

pub open spec fn valid_email(email: Seq<char>) -> bool {
    email.contains('@')
}

pub open spec fn valid_age(age: u8) -> bool {
    age <= MAX_AGE
}

/// A record passes validation when its name is non-empty, its email holds at
/// least one '@', and its age is not above `MAX_AGE`.
pub open spec fn valid_user(u: UserView) -> bool {
    valid_name(u.name) && valid_email(u.email) && valid_age(u.age)
}

/// The exact outcome of validating a record: the first failing check wins,
/// in the order name, then email, then age.
pub open spec fn validate_spec(u: UserView) -> Result<(), StoreError> {
    if !valid_name(u.name) {
        Err(StoreError::EmptyName)
    } else if !valid_email(u.email) {
        Err(StoreError::InvalidEmail)
    } else if !valid_age(u.age) {
        Err(StoreError::AgeTooLarge)
    } else {
        Ok(())
    }
}

/// A user record.
#[derive(Debug, PartialEq, Eq)]
pub struct User {
    pub id: u32,
    pub name: String,
    pub email: String,
    pub age: u8,
}

impl View for User {
    type V = UserView;

    open spec fn view(&self) -> UserView {
        UserView { id: self.id, name: self.name@, email: self.email@, age: self.age }
    }
}

impl Clone for User {
    fn clone(&self) -> (r: Self)
        ensures
            r == *self,
    {
        User {
            id: self.id,
            name: self.name.clone(),
            email: self.email.clone(),
            age: self.age,
        }
    }
}

/// True when the character `c` occurs in `s`.
fn contains_char(s: &str, c: char) -> (r: bool)
    ensures
        r == s@.contains(c),
{
    let n = s.unicode_len();
    let mut i: usize = 0;
    while i < n
        invariant
            i <= n,
            n == s@.len(),
            forall|j: int| 0 <= j < i ==> s@[j] != c,
        decreases n - i,
    {
        if s.get_char(i) == c {
            assert(s@.contains(c)) by {
                assert(s@[i as int] == c);
            }
            return true;
        }
        i += 1;
    }
    false
}

impl User {
    pub fn new(id: u32, name: String, email: String, age: u8) -> (r: Self)
        ensures
            r@ == (UserView { id, name: name@, email: email@, age }),
    {
        User { id, name, email, age }
    }

    /// Checks the record against the validation rules; the first failing
    /// check (name, then email, then age) decides the error.
    pub fn validate(&self) -> (r: Result<(), StoreError>)
        ensures
            r == validate_spec(self@),
            r is Ok <==> valid_user(self@),
    {
        if self.name.as_str().is_empty() {
            return Err(StoreError::EmptyName);
        }
        if !contains_char(self.email.as_str(), '@') {
            return Err(StoreError::InvalidEmail);
        }
        if self.age > MAX_AGE {
            return Err(StoreError::AgeTooLarge);
        }
        Ok(())
    }
}

/// The abstract values of a sequence of records.
pub open spec fn user_views(s: Seq<User>) -> Seq<UserView> {
    s.map(|i: int, u: User| u@)
}

/// The mapping a sequence of records stands for: each record keyed by its
/// identifier, later entries winning on a repeated identifier.
pub open spec fn users_map(s: Seq<User>) -> Map<u32, UserView>
    decreases s.len(),
{
    if s.len() == 0 {
        Map::empty()
    } else {
        users_map(s.drop_last()).insert(s.last().id, s.last()@)
    }
}

/// With pairwise distinct identifiers, the mapping holds exactly the records
/// of the sequence, each under its own identifier.
proof fn lemma_users_map(s: Seq<User>)
    requires
        forall|i: int, j: int| 0 <= i < j < s.len() ==> s[i].id != s[j].id,
    ensures
        forall|id: u32|
            #[trigger] users_map(s).dom().contains(id) <==> exists|i: int|
                0 <= i < s.len() && s[i].id == id,
        forall|i: int| 0 <= i < s.len() ==> users_map(s).contains_pair(#[trigger] s[i].id, s[i]@),
    decreases s.len(),
{
    if s.len() > 0 {
        let prev = s.drop_last();
        lemma_users_map(prev);
        assert forall|id: u32| #[trigger] users_map(s).dom().contains(id) implies exists|i: int|
            0 <= i < s.len() && s[i].id == id by {
            if id == s.last().id {
                assert(s[s.len() - 1].id == id);
            } else {
                assert(users_map(prev).dom().contains(id));
                let i = choose|i: int| 0 <= i < prev.len() && prev[i].id == id;
                assert(prev[i] == s[i]);
                assert(s[i].id == id);
            }
        }
        assert forall|id: u32| (exists|i: int| 0 <= i < s.len() && s[i].id == id) implies
            users_map(s).dom().contains(id) by {
            let i = choose|i: int| 0 <= i < s.len() && s[i].id == id;
            if i < s.len() - 1 {
                assert(prev[i] == s[i]);
                assert(prev[i].id == id);
                assert(users_map(prev).dom().contains(id));
            } else {
                assert(id == s.last().id);
            }
        }
        assert forall|i: int| 0 <= i < s.len() implies users_map(s).contains_pair(
            #[trigger] s[i].id,
            s[i]@,
        ) by {
            if i < s.len() - 1 {
                assert(prev[i] == s[i]);
                assert(users_map(prev).contains_pair(s[i].id, s[i]@));
                assert(s[i].id != s.last().id);
            }
        }
    }
}

/// Removing the record at an index removes exactly its identifier from the
/// mapping, when identifiers are pairwise distinct.
proof fn lemma_users_map_remove(s: Seq<User>, i: int)
    requires
        forall|p: int, q: int| 0 <= p < q < s.len() ==> s[p].id != s[q].id,
        0 <= i < s.len(),
    ensures
        users_map(s.remove(i)) == users_map(s).remove(s[i].id),
    decreases s.len(),
{
    lemma_users_map(s);
    let t = s.remove(i);
    if i == s.len() - 1 {
        assert(t =~= s.drop_last());
        lemma_users_map(s.drop_last());
        assert(!users_map(s.drop_last()).dom().contains(s[i].id)) by {
            if users_map(s.drop_last()).dom().contains(s[i].id) {
                let j = choose|j: int|
                    0 <= j < s.drop_last().len() && s.drop_last()[j].id == s[i].id;
                assert(s[j].id == s[i].id);
            }
        }
        assert(users_map(s.remove(i)) =~= users_map(s).remove(s[i].id));
    } else {
        let prev = s.drop_last();
        assert(forall|p: int, q: int| 0 <= p < q < prev.len() ==> prev[p].id != prev[q].id);
        assert(t.drop_last() =~= prev.remove(i));
        assert(t.last() == s.last());
        lemma_users_map_remove(prev, i);
        assert(prev[i] == s[i]);
        assert(s[i].id != s.last().id);
        assert(users_map(s.remove(i)) =~= users_map(s).remove(s[i].id));
    }
}

/// Replacing the record at an index by one with the same identifier replaces
/// exactly that identifier's record in the mapping.
proof fn lemma_users_map_update(s: Seq<User>, i: int, u: User)
    requires
        forall|p: int, q: int| 0 <= p < q < s.len() ==> s[p].id != s[q].id,
        0 <= i < s.len(),
        u.id == s[i].id,
    ensures
        users_map(s.update(i, u)) == users_map(s).insert(u.id, u@),
    decreases s.len(),
{
    let t = s.update(i, u);
    if i == s.len() - 1 {
        assert(t.drop_last() =~= s.drop_last());
        assert(t.last() == u);
        assert(users_map(t) =~= users_map(s).insert(u.id, u@));
    } else {
        let prev = s.drop_last();
        assert(forall|p: int, q: int| 0 <= p < q < prev.len() ==> prev[p].id != prev[q].id);
        assert(t.drop_last() =~= prev.update(i, u));
        assert(t.last() == s.last());
        assert(prev[i] == s[i]);
        lemma_users_map_update(prev, i, u);
        assert(s[i].id != s.last().id);
        assert(users_map(t) =~= users_map(s).insert(u.id, u@));
    }
}

/// A field left unset keeps the stored value; a field supplied replaces it.
pub open spec fn patched(
    u: UserView,
    name: Option<Seq<char>>,
    email: Option<Seq<char>>,
    age: Option<u8>,
) -> UserView {
    UserView {
        id: u.id,
        name: match name {
            Some(n) => n,
            None => u.name,
        },
        email: match email {
            Some(e) => e,
            None => u.email,
        },
        age: match age {
            Some(a) => a,
            None => u.age,
        },
    }
}

/// The character sequence inside an optional text field.
pub open spec fn opt_text(o: Option<String>) -> Option<Seq<char>> {
    match o {
        Some(s) => Some(s@),
        None => None,
    }
}

/// Identifiers strictly increase and are never reused within a session: every
/// identifier already in the mapping lies below the counter, so the
/// identifier a successful `add_user` returns (the counter itself) is fresh,
/// and the counter it leaves behind is larger still. A fresh store's counter
/// is 1, so the first successful add returns 1.
pub proof fn lemma_fresh_identifier(s: UserManager)
    requires
        s.wf(),
    ensures
        forall|id: u32| #[trigger] s@.dom().contains(id) ==> id < s.counter(),
{
    s.lemma_entries();
    assert forall|id: u32| #[trigger] s@.dom().contains(id) implies id < s.counter() by {
        let i = choose|i: int| 0 <= i < s.entries().len() && s.entries()[i].id == id;
        assert(s.entries()[i].id < s.counter());
    }
}

/// A removed identifier is absent afterwards: a mapping with `id` removed no
/// longer contains it, so a later lookup of the same identifier comes back
/// empty.
pub proof fn lemma_removed_is_absent(s: UserManager, t: UserManager, id: u32)
    requires
        t@ == s@.remove(id),
    ensures
        !t@.dom().contains(id),
{
}

/// An update that supplies only an email leaves the identifier, the name and
/// the age exactly as they were, and installs the given email.
pub proof fn lemma_update_email_only(u: UserView, email: Seq<char>)
    ensures
        patched(u, None, Some(email), None).id == u.id,
        patched(u, None, Some(email), None).name == u.name,
        patched(u, None, Some(email), None).email == email,
        patched(u, None, Some(email), None).age == u.age,
{
}

/// The record store: a mapping from identifier to record, together with the
/// next identifier to hand out. The records sit in a vector ordered by
/// strictly increasing identifier.
#[derive(Debug)]
pub struct UserManager {
    users: Vec<User>,
    next_id: u32,
}

impl View for UserManager {
    type V = Map<u32, UserView>;

    closed spec fn view(&self) -> Map<u32, UserView> {
        users_map(self.users@)
    }
}

impl UserManager {
    /// The next identifier the store will assign.
    pub closed spec fn counter(self) -> u32 {
        self.next_id
    }

    /// The stored records, ordered by strictly increasing identifier.
    pub closed spec fn entries(self) -> Seq<UserView> {
        user_views(self.users@)
    }

    /// Well-formedness: the records are ordered by strictly increasing
    /// identifier, and every identifier is below the counter, which is at
    /// least 1.
    pub closed spec fn wf(self) -> bool {
        &&& forall|i: int, j: int|
            0 <= i < j < self.users@.len() ==> (#[trigger] self.users@[i]).id < (
            #[trigger] self.users@[j]).id
        &&& forall|i: int| 0 <= i < self.users@.len() ==> (#[trigger] self.users@[i]).id
            < self.next_id
        &&& self.next_id >= 1
    }

    /// How the ordered entries relate to the mapping: each entry stands in the
    /// mapping under its identifier, every identifier of the mapping appears
    /// among the entries, and the entries' identifiers strictly increase.
    pub proof fn lemma_entries(self)
        requires
            self.wf(),
        ensures
            forall|i: int|
                0 <= i < self.entries().len() ==> self@.contains_pair(
                    (#[trigger] self.entries()[i]).id,
                    self.entries()[i],
                ),
            forall|id: u32|
                #[trigger] self@.dom().contains(id) <==> exists|i: int|
                    0 <= i < self.entries().len() && self.entries()[i].id == id,
            forall|i: int, j: int|
                0 <= i < j < self.entries().len() ==> (#[trigger] self.entries()[i]).id < (
                #[trigger] self.entries()[j]).id,
            forall|i: int|
                0 <= i < self.entries().len() ==> (#[trigger] self.entries()[i]).id
                    < self.counter(),
    {
        lemma_users_map(self.users@);
        assert forall|i: int| 0 <= i < self.entries().len() implies self@.contains_pair(
            (#[trigger] self.entries()[i]).id,
            self.entries()[i],
        ) by {
            assert(self.entries()[i] == self.users@[i]@);
        }
        assert forall|id: u32| #[trigger] self@.dom().contains(id) implies exists|i: int|
            0 <= i < self.entries().len() && self.entries()[i].id == id by {
            let i = choose|i: int| 0 <= i < self.users@.len() && self.users@[i].id == id;
            assert(self.entries()[i].id == id);
        }
        assert forall|id: u32|
            (exists|i: int| 0 <= i < self.entries().len() && self.entries()[i].id == id) implies
            self@.dom().contains(id) by {
            let i = choose|i: int| 0 <= i < self.entries().len() && self.entries()[i].id == id;
            assert(self.users@[i].id == id);
        }
        assert forall|i: int, j: int| 0 <= i < j < self.entries().len() implies (
        #[trigger] self.entries()[i]).id < (#[trigger] self.entries()[j]).id by {
            assert(self.entries()[i] == self.users@[i]@);
            assert(self.entries()[j] == self.users@[j]@);
        }
    }

    /// The next identifier the store will assign, as a value.
    pub fn next_identifier(&self) -> (r: u32)
        ensures
            r == self.counter(),
    {
        self.next_id
    }

    /// The stored records themselves, in entry order.
    pub(crate) fn records(&self) -> (r: &Vec<User>)
        ensures
            user_views(r@) == self.entries(),
    {
        &self.users
    }

    /// Replaces the whole store: the given records, in strictly increasing
    /// identifier order below the given counter, become its contents.
    pub(crate) fn replace(&mut self, users: Vec<User>, next_id: u32)
        requires
            forall|i: int, j: int|
                0 <= i < j < users@.len() ==> (#[trigger] users@[i]).id < (#[trigger] users@[j]).id,
            forall|i: int| 0 <= i < users@.len() ==> (#[trigger] users@[i]).id < next_id,
            next_id >= 1,
        ensures
            final(self).wf(),
            final(self)@ == users_map(users@),
            final(self).counter() == next_id,
            final(self).entries() == user_views(users@),
    {
        self.users = users;
        self.next_id = next_id;
    }

    /// A fresh, empty store: no records, counter at 1.
    pub fn new() -> (r: Self)
        ensures
            r.wf(),
            r@ == Map::<u32, UserView>::empty(),
            r.counter() == 1,
    {
        UserManager { users: Vec::new(), next_id: 1 }
    }

    /// The index of the record with the given identifier, if any.
    fn find_index(&self, id: u32) -> (r: Option<usize>)
        ensures
            match r {
                Some(i) => i < self.users@.len() && self.users@[i as int].id == id,
                None => forall|i: int| 0 <= i < self.users@.len() ==> self.users@[i].id != id,
            },
    {
        let n = self.users.len();
        let mut i: usize = 0;
        while i < n
            invariant
                i <= n,
                n == self.users@.len(),
                forall|j: int| 0 <= j < i ==> self.users@[j].id != id,
            decreases n - i,
        {
            if self.users[i].id == id {
                return Some(i);
            }
            i += 1;
        }
        None
    }

    /// Builds a candidate record under the next identifier, validates it, and
    /// only on success inserts it and advances the counter; a validation
    /// failure leaves the store untouched and allocates nothing.
    pub fn add_user(&mut self, name: String, email: String, age: u8) -> (r: Result<
        u32,
        StoreError,
    >)
        requires
            old(self).wf(),
            old(self).counter() < u32::MAX,
        ensures
            final(self).wf(),
            ({
                let candidate = UserView {
                    id: old(self).counter(),
                    name: name@,
                    email: email@,
                    age,
                };
                match validate_spec(candidate) {
                    Ok(()) => r == Ok::<u32, StoreError>(old(self).counter())
                        && final(self)@ == old(self)@.insert(old(self).counter(), candidate)
                        && final(self).counter() == old(self).counter() + 1,
                    Err(e) => r == Err::<u32, StoreError>(e) && *final(self) == *old(self),
                }
            }),
    {
        let user = User::new(self.next_id, name, email, age);
        match user.validate() {
            Ok(()) => {
                let id = user.id;
                self.users.push(user);
                self.next_id = self.next_id + 1;
                proof {
                    assert(self.users@.drop_last() =~= old(self).users@);
                }
                Ok(id)
            },
            Err(e) => Err(e),
        }
    }

    /// Deletes and returns the record under the identifier; an absent
    /// identifier is `NotFound` and leaves the store unchanged. The counter is
    /// not affected either way.
    pub fn remove_user(&mut self, id: u32) -> (r: Result<User, StoreError>)
        requires
            old(self).wf(),
        ensures
            final(self).wf(),
            final(self).counter() == old(self).counter(),
            old(self)@.dom().contains(id) ==> (r matches Ok(u) && u@ == old(self)@[id]
                && final(self)@ == old(self)@.remove(id)),
            !old(self)@.dom().contains(id) ==> r == Err::<User, StoreError>(StoreError::NotFound)
                && *final(self) == *old(self),
    {
        proof {
            lemma_users_map(self.users@);
        }
        match self.find_index(id) {
            None => Err(StoreError::NotFound),
            Some(i) => {
                proof {
                    lemma_users_map_remove(self.users@, i as int);
                }
                let u = self.users.remove(i);
                proof {
                    let s = old(self).users@;
                    let t = self.users@;
                    assert forall|p: int, q: int| 0 <= p < q < t.len() implies (
                    #[trigger] t[p]).id < (#[trigger] t[q]).id by {
                        if q < i {
                            assert(t[p] == s[p] && t[q] == s[q]);
                        } else if p < i {
                            assert(t[p] == s[p] && t[q] == s[q + 1]);
                        } else {
                            assert(t[p] == s[p + 1] && t[q] == s[q + 1]);
                        }
                    }
                    assert forall|p: int| 0 <= p < t.len() implies (#[trigger] t[p]).id
                        < self.next_id by {
                        if p < i {
                            assert(t[p] == s[p]);
                        } else {
                            assert(t[p] == s[p + 1]);
                        }
                    }
                }
                Ok(u)
            },
        }
    }

    /// Applies only the supplied fields to the record under the identifier,
    /// then re-validates the whole result: on a validation failure, as on an
    /// absent identifier, the store is left exactly as it was.
    pub fn update_user(
        &mut self,
        id: u32,
        name: Option<String>,
        email: Option<String>,
        age: Option<u8>,
    ) -> (r: Result<(), StoreError>)
        requires
            old(self).wf(),
        ensures
            final(self).wf(),
            final(self).counter() == old(self).counter(),
            !old(self)@.dom().contains(id) ==> r == Err::<(), StoreError>(StoreError::NotFound)
                && *final(self) == *old(self),
            old(self)@.dom().contains(id) ==> ({
                let candidate = patched(old(self)@[id], opt_text(name), opt_text(email), age);
                match validate_spec(candidate) {
                    Ok(()) => r == Ok::<(), StoreError>(()) && final(self)@ == old(self)@.insert(
                        id,
                        candidate,
                    ),
                    Err(e) => r == Err::<(), StoreError>(e) && *final(self) == *old(self),
                }
            }),
    {
        proof {
            lemma_users_map(self.users@);
        }
        match self.find_index(id) {
            None => Err(StoreError::NotFound),
            Some(i) => {
                let new_name = match name {
                    Some(n) => n,
                    None => self.users[i].name.clone(),
                };
                let new_email = match email {
                    Some(e) => e,
                    None => self.users[i].email.clone(),
                };
                let new_age = match age {
                    Some(a) => a,
                    None => self.users[i].age,
                };
                let candidate = User::new(id, new_name, new_email, new_age);
                match candidate.validate() {
                    Err(e) => Err(e),
                    Ok(()) => {
                        proof {
                            lemma_users_map_update(self.users@, i as int, candidate);
                        }
                        let ghost s = self.users@;
                        self.users.remove(i);
                        self.users.insert(i, candidate);
                        proof {
                            let t = self.users@;
                            assert(t =~= s.update(i as int, candidate));
                            assert forall|p: int| 0 <= p < t.len() implies (#[trigger] t[p]).id
                                == s[p].id by {}
                        }
                        Ok(())
                    },
                }
            },
        }
    }

    /// Every stored record, ordered by strictly increasing identifier.
    pub fn list_users(&self) -> (r: Vec<User>)
        ensures
            user_views(r@) == self.entries(),
            r@.len() == self.entries().len(),
            forall|i: int| 0 <= i < r@.len() ==> r@[i]@ == self.entries()[i],
    {
        let mut out: Vec<User> = Vec::new();
        let n = self.users.len();
        let mut i: usize = 0;
        while i < n
            invariant
                i <= n,
                n == self.users@.len(),
                out@.len() == i,
                forall|j: int| 0 <= j < i ==> out@[j] == self.users@[j],
            decreases n - i,
        {
            out.push(self.users[i].clone());
            i += 1;
        }
        proof {
            assert(user_views(out@) =~= self.entries());
        }
        out
    }

    /// Every record whose name contains the query as a case-insensitive
    /// substring, in order of increasing identifier; an empty query matches
    /// every record.
    pub fn search_by_name(&self, query: &str) -> (r: Vec<User>)
        ensures
            user_views(r@) == self.entries().filter(match_pred(query@)),
    {
        let lq = lowercase(query);
        let mut out: Vec<User> = Vec::new();
        let n = self.users.len();
        let mut i: usize = 0;
        while i < n
            invariant
                i <= n,
                n == self.users@.len(),
                lq@ == lower_of(query@),
                query@.len() == 0 ==> lq@.len() == 0,
                user_views(out@) =~= user_views(self.users@.subrange(0, i as int)).filter(
                    match_pred(query@),
                ),
            decreases n - i,
        {
            let u = &self.users[i];
            let ln = lowercase(u.name.as_str());
            let hit = contains_substr(ln.as_str(), lq.as_str());
            proof {
                if query@.len() == 0 {
                    assert(ln@.subrange(0, 0) =~= lq@);
                    assert(matches_at(lq@, ln@, 0));
                }
                assert(hit == match_pred(query@)(u@));
            }
            if hit {
                out.push(u.clone());
            }
            proof {
                reveal(Seq::filter);
                let pv = user_views(self.users@.subrange(0, i + 1));
                assert(pv.drop_last() =~= user_views(self.users@.subrange(0, i as int)));
                assert(pv.last() == self.users@[i as int]@);
                assert(user_views(out@) =~= pv.filter(match_pred(query@)));
            }
            i += 1;
        }
        proof {
            assert(self.users@.subrange(0, n as int) =~= self.users@);
        }
        out
    }

    /// Pure lookup: the record under the identifier, or absent.
    pub fn get_user(&self, id: u32) -> (r: Option<&User>)
        requires
            self.wf(),
        ensures
            match r {
                Some(u) => self@.dom().contains(id) && u@ == self@[id],
                None => !self@.dom().contains(id),
            },
    {
        proof {
            lemma_users_map(self.users@);
        }
        match self.find_index(id) {
            Some(i) => Some(&self.users[i]),
            None => None,
        }
    }
}

} // verus!
