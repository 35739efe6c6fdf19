//! The session store: an insertion-ordered sequence of sessions with unique
//! identifiers, and the add / remove / list operations over it.

use vstd::prelude::*;
use crate::session::{Session, SessionView};
use crate::text::{chars_to_string, str_eq};
use rand::Rng;

verus! {

/// The errors the store operations can signal.
#[derive(Debug, PartialEq, Eq)]
pub enum StoreError {
    /// `remove` found no session with the given identifier.
    NotFound(String),
    /// A persisted text could not be parsed back into a store.
    StorageFormat,
    /// Identifier generation gave up after too many colliding draws.
    IdentifierSpaceExhausted,
}

/// How many colliding draws identifier generation tolerates before it gives
/// up with [`StoreError::IdentifierSpaceExhausted`]. Collisions are rare, so
/// in practice the first draw is accepted.
pub const MAX_ID_ATTEMPTS: usize = 1000;

/// No two sessions of `s` share an identifier.
pub open spec fn unique_ids(s: Seq<SessionView>) -> bool {
    forall|i: int, j: int|
        0 <= i < j < s.len() ==> s[i].identifier != s[j].identifier
}

/// Some session of `s` has the identifier `id`.
pub open spec fn has_id(s: Seq<SessionView>, id: Seq<char>) -> bool {
    exists|i: int| 0 <= i < s.len() && s[i].identifier == id
}

/// A character allowed in a generated identifier: an ASCII letter or digit.
pub open spec fn is_id_char(c: char) -> bool {
    ||| '0' as u32 <= c as u32 <= '9' as u32
    ||| 'a' as u32 <= c as u32 <= 'z' as u32
    ||| 'A' as u32 <= c as u32 <= 'Z' as u32
}

/// A well-shaped generated identifier: four letters or digits.
pub open spec fn is_generated_id(id: Seq<char>) -> bool {
    id.len() == 4 && forall|i: int| 0 <= i < id.len() ==> is_id_char(#[trigger] id[i])
}

/// Some session of `s` carries an identifier of the generated shape. Only
/// such an identifier can ever collide with a fresh draw, so identifier
/// generation is owed success whenever this is false — in particular on an
/// empty store.
pub open spec fn has_generated_shape_id(s: Seq<SessionView>) -> bool {
    exists|i: int| 0 <= i < s.len() && is_generated_id(#[trigger] s[i].identifier)
}

/// The ordered collection of recorded sessions.
#[derive(Debug)]
pub struct Storage {
    pub sessions: Vec<Session>,
}

impl View for Storage {
    type V = Seq<SessionView>;

    open spec fn view(&self) -> Seq<SessionView> {
        self.sessions@.map_values(|s: Session| s@)
    }
}

impl Storage {
    /// The store invariant: identifiers are unique.
    pub open spec fn wf(&self) -> bool {
        unique_ids(self@)
    }

    /// An empty store.
    pub fn new() -> (r: Storage)
        ensures
            r@ == Seq::<SessionView>::empty(),
            r.wf(),
    {
        let r = Storage { sessions: Vec::new() };
        proof {
            assert(r@ =~= Seq::<SessionView>::empty());
        }
        r
    }

    /// Whether some session carries exactly this identifier.
    pub fn contains_id(&self, identifier: &str) -> (r: bool)
        ensures
            r == has_id(self@, identifier@),
    {
        let n = self.sessions.len();
        let mut i: usize = 0;
        while i < n
            invariant
                i <= n,
                n == self.sessions.len(),
                forall|k: int| 0 <= k < i ==> self@[k].identifier != identifier@,
            decreases n - i,
        {
            if str_eq(self.sessions[i].identifier.as_str(), identifier) {
                proof {
                    assert(self@[i as int].identifier == identifier@);
                }
                return true;
            }
            i += 1;
        }
        false
    }

    /// Appends a freshly identified session holding `description` and
    /// `timestamp`. The new session comes last; everything before it is
    /// untouched; its identifier is four letters or digits and collides with
    /// no existing one, so uniqueness is preserved. Failure is possible only
    /// when some existing identifier has the generated shape and every draw
    /// collided; on an empty store success is owed.
    pub fn add(&mut self, description: String, timestamp: u64) -> (r: Result<
        String,
        StoreError,
    >)
        requires
            old(self).wf(),
        ensures
            final(self).wf(),
            old(self)@.len() == 0 ==> r is Ok,
            !has_generated_shape_id(old(self)@) ==> r is Ok && final(self)@.len() == old(self)@.len() + 1,
            match r {
                Ok(id) => {
                    &&& is_generated_id(id@)
                    &&& !has_id(old(self)@, id@)
                    &&& final(self)@ == old(self)@.push(
                        SessionView {
                            identifier: id@,
                            description: description@,
                            timestamp: timestamp,
                        },
                    )
                },
                Err(e) => {
                    &&& e == StoreError::IdentifierSpaceExhausted
                    &&& final(self)@ == old(self)@
                    &&& has_generated_shape_id(old(self)@)
                },
            },
    {
        let id = match new_id(self) {
            Ok(id) => id,
            Err(e) => {
                return Err(e);
            },
        };
        let session = Session::new(id.clone(), description, timestamp);
        let ghost prior = self@;
        self.sessions.push(session);
        proof {
            assert(self@ =~= prior.push(session@));
            assert forall|i: int, j: int| 0 <= i < j < self@.len() implies self@[i].identifier
                != self@[j].identifier by {
                if j == self@.len() - 1 {
                    assert(!has_id(prior, id@));
                    assert(prior[i].identifier != id@);
                }
            }
        }
        Ok(id)
    }

    /// Removes the session whose identifier matches `identifier` exactly,
    /// keeping the relative order of the rest. When no session matches, the
    /// store is unchanged and the missing identifier is reported.
    pub fn remove(&mut self, identifier: &str) -> (r: Result<(), StoreError>)
        requires
            old(self).wf(),
        ensures
            final(self).wf(),
            match r {
                Ok(()) => exists|i: int|
                    0 <= i < old(self)@.len() && old(self)@[i].identifier == identifier@
                        && final(self)@ == old(self)@.remove(i),
                Err(e) => {
                    &&& e matches StoreError::NotFound(name) && name@ == identifier@
                    &&& !has_id(old(self)@, identifier@)
                    &&& final(self)@ == old(self)@
                },
            },
    {
        let n = self.sessions.len();
        let mut i: usize = 0;
        while i < n
            invariant
                i <= n,
                n == self.sessions.len(),
                *self == *old(self),
                old(self).wf(),
                forall|k: int| 0 <= k < i ==> self@[k].identifier != identifier@,
            decreases n - i,
        {
            if str_eq(self.sessions[i].identifier.as_str(), identifier) {
                let ghost prior = self@;
                let ghost found: int = i as int;
                self.sessions.remove(i);
                proof {
                    prior.remove_ensures(found);
                    assert(self@ =~= prior.remove(found));
                    assert(prior[found].identifier == identifier@);
                    assert forall|p: int, q: int| 0 <= p < q < self@.len() implies self@[p].identifier
                        != self@[q].identifier by {
                        let p0: int = if p < found { p } else { p + 1 };
                        let q0: int = if q < found { q } else { q + 1 };
                        assert(self@[p] == prior[p0]);
                        assert(self@[q] == prior[q0]);
                        assert(0 <= p0 < q0 < prior.len());
                        assert(prior[p0].identifier != prior[q0].identifier);
                    }
                }
                return Ok(());
            }
            i += 1;
        }
        Err(StoreError::NotFound(identifier.to_owned()))
    }

    /// Whether two sessions share an identifier.
    pub fn has_duplicate_ids(&self) -> (r: bool)
        ensures
            r == !unique_ids(self@),
    {
        let n = self.sessions.len();
        let mut i: usize = 0;
        while i < n
            invariant
                i <= n,
                n == self.sessions.len(),
                forall|p: int, q: int|
                    0 <= p < q < n && p < i ==> self@[p].identifier != self@[q].identifier,
            decreases n - i,
        {
            let mut j = i + 1;
            while j < n
                invariant
                    i < j <= n,
                    n == self.sessions.len(),
                    forall|q: int| i < q < j ==> self@[i as int].identifier != self@[q].identifier,
                decreases n - j,
            {
                if str_eq(
                    self.sessions[i].identifier.as_str(),
                    self.sessions[j].identifier.as_str(),
                ) {
                    proof {
                        assert(self@[i as int].identifier == self@[j as int].identifier);
                    }
                    return true;
                }
                j += 1;
            }
            i += 1;
        }
        false
    }

    /// The last `min(count, len)` sessions, oldest of the selected first.
    pub fn list(&self, count: usize) -> (r: Vec<Session>)
        ensures
            r@.len() == vstd::math::min(count as int, self.sessions@.len() as int),
            r@ == self.sessions@.subrange(
                self.sessions@.len() - r@.len(),
                self.sessions@.len() as int,
            ),
    {
        let n = self.sessions.len();
        let k = if count < n {
            count
        } else {
            n
        };
        let start = n - k;
        let mut r: Vec<Session> = Vec::new();
        let mut j = start;
        while j < n
            invariant
                start <= j <= n,
                n == self.sessions.len(),
                r@.len() == j - start,
                r@ == self.sessions@.subrange(start as int, j as int),
            decreases n - j,
        {
            let s = self.sessions[j].clone();
            r.push(s);
            proof {
                assert(self.sessions@.subrange(start as int, j + 1 as int) =~= self.sessions@
                    .subrange(start as int, j as int).push(self.sessions@[j as int]));
            }
            j += 1;
        }
        r
    }
}

/// Relies on rand's `Alphanumeric` distribution: `sample` draws one byte
/// uniformly from the ASCII letters and digits.
#[verifier::external_body]
fn random_alphanumeric() -> (r: char)
    ensures
        is_id_char(r),
{
    rand::rng().sample(rand::distr::Alphanumeric) as char
}

/// One candidate identifier: four characters drawn from the alphanumeric
/// alphabet.
pub fn generate_one_id() -> (r: String)
    ensures
        is_generated_id(r@),
{
    let mut chars: Vec<char> = Vec::new();
    chars.push(random_alphanumeric());
    chars.push(random_alphanumeric());
    chars.push(random_alphanumeric());
    chars.push(random_alphanumeric());
    chars_to_string(&chars)
}

/// Draws candidate identifiers until one collides with no session of
/// `storage`. A draw can collide only with an existing identifier of the
/// generated shape, so where the store holds none — an empty store above
/// all — the first draw is accepted and success is owed. Otherwise each
/// draw is random and success cannot be promised; after
/// [`MAX_ID_ATTEMPTS`] colliding draws the search is abandoned with
/// [`StoreError::IdentifierSpaceExhausted`] rather than looping on.
pub fn new_id(storage: &Storage) -> (r: Result<String, StoreError>)
    ensures
        storage@.len() == 0 ==> r is Ok,
        match r {
            Ok(id) => is_generated_id(id@) && !has_id(storage@, id@),
            Err(e) => e == StoreError::IdentifierSpaceExhausted && has_generated_shape_id(
                storage@,
            ),
        },
{
    let mut attempts: usize = 0;
    while attempts < MAX_ID_ATTEMPTS
        invariant
            attempts <= MAX_ID_ATTEMPTS,
            attempts == 0 || has_generated_shape_id(storage@),
        decreases MAX_ID_ATTEMPTS - attempts,
    {
        let candidate = generate_one_id();
        if !storage.contains_id(candidate.as_str()) {
            return Ok(candidate);
        }
        proof {
            let i = choose|i: int|
                0 <= i < storage@.len() && storage@[i].identifier == candidate@;
            assert(is_generated_id(storage@[i].identifier));
        }
        attempts += 1;
    }
    proof {
        assert(has_generated_shape_id(storage@));
        let i = choose|i: int|
            0 <= i < storage@.len() && is_generated_id(storage@[i].identifier);
        assert(storage@.len() > 0);
    }
    Err(StoreError::IdentifierSpaceExhausted)
}

} // verus!
