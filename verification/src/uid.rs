//! Short public identifiers for photos.
//!
//! An identifier is a fixed-length string over the lower-case alphanumeric
//! alphabet, with digits drawn about four times more often than letters.
//! Identifiers are globally unique and never change once assigned.

use vstd::assert_by_contradiction;
use vstd::prelude::*;

use crate::error::Error;

verus! {

/// How many random draws are attempted before the generator falls back to a
/// deterministic search for a free identifier.
pub const UID_RANDOM_TRIES: usize = 64;

/// Number of characters in an identifier.
pub const UID_LENGTH: usize = 10;

/// True for the characters an identifier may contain: '0'..='9' and 'a'..='z'.
pub open spec fn is_uid_char(c: char) -> bool {
    (48 <= c as u32 && c as u32 <= 57) || (97 <= c as u32 && c as u32 <= 122)
}

/// A candidate string is a valid identifier exactly when its length matches
/// and every character belongs to the alphabet.
pub open spec fn is_valid_uid(s: Seq<char>) -> bool {
    &&& s.len() == UID_LENGTH
    &&& forall|i: int| 0 <= i < s.len() ==> is_uid_char(s[i])
}

/// A photo's short public identifier.
#[derive(Debug)]
pub struct UID {
    uid: String,
}

impl Clone for UID {
    fn clone(&self) -> (r: Self)
        ensures
            r == *self,
    {
        UID { uid: self.uid.clone() }
    }
}

impl View for UID {
    type V = Seq<char>;

    closed spec fn view(&self) -> Seq<char> {
        self.uid@
    }
}

impl PartialEq for UID {
    fn eq(&self, other: &UID) -> (r: bool) {
        self.uid == other.uid
    }
}

impl vstd::std_specs::cmp::PartialEqSpecImpl for UID {
    open spec fn obeys_eq_spec() -> bool {
        true
    }

    open spec fn eq_spec(&self, other: &UID) -> bool {
        self@ == other@
    }
}

/// One machine word drawn from the thread-local generator.
/// Relies on rand's `random`; nothing is promised of the value.
#[verifier::external_body]
pub(crate) fn random_u64() -> u64 {
    rand::random::<u64>()
}

/// The character for one draw in `0..66`: draws below 40 map to the ten
/// digits (weight 4 each), the rest to the twenty-six letters (weight 1).
fn biased_char(r: u64) -> (c: char)
    requires
        r < 66,
    ensures
        is_uid_char(c),
{
    if r < 40 {
        ((48 + r / 4) as u8) as char
    } else {
        ((97 + (r - 40)) as u8) as char
    }
}

impl UID {
    /// The blank identifier carried by a photo record before one is
    /// assigned; it is not a valid identifier.
    pub fn empty() -> (r: UID)
        ensures
            r@.len() == 0,
    {
        UID { uid: String::new() }
    }

    /// The identifier as a string slice.
    pub fn as_str(&self) -> (r: &str)
        ensures
            r@ == self@,
    {
        self.uid.as_str()
    }

    /// Parse a candidate string into an identifier. Succeeds exactly on
    /// valid candidates; invalid ones are rejected with `MalformedIdentifier`,
    /// never truncated or padded.
    pub fn try_from_str(value: &str) -> (r: Result<UID, Error>)
        ensures
            r is Ok <==> is_valid_uid(value@),
            r matches Ok(u) ==> u@ == value@,
            r matches Err(e) ==> e matches Error::MalformedIdentifier { value: v } && v@
                == value@,
    {
        let n = value.unicode_len();
        if n != UID_LENGTH {
            return Err(Error::MalformedIdentifier { value: value.to_owned() });
        }
        let mut i: usize = 0;
        while i < n
            invariant
                n == value@.len(),
                0 <= i <= n,
                forall|j: int| 0 <= j < i ==> is_uid_char(value@[j]),
            decreases n - i,
        {
            let c = value.get_char(i);
            let cu = c as u32;
            if !((48 <= cu && cu <= 57) || (97 <= cu && cu <= 122)) {
                return Err(Error::MalformedIdentifier { value: value.to_owned() });
            }
            i = i + 1;
        }
        Ok(UID { uid: value.to_owned() })
    }

    /// Generate a fresh identifier that does not collide with any of the
    /// given existing ones. Candidates are drawn from the digit-biased
    /// alphabet and redrawn on collision; after a bounded number of draws a
    /// deterministic search takes over, so the function always returns.
    pub fn new(existing_uids: &Vec<UID>) -> (r: UID)
        requires
            existing_uids@.len() < 1_000_000_000,
        ensures
            is_valid_uid(r@),
            forall|i: int| 0 <= i < existing_uids@.len() ==> existing_uids@[i]@ != r@,
    {
        let mut tries: usize = 0;
        while tries < UID_RANDOM_TRIES
            invariant
                0 <= tries <= UID_RANDOM_TRIES,
            decreases UID_RANDOM_TRIES - tries,
        {
            let candidate = random_candidate();
            if !collides_with(existing_uids, &candidate) {
                proof {
                    assert forall|k: int| 0 <= k < existing_uids@.len() implies existing_uids@[k]@
                        != candidate@ by {
                        assert(uid_views(existing_uids@)[k] == existing_uids@[k]@);
                    }
                }
                return UID { uid: candidate };
            }
            tries = tries + 1;
        }
        // Every earlier counter value produced a candidate already taken;
        // since candidates decode injectively, at most `existing_uids.len()`
        // counters can collide, so the search below always returns.
        let ghost mut cands: Seq<Seq<char>> = Seq::empty();
        let n = existing_uids.len();
        let mut i: usize = 0;
        loop
            invariant
                0 <= i <= n,
                n == existing_uids@.len() < 1_000_000_000,
                cands.len() == i,
                forall|j: int| 0 <= j < i ==> decode_digits(#[trigger] cands[j]) == j,
                forall|j: int| 0 <= j < i ==> uid_views(existing_uids@).contains(
                    #[trigger] cands[j],
                ),
            decreases n - i,
        {
            let candidate = encode_counter(i);
            if !collides_with(existing_uids, &candidate) {
                proof {
                    assert forall|k: int| 0 <= k < existing_uids@.len() implies existing_uids@[k]@
                        != candidate@ by {
                        assert(uid_views(existing_uids@)[k] == existing_uids@[k]@);
                    }
                }
                return UID { uid: candidate };
            }
            proof {
                assert(uid_views(existing_uids@).contains(candidate@));
                cands = cands.push(candidate@);
            }
            if i == n {
                // More counters have collided than there are stored
                // identifiers, which the pigeonhole argument rules out.
                proof {
                    lemma_counter_pigeonhole(cands, uid_views(existing_uids@));
                }
                return unreached();
            }
            i = i + 1;
        }
    }
}

/// The views of a list of identifiers.
pub open spec fn uid_views(uids: Seq<UID>) -> Seq<Seq<char>> {
    uids.map_values(|u: UID| u@)
}

/// Draw one candidate identifier from the digit-biased alphabet.
fn random_candidate() -> (candidate: String)
    ensures
        is_valid_uid(candidate@),
{
    let mut candidate = String::new();
    let mut j: usize = 0;
    while j < UID_LENGTH
        invariant
            0 <= j <= UID_LENGTH,
            candidate@.len() == j,
            forall|k: int| 0 <= k < j ==> is_uid_char(candidate@[k]),
        decreases UID_LENGTH - j,
    {
        let draw = random_u64() % 66;
        crate::strutil::push_char(&mut candidate, biased_char(draw));
        j = j + 1;
    }
    candidate
}

/// True when the candidate string equals one of the existing identifiers.
fn collides_with(existing_uids: &Vec<UID>, candidate: &String) -> (r: bool)
    ensures
        r == uid_views(existing_uids@).contains(candidate@),
{
    let mut i: usize = 0;
    while i < existing_uids.len()
        invariant
            0 <= i <= existing_uids@.len(),
            forall|k: int| 0 <= k < i ==> existing_uids@[k]@ != candidate@,
        decreases existing_uids@.len() - i,
    {
        if existing_uids[i].uid == *candidate {
            assert(uid_views(existing_uids@)[i as int] == candidate@);
            return true;
        }
        i = i + 1;
    }
    assert(forall|k: int|
        0 <= k < existing_uids@.len() ==> uid_views(existing_uids@)[k] != candidate@);
    false
}

/// Value of a digit character.
pub open spec fn char_digit(c: char) -> int {
    c as u32 - 48
}

/// The number denoted by a sequence of digit characters read with the least
/// significant digit first.
pub open spec fn decode_digits(s: Seq<char>) -> int
    decreases s.len(),
{
    if s.len() == 0 {
        0
    } else {
        char_digit(s[0]) + 10 * decode_digits(s.drop_first())
    }
}

/// Ten to the given power.
pub open spec fn pow10(n: nat) -> int
    decreases n,
{
    if n == 0 {
        1
    } else {
        10 * pow10((n - 1) as nat)
    }
}

proof fn lemma_pow10_pos(n: nat)
    ensures
        pow10(n) >= 1,
    decreases n,
{
    if n > 0 {
        lemma_pow10_pos((n - 1) as nat);
    }
}

proof fn lemma_decode_push(s: Seq<char>, c: char)
    ensures
        decode_digits(s.push(c)) == decode_digits(s) + char_digit(c) * pow10(s.len()),
    decreases s.len(),
{
    if s.len() == 0 {
        assert(s.push(c).len() == 1);
        assert(s.push(c)[0] == c);
        assert(s.push(c).drop_first() =~= Seq::<char>::empty());
        assert(decode_digits(Seq::<char>::empty()) == 0);
        assert(decode_digits(s.push(c)) == char_digit(s.push(c)[0]) + 10 * decode_digits(
            s.push(c).drop_first(),
        ));
        assert(decode_digits(s.push(c)) == char_digit(c));
    } else {
        assert(s.push(c).drop_first() =~= s.drop_first().push(c));
        lemma_decode_push(s.drop_first(), c);
        assert(10 * (decode_digits(s.drop_first()) + char_digit(c) * pow10((s.len() - 1) as nat))
            == 10 * decode_digits(s.drop_first()) + char_digit(c) * (10 * pow10(
            (s.len() - 1) as nat,
        ))) by (nonlinear_arith);
    }
}

/// Encode a counter value as a ten-digit decimal string, least significant
/// digit first. Distinct counters yield distinct strings, because the string
/// decodes back to the counter.
fn encode_counter(v: usize) -> (s: String)
    requires
        v < 1_000_000_000,
    ensures
        is_valid_uid(s@),
        decode_digits(s@) == v,
{
    let ghost j = v as int;
    let mut rest = v;
    let mut s = String::new();
    let mut t: usize = 0;
    while t < UID_LENGTH
        invariant
            0 <= t <= UID_LENGTH,
            s@.len() == t,
            j < 1_000_000_000,
            forall|k: int| 0 <= k < t ==> is_uid_char(s@[k]),
            decode_digits(s@) + pow10(t as nat) * rest == j,
            pow10(t as nat) * rest <= j,
            rest >= 0,
        decreases UID_LENGTH - t,
    {
        let d = rest % 10;
        let c = ((48 + d) as u8) as char;
        let ghost s_old = s@;
        let ghost rest_old = rest as int;
        let ghost p = pow10(t as nat);
        let ghost q = rest_old / 10;
        let ghost m = rest_old % 10;
        crate::strutil::push_char(&mut s, c);
        proof {
            lemma_decode_push(s_old, c);
            lemma_pow10_pos(t as nat);
            assert(char_digit(c) == m);
            assert(rest_old == 10 * q + m && 0 <= m < 10 && q >= 0);
            assert(p * rest_old == p * m + (10 * p) * q) by (nonlinear_arith)
                requires
                    rest_old == 10 * q + m,
            ;
            assert(q * (10 * p) <= rest_old * p) by (nonlinear_arith)
                requires
                    10 * q <= rest_old,
                    q >= 0,
                    rest_old >= 0,
                    p >= 1,
            ;
            assert(pow10((t + 1) as nat) == 10 * p);
        }
        rest = rest / 10;
        t = t + 1;
        proof {
            assert(rest == q);
            assert(pow10(t as nat) == 10 * p);
            assert(decode_digits(s@) == decode_digits(s_old) + m * p);
            assert(decode_digits(s_old) + p * rest_old == j);
            assert(decode_digits(s@) + pow10(t as nat) * rest == j);
            assert(pow10(t as nat) * rest <= j);
        }
    }
    proof {
        assert(pow10(10) == 10_000_000_000) by {
            reveal_with_fuel(pow10, 11);
        }
        if rest > 0 {
            assert(pow10(10) * rest >= pow10(10)) by (nonlinear_arith)
                requires
                    rest >= 1,
                    pow10(10) >= 1,
            ;
        }
        assert(rest == 0);
    }
    s
}

/// Among more candidate strings than stored identifiers, each decoding to
/// its own counter value, at least one candidate is free.
proof fn lemma_counter_pigeonhole(cands: Seq<Seq<char>>, views: Seq<Seq<char>>)
    requires
        cands.len() > views.len(),
        forall|j: int| 0 <= j < cands.len() ==> decode_digits(#[trigger] cands[j]) == j,
    ensures
        exists|j: int| 0 <= j < cands.len() && !views.contains(#[trigger] cands[j]),
{
    broadcast use vstd::set::group_set_axioms;

    assert_by_contradiction!(exists|j: int|
        0 <= j < cands.len() && !views.contains(#[trigger] cands[j]), {
        assert(cands.no_duplicates()) by {
            assert forall|i: int, j: int|
                0 <= i < cands.len() && 0 <= j < cands.len() && i != j implies cands[i]
                != cands[j] by {
                assert(decode_digits(cands[i]) == i);
                assert(decode_digits(cands[j]) == j);
            }
        }
        cands.unique_seq_to_set();
        views.lemma_cardinality_of_set();
        assert(cands.to_set().subset_of(views.to_set())) by {
            assert forall|s: Seq<char>| cands.to_set().contains(s)
                implies views.to_set().contains(s) by {
                assert(cands.contains(s));
                let j = choose|j: int| 0 <= j < cands.len() && cands[j] == s;
                assert(views.contains(cands[j]));
            }
        }
        vstd::set_lib::lemma_len_subset(cands.to_set(), views.to_set());
    });
}

} // verus!
