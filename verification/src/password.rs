//! Passwords and hierarchical access control.
//!
//! A path is protected by the passwords of all its ancestors that define
//! one, checked from the root-most to the leaf-most. The evaluator is a pure
//! function from the gallery's password map, the caller's session
//! credentials and the credential sent with the current request to either
//! the validated credential set or the first failure.

use vstd::prelude::*;

use crate::strutil::{ancestor_chain, lemma_spec_parent_len, parent_path};

verus! {

/// A map from logical paths to passwords, also used for a caller's
/// validated credentials. Keys are unique.
#[derive(Debug)]
pub struct Passwords {
    entries: Vec<(String, String)>,
}

/// The map denoted by an association list; later entries win.
pub open spec fn entries_map(s: Seq<(String, String)>) -> Map<Seq<char>, Seq<char>>
    decreases s.len(),
{
    if s.len() == 0 {
        Map::empty()
    } else {
        entries_map(s.drop_last()).insert(s.last().0@, s.last().1@)
    }
}

spec fn entries_nodup(s: Seq<(String, String)>) -> bool {
    forall|i: int, j: int| 0 <= i < j < s.len() ==> s[i].0@ != s[j].0@
}

proof fn lemma_entries_map_index(s: Seq<(String, String)>, i: int)
    requires
        entries_nodup(s),
        0 <= i < s.len(),
    ensures
        entries_map(s).contains_key(s[i].0@),
        entries_map(s)[s[i].0@] == s[i].1@,
    decreases s.len(),
{
    if i < s.len() - 1 {
        assert(entries_nodup(s.drop_last()));
        lemma_entries_map_index(s.drop_last(), i);
    }
}

proof fn lemma_entries_map_absent(s: Seq<(String, String)>, k: Seq<char>)
    requires
        forall|i: int| 0 <= i < s.len() ==> s[i].0@ != k,
    ensures
        !entries_map(s).contains_key(k),
    decreases s.len(),
{
    if s.len() > 0 {
        lemma_entries_map_absent(s.drop_last(), k);
    }
}

proof fn lemma_entries_map_update(s: Seq<(String, String)>, i: int, kv: (String, String))
    requires
        entries_nodup(s),
        0 <= i < s.len(),
        kv.0@ == s[i].0@,
    ensures
        entries_map(s.update(i, kv)) =~= entries_map(s).insert(kv.0@, kv.1@),
    decreases s.len(),
{
    let s2 = s.update(i, kv);
    if i == s.len() - 1 {
        assert(s2.drop_last() =~= s.drop_last());
        assert(s2.last() == kv);
    } else {
        assert(s2.drop_last() =~= s.drop_last().update(i, kv));
        assert(entries_nodup(s.drop_last()));
        lemma_entries_map_update(s.drop_last(), i, kv);
        assert(kv.0@ != s.last().0@);
        assert(s2.last() == s.last());
    }
}

impl View for Passwords {
    type V = Map<Seq<char>, Seq<char>>;

    closed spec fn view(&self) -> Map<Seq<char>, Seq<char>> {
        entries_map(self.entries@)
    }
}

impl Passwords {
    /// Internal well-formedness: keys are unique.
    pub closed spec fn wf(&self) -> bool {
        entries_nodup(self.entries@)
    }

    /// An empty credential set.
    pub fn new() -> (r: Passwords)
        ensures
            r.wf(),
            r@ == Map::<Seq<char>, Seq<char>>::empty(),
    {
        Passwords { entries: Vec::new() }
    }

    /// Number of entries.
    pub fn len(&self) -> (r: usize)
        requires
            self.wf(),
        ensures
            r == self@.dom().len(),
    {
        proof {
            self.lemma_dom_len();
        }
        self.entries.len()
    }

    /// True when no entry is present.
    pub fn is_empty(&self) -> (r: bool)
        requires
            self.wf(),
        ensures
            r == (self@ == Map::<Seq<char>, Seq<char>>::empty()),
    {
        proof {
            self.lemma_dom_len();
            if self.entries@.len() == 0 {
                assert(self@ =~= Map::<Seq<char>, Seq<char>>::empty());
            } else {
                lemma_entries_map_index(self.entries@, 0);
                assert(self@ != Map::<Seq<char>, Seq<char>>::empty());
            }
        }
        self.entries.len() == 0
    }

    proof fn lemma_dom_len(&self)
        requires
            self.wf(),
        ensures
            self@.dom().len() == self.entries@.len(),
            self@.dom().finite(),
    {
        Self::lemma_dom_len_rec(self.entries@);
    }

    proof fn lemma_dom_len_rec(s: Seq<(String, String)>)
        requires
            entries_nodup(s),
        ensures
            entries_map(s).dom().len() == s.len(),
            entries_map(s).dom().finite(),
        decreases s.len(),
    {
        broadcast use vstd::set::group_set_axioms, vstd::map::group_map_axioms;

        if s.len() == 0 {
            assert(entries_map(s).dom() =~= Set::<Seq<char>>::empty());
        } else {
            assert(entries_nodup(s.drop_last()));
            Self::lemma_dom_len_rec(s.drop_last());
            lemma_entries_map_absent(s.drop_last(), s.last().0@);
            assert(entries_map(s).dom() =~= entries_map(s.drop_last()).dom().insert(s.last().0@));
        }
    }

    /// Look up the password recorded for a path.
    pub fn get(&self, key: &str) -> (r: Option<&String>)
        requires
            self.wf(),
        ensures
            match r {
                Some(v) => self@.contains_key(key@) && v@ == self@[key@],
                None => !self@.contains_key(key@),
            },
    {
        let n = self.entries.len();
        let mut i: usize = 0;
        while i < n
            invariant
                n == self.entries@.len(),
                self.wf(),
                0 <= i <= n,
                forall|k: int| 0 <= k < i ==> self.entries@[k].0@ != key@,
            decreases n - i,
        {
            if crate::strutil::str_eq(self.entries[i].0.as_str(), key) {
                proof {
                    lemma_entries_map_index(self.entries@, i as int);
                }
                return Some(&self.entries[i].1);
            }
            i = i + 1;
        }
        proof {
            lemma_entries_map_absent(self.entries@, key@);
        }
        None
    }

    /// True when a password is recorded for the path.
    pub fn contains_key(&self, key: &str) -> (r: bool)
        requires
            self.wf(),
        ensures
            r == self@.contains_key(key@),
    {
        self.get(key).is_some()
    }

    /// Record a password for a path, replacing any earlier entry.
    pub fn insert(&mut self, key: String, value: String)
        requires
            old(self).wf(),
        ensures
            final(self).wf(),
            final(self)@ == old(self)@.insert(key@, value@),
    {
        let n = self.entries.len();
        let mut i: usize = 0;
        while i < n
            invariant
                n == self.entries@.len(),
                self.wf(),
                0 <= i <= n,
                self.entries@ == old(self).entries@,
                forall|k: int| 0 <= k < i ==> self.entries@[k].0@ != key@,
            decreases n - i,
        {
            if crate::strutil::str_eq(self.entries[i].0.as_str(), key.as_str()) {
                let ghost s_old = self.entries@;
                let ghost ii = i as int;
                self.entries[i] = (key, value);
                proof {
                    let kv = self.entries@[ii];
                    assert(self.entries@ == s_old.update(ii, kv));
                    assert(kv.0@ == s_old[ii].0@);
                    lemma_entries_map_update(s_old, ii, kv);
                    assert(entries_nodup(self.entries@)) by {
                        assert(forall|k: int|
                            0 <= k < s_old.len() ==> #[trigger] self.entries@[k].0@
                                == s_old[k].0@);
                    }
                }
                return ;
            }
            i = i + 1;
        }
        let ghost s_old = self.entries@;
        self.entries.push((key, value));
        proof {
            assert(self.entries@.drop_last() =~= s_old);
            lemma_entries_map_absent(s_old, self.entries@.last().0@);
        }
    }

    /// The entries of this map whose path has a matching value in `creds`.
    pub fn filter_matching(&self, creds: &Passwords) -> (r: Passwords)
        requires
            self.wf(),
            creds.wf(),
        ensures
            r.wf(),
            r@ == Map::new(
                |q: Seq<char>|
                    self@.contains_key(q) && creds@.contains_key(q) && creds@[q] == self@[q],
                |q: Seq<char>| self@[q],
            ),
    {
        let n = self.entries.len();
        let mut r = Passwords::new();
        let mut i: usize = 0;
        while i < n
            invariant
                self.wf(),
                creds.wf(),
                r.wf(),
                n == self.entries@.len(),
                0 <= i <= n,
                r@ =~= Map::new(
                    |q: Seq<char>|
                        creds@.contains_key(q) && (exists|j: int|
                            0 <= j < i && #[trigger] self.entries@[j].0@ == q && creds@[q]
                                == self.entries@[j].1@),
                    |q: Seq<char>| creds@[q],
                ),
            decreases n - i,
        {
            let ghost r_old = r@;
            let k = &self.entries[i].0;
            let v = &self.entries[i].1;
            let mut matched = false;
            match creds.get(k.as_str()) {
                Some(cv) => {
                    if crate::strutil::str_eq(cv.as_str(), v.as_str()) {
                        let k2 = k.clone();
                        let cv2 = cv.clone();
                        r.insert(k2, cv2);
                        matched = true;
                    }
                },
                None => {},
            }
            proof {
                let q0 = self.entries@[i as int].0@;
                assert(r@ =~= Map::new(
                    |q: Seq<char>|
                        creds@.contains_key(q) && (exists|j: int|
                            0 <= j < i + 1 && #[trigger] self.entries@[j].0@ == q && creds@[q]
                                == self.entries@[j].1@),
                    |q: Seq<char>| creds@[q],
                )) by {
                    if matched {
                        assert(r@ == r_old.insert(q0, creds@[q0]));
                    }
                    assert forall|q: Seq<char>|
                        creds@.contains_key(q) && (exists|j: int|
                            0 <= j < i + 1 && #[trigger] self.entries@[j].0@ == q && creds@[q]
                                == self.entries@[j].1@) && !(exists|j: int|
                            0 <= j < i && #[trigger] self.entries@[j].0@ == q && creds@[q]
                                == self.entries@[j].1@) implies q == q0 && creds@[q0]
                        == self.entries@[i as int].1@ by {
                        let j = choose|j: int|
                            0 <= j < i + 1 && #[trigger] self.entries@[j].0@ == q && creds@[q]
                                == self.entries@[j].1@;
                        assert(j == i);
                    }
                }
            }
            i = i + 1;
        }
        proof {
            assert(r@ =~= Map::new(
                |q: Seq<char>|
                    self@.contains_key(q) && creds@.contains_key(q) && creds@[q] == self@[q],
                |q: Seq<char>| self@[q],
            )) by {
                assert forall|q: Seq<char>| #[trigger]
                    self@.contains_key(q) implies (exists|j: int|
                    0 <= j < n && #[trigger] self.entries@[j].0@ == q) by {
                    if forall|j: int| 0 <= j < n ==> #[trigger] self.entries@[j].0@ != q {
                        lemma_entries_map_absent(self.entries@, q);
                    }
                }
                assert forall|j: int| 0 <= j < n implies self@.contains_key(
                    #[trigger] self.entries@[j].0@,
                ) && self@[self.entries@[j].0@] == self.entries@[j].1@ by {
                    lemma_entries_map_index(self.entries@, j);
                }
            }
        }
        r
    }

    /// The entry at the given position, for iteration.
    pub fn entry_at(&self, i: usize) -> (r: (&String, &String))
        requires
            self.wf(),
            i < self@.dom().len(),
        ensures
            self@.contains_key(r.0@),
            self@[r.0@] == r.1@,
    {
        proof {
            self.lemma_dom_len();
            lemma_entries_map_index(self.entries@, i as int);
        }
        (&self.entries[i].0, &self.entries[i].1)
    }
}

/// What base64 decoding denotes for a given input: the decoded bytes, or
/// nothing when the input is not valid padded standard base64.
pub uninterp spec fn base64_decode_of(s: Seq<char>) -> Option<Seq<u8>>;

/// Decode a standard padded base64 string.
/// Relies on base64's `Engine::decode` with the standard engine: the result
/// is a function of the input alone.
#[verifier::external_body]
fn decode_base64(encoded: &str) -> (r: Option<Vec<u8>>)
    ensures
        r matches Some(v) ==> base64_decode_of(encoded@) == Some(v@),
        r is None <==> base64_decode_of(encoded@) is None,
{
    base64::Engine::decode(&base64::prelude::BASE64_STANDARD, encoded).ok()
}

/// Build a string from UTF-8 bytes.
/// Relies on std's `String::from_utf8`: it succeeds exactly on valid UTF-8
/// and returns the string those bytes encode.
#[verifier::external_body]
fn string_from_utf8(bytes: Vec<u8>) -> (r: Option<String>)
    ensures
        r is Some <==> vstd::utf8::valid_utf8(bytes@),
        r matches Some(s) ==> vstd::utf8::encode_utf8(s@) == bytes@,
{
    String::from_utf8(bytes).ok()
}

/// Possible failures when decoding a password sent with a request.
#[derive(Debug, PartialEq, Eq, Structural)]
pub enum PasswordDecodeError {
    /// The header was not valid base64.
    Base64DecodeError,
    /// The decoded bytes were not valid UTF-8.
    Utf8DecodeError,
}

/// A password optionally sent by the client with the current request. It
/// holds `None` when no credential was supplied at all.
#[derive(Debug)]
pub struct OptionalPassword(Option<String>);

impl View for OptionalPassword {
    type V = Option<Seq<char>>;

    closed spec fn view(&self) -> Option<Seq<char>> {
        match self.0 {
            Some(ref s) => Some(s@),
            None => None,
        }
    }
}

impl OptionalPassword {
    /// No credential supplied.
    pub fn none() -> (r: Self)
        ensures
            r@ is None,
    {
        OptionalPassword(None)
    }

    /// A known credential, for callers that already hold the plain text.
    pub fn from_plain(password: String) -> (r: Self)
        ensures
            r@ == Some(password@),
    {
        OptionalPassword(Some(password))
    }

    /// Decode a credential from its base64 transport form. Fails when the
    /// input is not valid base64 or does not decode to UTF-8 text.
    pub fn from_base64(encoded: &str) -> (r: Result<Self, PasswordDecodeError>)
        ensures
            r matches Ok(p) ==> (base64_decode_of(encoded@) matches Some(b) && p@ matches Some(s)
                && vstd::utf8::encode_utf8(s) == b),
            r == Err::<Self, _>(PasswordDecodeError::Base64DecodeError) <==> base64_decode_of(
                encoded@,
            ) is None,
            r == Err::<Self, _>(PasswordDecodeError::Utf8DecodeError) ==> (base64_decode_of(
                encoded@,
            ) matches Some(b) && !vstd::utf8::valid_utf8(b)),
    {
        match decode_base64(encoded) {
            None => Err(PasswordDecodeError::Base64DecodeError),
            Some(bytes) => {
                let ghost b = bytes@;
                match string_from_utf8(bytes) {
                    None => Err(PasswordDecodeError::Utf8DecodeError),
                    Some(s) => Ok(OptionalPassword(Some(s))),
                }
            },
        }
    }

    /// The plain credential, if one was supplied.
    pub fn as_string(&self) -> (r: &Option<String>)
        ensures
            r is Some <==> self@ is Some,
            r matches Some(s) ==> self@ == Some(s@),
    {
        &self.0
    }
}

/// The two ways an access check can fail, each naming the root-most path
/// whose requirement was not met.
#[derive(Debug)]
pub enum PasswordError {
    /// The path needs a password and none was supplied for it.
    Required(String),
    /// A password was supplied for the path but does not match.
    Invalid(String),
}

impl PasswordError {
    /// A user-readable description, naming the path unless it is the root.
    pub fn message(&self) -> (r: String)
        ensures
            self matches PasswordError::Required(p) ==> r@ == (if p@.len() == 0 {
                "A password is required to access this gallery"@
            } else {
                "A password is required to access \""@ + p@ + "\""@
            }),
            self matches PasswordError::Invalid(p) ==> r@ == (if p@.len() == 0 {
                "Invalid password"@
            } else {
                "Invalid password for \""@ + p@ + "\""@
            }),
            r@.len() > 0,
    {
        let r = match self {
            PasswordError::Required(path) => {
                if path.as_str().unicode_len() == 0 {
                    "A password is required to access this gallery".to_owned()
                } else {
                    "A password is required to access \"".to_owned().concat(
                        path.as_str(),
                    ).concat("\"")
                }
            },
            PasswordError::Invalid(path) => {
                if path.as_str().unicode_len() == 0 {
                    "Invalid password".to_owned()
                } else {
                    "Invalid password for \"".to_owned().concat(path.as_str()).concat("\"")
                }
            },
        };
        proof {
            reveal_strlit("A password is required to access this gallery");
            reveal_strlit("A password is required to access \"");
            reveal_strlit("Invalid password");
            reveal_strlit("Invalid password for \"");
        }
        r
    }
}

/// Name of the session cookie that stores the validated password for a path.
pub fn cookie_name(path: &str) -> (r: String)
    ensures
        r@ == "niobium_pw_"@ + path@,
{
    "niobium_pw_".to_owned().concat(path)
}

/// True when the password requirement at ancestor `q` is met: either the
/// request carries exactly the required password, or the caller's session
/// holds it for that exact path.
pub open spec fn entry_satisfied(
    gallery: Map<Seq<char>, Seq<char>>,
    request: Option<Seq<char>>,
    session: Map<Seq<char>, Seq<char>>,
    q: Seq<char>,
) -> bool {
    ||| request == Some(gallery[q])
    ||| (session.contains_key(q) && session[q] == gallery[q])
}

/// Every password required on the way from the root to `path` is met.
pub open spec fn access_granted(
    gallery: Map<Seq<char>, Seq<char>>,
    request: Option<Seq<char>>,
    session: Map<Seq<char>, Seq<char>>,
    path: Seq<char>,
) -> bool {
    forall|i: int|
        0 <= i < ancestor_chain(path).len() && gallery.contains_key(
            #[trigger] ancestor_chain(path)[i],
        ) ==> entry_satisfied(gallery, request, session, ancestor_chain(path)[i])
}

/// The credential set a successful check hands back: for every protected
/// path, its password, when either a matching session credential exists or
/// the path guards `path` and the request credential matches.
pub open spec fn validated_set(
    gallery: Map<Seq<char>, Seq<char>>,
    request: Option<Seq<char>>,
    session: Map<Seq<char>, Seq<char>>,
    path: Seq<char>,
) -> Map<Seq<char>, Seq<char>> {
    Map::new(
        |q: Seq<char>|
            gallery.contains_key(q) && ((session.contains_key(q) && session[q] == gallery[q]) || (
            ancestor_chain(path).contains(q) && request == Some(gallery[q]))),
        |q: Seq<char>| gallery[q],
    )
}

proof fn lemma_take_succ_contains(s: Seq<Seq<char>>, i: int, q: Seq<char>)
    requires
        0 <= i < s.len(),
    ensures
        s.take(i + 1).contains(q) <==> (s.take(i).contains(q) || q == s[i]),
{
    assert(s.take(i + 1) =~= s.take(i).push(s[i]));
    if s.take(i).contains(q) {
        let k = choose|k: int| 0 <= k < s.take(i).len() && #[trigger] s.take(i)[k] == q;
        assert(s.take(i + 1)[k] == q);
    }
    if q == s[i] {
        assert(s.take(i + 1)[i] == q);
    }
    if s.take(i + 1).contains(q) {
        let k = choose|k: int| 0 <= k < s.take(i + 1).len() && #[trigger] s.take(i + 1)[k] == q;
        if k < i {
            assert(s.take(i)[k] == q);
        }
    }
}

/// The ancestors of `path`, root first, as owned strings.
fn build_chain(path: &str) -> (r: Vec<String>)
    ensures
        r@.map_values(|s: String| s@) == ancestor_chain(path@),
{
    let mut down: Vec<String> = Vec::new();
    let mut cur = path.to_owned();
    while cur.as_str().unicode_len() != 0
        invariant
            ancestor_chain(path@) =~= ancestor_chain(cur@) + down@.map_values(
                |s: String| s@,
            ).reverse(),
        decreases cur@.len(),
    {
        let ghost down_old = down@;
        let ghost cur_old = cur@;
        let next = parent_path(cur.as_str());
        down.push(cur);
        cur = next;
        proof {
            lemma_spec_parent_len(cur_old);
            assert(down@ =~= down_old.push(down@.last()));
            assert(down@.map_values(|s: String| s@).reverse() =~= seq![cur_old]
                + down_old.map_values(|s: String| s@).reverse());
            assert(ancestor_chain(cur_old) + down_old.map_values(|s: String| s@).reverse()
                =~= ancestor_chain(cur@) + down@.map_values(|s: String| s@).reverse());
        }
    }
    proof {
        assert(cur@ =~= Seq::<char>::empty());
    }
    let ghost down_before = down@;
    down.push(cur);
    proof {
        assert(down@.map_values(|s: String| s@) =~= down_before.map_values(
            |s: String| s@,
        ).push(Seq::<char>::empty()));
        assert(down@.map_values(|s: String| s@).reverse() =~= seq![Seq::<char>::empty()]
            + down_before.map_values(|s: String| s@).reverse());
        assert(ancestor_chain(Seq::<char>::empty()) =~= seq![Seq::<char>::empty()]);
        assert(ancestor_chain(path@) =~= down@.map_values(|s: String| s@).reverse());
    }
    let n = down.len();
    let mut r: Vec<String> = Vec::new();
    let mut i: usize = 0;
    while i < n
        invariant
            n == down@.len(),
            0 <= i <= n,
            r@.len() == i,
            forall|k: int| 0 <= k < i ==> r@[k]@ == down@[n - 1 - k]@,
        decreases n - i,
    {
        r.push(down[n - 1 - i].clone());
        i = i + 1;
    }
    proof {
        assert(r@.map_values(|s: String| s@) =~= down@.map_values(|s: String| s@).reverse());
    }
    r
}

/// The ordered password requirements guarding `path`: for every ancestor
/// with a password, from the root-most to the leaf-most, its path and its
/// password.
pub fn required_passwords(gallery: &Passwords, path: &str) -> (r: Vec<(String, String)>)
    requires
        gallery.wf(),
    ensures
        r@.map_values(|pr: (String, String)| pr.0@) == ancestor_chain(path@).filter(
            |q: Seq<char>| gallery@.contains_key(q),
        ),
        forall|k: int|
            0 <= k < r@.len() ==> gallery@.contains_key((#[trigger] r@[k]).0@) && gallery@[
                r@[k].0@
            ] == r@[k].1@,
{
    let ghost spec_chain = ancestor_chain(path@);
    let chain = build_chain(path);
    let n = chain.len();
    let mut r: Vec<(String, String)> = Vec::new();
    let mut i: usize = 0;
    proof {
        reveal(Seq::filter);
        assert(spec_chain.take(0) =~= Seq::<Seq<char>>::empty());
        assert(r@.map_values(|pr: (String, String)| pr.0@) =~= spec_chain.take(0).filter(
            |q: Seq<char>| gallery@.contains_key(q),
        ));
    }
    while i < n
        invariant
            gallery.wf(),
            n == chain@.len(),
            spec_chain == ancestor_chain(path@),
            chain@.map_values(|s: String| s@) == spec_chain,
            0 <= i <= n,
            r@.map_values(|pr: (String, String)| pr.0@) == spec_chain.take(i as int).filter(
                |q: Seq<char>| gallery@.contains_key(q),
            ),
            forall|k: int|
                0 <= k < r@.len() ==> gallery@.contains_key((#[trigger] r@[k]).0@) && gallery@[
                    r@[k].0@
                ] == r@[k].1@,
        decreases n - i,
    {
        let ghost taken = spec_chain.take(i as int);
        let ghost r_old = r@;
        proof {
            assert(chain@.map_values(|s: String| s@)[i as int] == chain@[i as int]@);
        }
        match gallery.get(chain[i].as_str()) {
            Some(pw) => {
                r.push((chain[i].clone(), pw.clone()));
            },
            None => {},
        }
        proof {
            reveal(Seq::filter);
            assert(spec_chain.take(i + 1).drop_last() =~= taken);
            assert(spec_chain.take(i + 1).last() == spec_chain[i as int]);
            assert(r@.map_values(|pr: (String, String)| pr.0@) =~= spec_chain.take(i + 1).filter(
                |q: Seq<char>| gallery@.contains_key(q),
            )) by {
                if gallery@.contains_key(spec_chain[i as int]) {
                    assert(r@.map_values(|pr: (String, String)| pr.0@) =~= r_old.map_values(
                        |pr: (String, String)| pr.0@,
                    ).push(spec_chain[i as int]));
                }
            }
        }
        i = i + 1;
    }
    proof {
        assert(spec_chain.take(n as int) =~= spec_chain);
    }
    r
}

/// Validate a caller's credentials for `path` against the gallery's
/// password map.
///
/// `session` holds the passwords stored in the caller's session cookies,
/// keyed by path; `request` is the credential optionally sent with the
/// current request. Requirements are checked from the root-most protected
/// ancestor to the leaf-most; the first unmet one fails the check without
/// looking further, so an unauthenticated caller learns nothing about
/// deeper paths. On success the returned map holds every validated
/// credential, and the returned list names the paths whose passwords were
/// newly supplied by the request and should be persisted in the session.
pub fn check_access(gallery: &Passwords, session: &Passwords, request: &OptionalPassword, path: &str) -> (r:
    Result<(Passwords, Vec<String>), PasswordError>)
    requires
        gallery.wf(),
        session.wf(),
    ensures
        r is Ok <==> access_granted(gallery@, request@, session@, path@),
        r matches Ok(v) ==> v.0@ == validated_set(gallery@, request@, session@, path@)
            && v.0.wf(),
        r matches Ok(v) ==> v.1@.map_values(|s: String| s@) == ancestor_chain(path@).filter(
            |q: Seq<char>| gallery@.contains_key(q) && request@ == Some(gallery@[q]),
        ),
        r matches Err(e) ==> ({
            let chain = ancestor_chain(path@);
            exists|i: int|
                {
                    &&& 0 <= i < chain.len()
                    &&& gallery@.contains_key(#[trigger] chain[i])
                    &&& !entry_satisfied(gallery@, request@, session@, chain[i])
                    &&& forall|j: int|
                        0 <= j < i && gallery@.contains_key(#[trigger] chain[j])
                            ==> entry_satisfied(gallery@, request@, session@, chain[j])
                    &&& match e {
                        PasswordError::Required(p) => p@ == chain[i] && request@ is None,
                        PasswordError::Invalid(p) => p@ == chain[i] && request@ is Some,
                    }
                }
        }),
{
    let ghost spec_chain = ancestor_chain(path@);
    // Credentials already in the session that match a protected path.
    let mut validated = gallery.filter_matching(session);
    let mut persist: Vec<String> = Vec::new();
    let chain = build_chain(path);
    let n = chain.len();
    let mut idx: usize = 0;
    proof {
        reveal(Seq::filter);
        assert(spec_chain.take(0) =~= Seq::<Seq<char>>::empty());
        assert(persist@.map_values(|s: String| s@) =~= spec_chain.take(0).filter(
            |q: Seq<char>| gallery@.contains_key(q) && request@ == Some(gallery@[q]),
        ));
    }
    while idx < n
        invariant
            gallery.wf(),
            session.wf(),
            validated.wf(),
            n == chain@.len(),
            0 <= idx <= n,
            chain@.map_values(|s: String| s@) == spec_chain,
            spec_chain == ancestor_chain(path@),
            forall|j: int|
                0 <= j < idx && gallery@.contains_key(#[trigger] spec_chain[j])
                    ==> entry_satisfied(gallery@, request@, session@, spec_chain[j]),
            validated@ =~= Map::new(
                |q: Seq<char>|
                    gallery@.contains_key(q) && ((session@.contains_key(q) && session@[q]
                        == gallery@[q]) || (spec_chain.take(idx as int).contains(q) && request@
                        == Some(gallery@[q]))),
                |q: Seq<char>| gallery@[q],
            ),
            persist@.map_values(|s: String| s@) == spec_chain.take(idx as int).filter(
                |q: Seq<char>| gallery@.contains_key(q) && request@ == Some(gallery@[q]),
            ),
        decreases n - idx,
    {
        let ghost q = spec_chain[idx as int];
        let ghost validated_old = validated@;
        let ghost persist_old = persist@;
        let mut pushed = false;
        proof {
            assert(chain@.map_values(|s: String| s@)[idx as int] == chain@[idx as int]@);
        }
        let step = chain[idx].as_str();
        match gallery.get(step) {
            None => {
                proof {
                    assert(validated@ =~= Map::new(
                        |q2: Seq<char>|
                            gallery@.contains_key(q2) && ((session@.contains_key(q2)
                                && session@[q2] == gallery@[q2]) || (spec_chain.take(
                                idx + 1,
                            ).contains(q2) && request@ == Some(gallery@[q2]))),
                        |q2: Seq<char>| gallery@[q2],
                    )) by {
                        assert forall|q2: Seq<char>|
                            #![all_triggers]
                            spec_chain.take(idx + 1).contains(q2) && gallery@.contains_key(
                                q2,
                            ) implies spec_chain.take(idx as int).contains(q2) || q2 == q by {
                            lemma_take_succ_contains(spec_chain, idx as int, q2);
                        }
                        assert forall|q2: Seq<char>|
                            #![all_triggers]
                            spec_chain.take(idx as int).contains(q2) implies spec_chain.take(
                                idx + 1,
                            ).contains(q2) by {
                            lemma_take_succ_contains(spec_chain, idx as int, q2);
                        }
                    }
                }
            },
            Some(required) => {
                let ghost required_view = required@;
                proof {
                    assert(required_view == gallery@[q]);
                }
                let mut met = false;
                match request.as_string() {
                    Some(user_pw) => {
                        if crate::strutil::str_eq(user_pw.as_str(), required.as_str()) {
                            let key = chain[idx].clone();
                            validated.insert(key, user_pw.clone());
                            persist.push(chain[idx].clone());
                            met = true;
                            pushed = true;
                            proof {
                                assert(request@ == Some(gallery@[q]));
                                assert(validated@ == validated_old.insert(q, gallery@[q]));
                            }
                        }
                    },
                    None => {},
                }
                if !met {
                    match validated.get(step) {
                        Some(sess_pw) => {
                            if crate::strutil::str_eq(sess_pw.as_str(), required.as_str()) {
                                met = true;
                            } else {
                                proof {
                                    assert(sess_pw@ == validated_old[q]);
                                    assert(validated_old[q] == gallery@[q]);
                                }
                                return Err(PasswordError::Invalid(chain[idx].clone()));
                            }
                        },
                        None => {
                            proof {
                                assert(!validated_old.contains_key(q));
                                assert(!(session@.contains_key(q) && session@[q]
                                    == gallery@[q]));
                            }
                            if request.as_string().is_some() {
                                proof {
                                    assert(!entry_satisfied(
                                        gallery@,
                                        request@,
                                        session@,
                                        spec_chain[idx as int],
                                    ));
                                }
                                return Err(PasswordError::Invalid(chain[idx].clone()));
                            } else {
                                proof {
                                    assert(!entry_satisfied(
                                        gallery@,
                                        request@,
                                        session@,
                                        spec_chain[idx as int],
                                    ));
                                }
                                return Err(PasswordError::Required(chain[idx].clone()));
                            }
                        },
                    }
                }
                proof {
                    if validated_old.contains_key(q) {
                        assert((session@.contains_key(q) && session@[q] == gallery@[q])
                            || (spec_chain.take(idx as int).contains(q) && request@ == Some(
                            gallery@[q],
                        )));
                    }
                    assert(entry_satisfied(gallery@, request@, session@, q));
                    assert(validated@ =~= Map::new(
                        |q2: Seq<char>|
                            gallery@.contains_key(q2) && ((session@.contains_key(q2)
                                && session@[q2] == gallery@[q2]) || (spec_chain.take(
                                idx + 1,
                            ).contains(q2) && request@ == Some(gallery@[q2]))),
                        |q2: Seq<char>| gallery@[q2],
                    )) by {
                        lemma_take_succ_contains(spec_chain, idx as int, q);
                        assert forall|q2: Seq<char>|
                            #![all_triggers]
                            spec_chain.take(idx + 1).contains(q2) && gallery@.contains_key(
                                q2,
                            ) implies spec_chain.take(idx as int).contains(q2) || q2 == q by {
                            lemma_take_succ_contains(spec_chain, idx as int, q2);
                        }
                        assert forall|q2: Seq<char>|
                            #![all_triggers]
                            spec_chain.take(idx as int).contains(q2) implies spec_chain.take(
                                idx + 1,
                            ).contains(q2) by {
                            lemma_take_succ_contains(spec_chain, idx as int, q2);
                        }
                    }
                }
            },
        }
        proof {
            reveal(Seq::filter);
            assert(spec_chain.take(idx + 1).drop_last() =~= spec_chain.take(idx as int));
            assert(spec_chain.take(idx + 1).last() == q);
            if pushed {
                assert(persist@.map_values(|s: String| s@) =~= persist_old.map_values(
                    |s: String| s@,
                ).push(q));
            } else {
                assert(!(gallery@.contains_key(q) && request@ == Some(gallery@[q])));
            }
            assert(persist@.map_values(|s: String| s@) =~= spec_chain.take(idx + 1).filter(
                |q2: Seq<char>| gallery@.contains_key(q2) && request@ == Some(gallery@[q2]),
            ));
        }
        idx = idx + 1;
    }
    proof {
        assert(spec_chain.take(n as int) =~= spec_chain);
        assert(validated@ =~= validated_set(gallery@, request@, session@, path@));
    }
    Ok((validated, persist))
}

} // verus!

