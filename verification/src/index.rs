//! The in-memory gallery index: for every logical path, the ordered list of
//! photos visible there, with the password requirements each carries, plus
//! the password map, the subdirectory listings, the per-directory resolved
//! configurations and the credential-aware visibility counts.
//!
//! All mutation happens during a rebuild; readers work on the built value.
//! Callers that share the index across threads wrap it in a lock.

use vstd::prelude::*;

use crate::config::Config;
use crate::password::{access_granted, check_access, validated_set, OptionalPassword, Passwords, PasswordError};
use crate::photo::Photo;
use crate::subdirs::Subdirs;

verus! {

/// One photo as it appears in one path's listing: the shared record plus
/// the ordered (path, password) pairs a caller must hold to see it there.
#[derive(Debug)]
pub struct CachedPhoto {
    /// The underlying photo record. Every listing of the same photo shows
    /// the same record; the index is rebuilt whole when a record changes.
    pub photo: Photo,
    /// The (path, password) pairs required to view the photo here.
    pub passwords: Vec<(String, String)>,
}

impl CachedPhoto {
    /// A listing entry for a photo.
    pub fn new(photo: Photo, passwords: Vec<(String, String)>) -> (r: CachedPhoto)
        ensures
            r.photo == photo,
            r.passwords == passwords,
    {
        CachedPhoto { photo, passwords }
    }

    /// A listing entry showing the same record as an existing entry, with
    /// its own password requirements.
    pub fn clone_from(other: &CachedPhoto, passwords: Vec<(String, String)>) -> (r: CachedPhoto)
        ensures
            r.photo == other.photo,
            r.passwords == passwords,
    {
        CachedPhoto { photo: other.photo.clone(), passwords }
    }
}

impl Clone for CachedPhoto {
    fn clone(&self) -> (r: Self)
        ensures
            r.photo == self.photo,
            r.passwords@ == self.passwords@,
    {
        CachedPhoto { photo: self.photo.clone(), passwords: clone_pairs(&self.passwords) }
    }
}

/// Clone a list of (path, password) pairs.
pub fn clone_pairs(pairs: &Vec<(String, String)>) -> (r: Vec<(String, String)>)
    ensures
        r@ =~= pairs@,
{
    let n = pairs.len();
    let mut r: Vec<(String, String)> = Vec::new();
    let mut i: usize = 0;
    while i < n
        invariant
            n == pairs@.len(),
            0 <= i <= n,
            r@ =~= pairs@.take(i as int),
        decreases n - i,
    {
        r.push((pairs[i].0.clone(), pairs[i].1.clone()));
        proof {
            assert(r@ =~= pairs@.take(i + 1));
        }
        i = i + 1;
    }
    proof {
        assert(pairs@.take(n as int) =~= pairs@);
    }
    r
}

/// One path's listing.
#[derive(Debug)]
pub struct PathEntry {
    pub path: String,
    pub photos: Vec<CachedPhoto>,
}

/// One bucket of the visibility-count aggregate: how many photos of a path
/// require exactly this list of password paths.
#[derive(Debug)]
pub struct CountBucket {
    pub key: Vec<String>,
    pub n: usize,
}

/// The aggregate for one path.
#[derive(Debug)]
pub struct CountEntry {
    pub path: String,
    pub buckets: Vec<CountBucket>,
}

/// The in-memory gallery index.
#[derive(Debug)]
pub struct Gallery {
    gallery: Vec<PathEntry>,
    photos: Vec<Photo>,
    subdirs: Vec<(String, Subdirs)>,
    passwords: Passwords,
    counts: Vec<CountEntry>,
    subdirs_configs: Vec<(String, Config)>,
}

/// Whether a listing entry is visible to a caller holding `creds`: every
/// (path, password) pair it carries must be present with the same value.
pub open spec fn cp_passes(cp: CachedPhoto, creds: Map<Seq<char>, Seq<char>>) -> bool {
    forall|k: int|
        0 <= k < cp.passwords@.len() ==> creds.contains_key(
            (#[trigger] cp.passwords@[k]).0@,
        ) && creds[cp.passwords@[k].0@] == cp.passwords@[k].1@
}

/// Whether a count bucket's password paths are all covered by `creds`.
pub open spec fn key_satisfied(key: Seq<String>, creds: Map<Seq<char>, Seq<char>>) -> bool {
    forall|k: int| 0 <= k < key.len() ==> creds.contains_key((#[trigger] key[k])@)
}

/// Credentials are validated: every credential names a protected path and
/// carries that path's password. The credential sets handed out by the
/// access check are of this shape.
pub open spec fn creds_ok(
    passwords: Map<Seq<char>, Seq<char>>,
    creds: Map<Seq<char>, Seq<char>>,
) -> bool {
    forall|q: Seq<char>|
        #[trigger] creds.contains_key(q) ==> passwords.contains_key(q) && creds[q] == passwords[q]
}

/// A listing entry's password pairs agree with the index's password map.
pub open spec fn cp_pairs_ok(cp: CachedPhoto, passwords: Map<Seq<char>, Seq<char>>) -> bool {
    forall|k: int|
        0 <= k < cp.passwords@.len() ==> passwords.contains_key(
            (#[trigger] cp.passwords@[k]).0@,
        ) && passwords[cp.passwords@[k].0@] == cp.passwords@[k].1@
}

/// How many of the listed photos pass for `creds`.
pub open spec fn count_passing(cps: Seq<CachedPhoto>, creds: Map<Seq<char>, Seq<char>>) -> int
    decreases cps.len(),
{
    if cps.len() == 0 {
        0
    } else {
        count_passing(cps.drop_last(), creds) + (if cp_passes(cps.last(), creds) {
            1int
        } else {
            0int
        })
    }
}

/// The aggregate total for `creds`: the buckets whose password paths are
/// all covered, summed.
pub open spec fn sum_satisfied(buckets: Seq<CountBucket>, creds: Map<Seq<char>, Seq<char>>) -> int
    decreases buckets.len(),
{
    if buckets.len() == 0 {
        0
    } else {
        sum_satisfied(buckets.drop_last(), creds) + (if key_satisfied(
            buckets.last().key@,
            creds,
        ) {
            buckets.last().n as int
        } else {
            0int
        })
    }
}

/// The password paths a listing entry requires.
pub open spec fn cp_key_views(cp: CachedPhoto) -> Seq<Seq<char>> {
    cp.passwords@.map_values(|pr: (String, String)| pr.0@)
}

/// The password paths of a key, as views.
pub open spec fn key_views(key: Seq<String>) -> Seq<Seq<char>> {
    key.map_values(|s: String| s@)
}

/// For validated credentials, a photo passes exactly when every password
/// path it names is covered: the values are pinned by the password map on
/// both sides.
proof fn lemma_pass_iff_satisfied(
    cp: CachedPhoto,
    passwords: Map<Seq<char>, Seq<char>>,
    creds: Map<Seq<char>, Seq<char>>,
    key: Seq<String>,
)
    requires
        cp_pairs_ok(cp, passwords),
        creds_ok(passwords, creds),
        key_views(key) == cp_key_views(cp),
    ensures
        cp_passes(cp, creds) == key_satisfied(key, creds),
{
    assert(key.len() == cp.passwords@.len()) by {
        assert(key_views(key).len() == key.len());
        assert(cp_key_views(cp).len() == cp.passwords@.len());
    }
    if key_satisfied(key, creds) {
        assert forall|k: int|
            0 <= k < cp.passwords@.len() implies creds.contains_key(
            (#[trigger] cp.passwords@[k]).0@,
        ) && creds[cp.passwords@[k].0@] == cp.passwords@[k].1@ by {
            assert(key_views(key)[k] == key[k]@);
            assert(cp_key_views(cp)[k] == cp.passwords@[k].0@);
            assert(key[k]@ == cp.passwords@[k].0@);
            assert(creds.contains_key(key[k]@));
            assert(passwords.contains_key(cp.passwords@[k].0@) && passwords[cp.passwords@[k].0@]
                == cp.passwords@[k].1@);
        }
    }
    if cp_passes(cp, creds) {
        assert forall|k: int| 0 <= k < key.len() implies creds.contains_key(
            (#[trigger] key[k])@,
        ) by {
            assert(key_views(key)[k] == key[k]@);
            assert(cp_key_views(cp)[k] == cp.passwords@[k].0@);
            assert(creds.contains_key(cp.passwords@[k].0@));
        }
    }
}

/// Incrementing one bucket raises the aggregate total by one exactly for
/// the credentials that cover that bucket's paths.
proof fn lemma_sum_update(
    buckets: Seq<CountBucket>,
    bi: int,
    b2: CountBucket,
    creds: Map<Seq<char>, Seq<char>>,
)
    requires
        0 <= bi < buckets.len(),
        key_views(b2.key@) == key_views(buckets[bi].key@),
        b2.n == buckets[bi].n + 1,
    ensures
        sum_satisfied(buckets.update(bi, b2), creds) == sum_satisfied(buckets, creds) + (
        if key_satisfied(buckets[bi].key@, creds) {
            1int
        } else {
            0int
        }),
    decreases buckets.len(),
{
    lemma_key_views_satisfied(b2.key@, buckets[bi].key@, creds);
    let s2 = buckets.update(bi, b2);
    if bi == buckets.len() - 1 {
        assert(s2.drop_last() =~= buckets.drop_last());
        assert(s2.last() == b2);
    } else {
        assert(s2.drop_last() =~= buckets.drop_last().update(bi, b2));
        lemma_sum_update(buckets.drop_last(), bi, b2, creds);
        assert(s2.last() == buckets.last());
    }
}

/// Keys with the same paths are covered by the same credentials.
proof fn lemma_key_views_satisfied(
    a: Seq<String>,
    b: Seq<String>,
    creds: Map<Seq<char>, Seq<char>>,
)
    requires
        key_views(a) == key_views(b),
    ensures
        key_satisfied(a, creds) == key_satisfied(b, creds),
{
    assert(a.len() == b.len()) by {
        assert(key_views(a).len() == a.len());
    }
    if key_satisfied(a, creds) {
        assert forall|k: int| 0 <= k < b.len() implies creds.contains_key(
            (#[trigger] b[k])@,
        ) by {
            assert(key_views(a)[k] == a[k]@);
            assert(creds.contains_key(a[k]@));
        }
    }
    if key_satisfied(b, creds) {
        assert forall|k: int| 0 <= k < a.len() implies creds.contains_key(
            (#[trigger] a[k])@,
        ) by {
            assert(key_views(b)[k] == b[k]@);
            assert(creds.contains_key(b[k]@));
        }
    }
}

/// The password paths of a listing entry, as owned strings.
fn cp_key(cp: &CachedPhoto) -> (r: Vec<String>)
    ensures
        key_views(r@) == cp_key_views(*cp),
{
    let n = cp.passwords.len();
    let mut r: Vec<String> = Vec::new();
    let mut k: usize = 0;
    while k < n
        invariant
            n == cp.passwords@.len(),
            0 <= k <= n,
            r@.len() == k,
            forall|m: int| 0 <= m < k ==> (#[trigger] r@[m])@ == cp.passwords@[m].0@,
        decreases n - k,
    {
        r.push(cp.passwords[k].0.clone());
        k = k + 1;
    }
    proof {
        assert(key_views(r@) =~= cp_key_views(*cp));
    }
    r
}

/// Equality of two keys' paths.
fn keys_eq(a: &Vec<String>, b: &Vec<String>) -> (r: bool)
    ensures
        r == (key_views(a@) == key_views(b@)),
{
    if a.len() != b.len() {
        proof {
            assert(key_views(a@).len() != key_views(b@).len());
        }
        return false;
    }
    let n = a.len();
    let mut k: usize = 0;
    while k < n
        invariant
            n == a@.len(),
            n == b@.len(),
            0 <= k <= n,
            forall|m: int| 0 <= m < k ==> (#[trigger] a@[m])@ == b@[m]@,
        decreases n - k,
    {
        if !crate::strutil::str_eq(a[k].as_str(), b[k].as_str()) {
            proof {
                assert(key_views(a@)[k as int] != key_views(b@)[k as int]);
            }
            return false;
        }
        k = k + 1;
    }
    proof {
        assert(key_views(a@) =~= key_views(b@));
    }
    true
}

/// Group a path's photos by the exact list of password paths they require.
fn build_buckets(cps: &Vec<CachedPhoto>, passwords: &Passwords) -> (r: Vec<CountBucket>)
    requires
        passwords.wf(),
        forall|k: int| 0 <= k < cps@.len() ==> cp_pairs_ok(#[trigger] cps@[k], passwords@),
    ensures
        forall|creds: Map<Seq<char>, Seq<char>>|
            creds_ok(passwords@, creds) ==> #[trigger] sum_satisfied(r@, creds) == count_passing(
                cps@,
                creds,
            ),
{
    let n = cps.len();
    let mut buckets: Vec<CountBucket> = Vec::new();
    let mut k: usize = 0;
    proof {
        assert(cps@.take(0) =~= Seq::<CachedPhoto>::empty());
    }
    while k < n
        invariant
            passwords.wf(),
            forall|m: int| 0 <= m < cps@.len() ==> cp_pairs_ok(#[trigger] cps@[m], passwords@),
            n == cps@.len(),
            0 <= k <= n,
            forall|b: int| 0 <= b < buckets@.len() ==> (#[trigger] buckets@[b]).n <= k,
            forall|creds: Map<Seq<char>, Seq<char>>|
                creds_ok(passwords@, creds) ==> #[trigger] sum_satisfied(buckets@, creds)
                    == count_passing(cps@.take(k as int), creds),
        decreases n - k,
    {
        let key = cp_key(&cps[k]);
        let nb = buckets.len();
        let mut bi: usize = 0;
        let mut found = false;
        while bi < nb && !found
            invariant
                nb == buckets@.len(),
                0 <= bi <= nb,
                found ==> bi < nb && key_views(buckets@[bi as int].key@) == key_views(key@),
            decreases nb - bi + (if found {
                0int
            } else {
                1int
            }),
        {
            if keys_eq(&buckets[bi].key, &key) {
                found = true;
            } else {
                bi = bi + 1;
            }
        }
        let ghost buckets_old = buckets@;
        let ghost cp = cps@[k as int];
        if found {
            let b2 = CountBucket { key: key, n: buckets[bi].n + 1 };
            let ghost b2g = b2;
            buckets[bi] = b2;
            proof {
                assert forall|creds: Map<Seq<char>, Seq<char>>|
                    creds_ok(passwords@, creds) implies #[trigger] sum_satisfied(
                    buckets@,
                    creds,
                ) == count_passing(cps@.take(k + 1), creds) by {
                    assert(sum_satisfied(buckets_old, creds) == count_passing(
                        cps@.take(k as int),
                        creds,
                    ));
                    assert(buckets@ == buckets_old.update(bi as int, b2g));
                    lemma_sum_update(buckets_old, bi as int, b2g, creds);
                    lemma_pass_iff_satisfied(cp, passwords@, creds, buckets_old[bi as int].key@);
                    assert(cps@.take(k + 1).drop_last() =~= cps@.take(k as int));
                    assert(cps@.take(k + 1).last() == cp);
                    lemma_key_views_satisfied(buckets_old[bi as int].key@, b2g.key@, creds);
                    assert(count_passing(cps@.take(k + 1), creds) == count_passing(
                        cps@.take(k as int),
                        creds,
                    ) + (if cp_passes(cp, creds) {
                        1int
                    } else {
                        0int
                    }));
                }
            }
        } else {
            let b2 = CountBucket { key: key, n: 1 };
            let ghost b2g = b2;
            buckets.push(b2);
            proof {
                assert forall|creds: Map<Seq<char>, Seq<char>>|
                    creds_ok(passwords@, creds) implies #[trigger] sum_satisfied(
                    buckets@,
                    creds,
                ) == count_passing(cps@.take(k + 1), creds) by {
                    assert(sum_satisfied(buckets_old, creds) == count_passing(
                        cps@.take(k as int),
                        creds,
                    ));
                    assert(buckets@.drop_last() =~= buckets_old);
                    assert(buckets@.last() == b2g);
                    lemma_pass_iff_satisfied(cp, passwords@, creds, b2g.key@);
                    assert(cps@.take(k + 1).drop_last() =~= cps@.take(k as int));
                    assert(cps@.take(k + 1).last() == cp);
                    assert(count_passing(cps@.take(k + 1), creds) == count_passing(
                        cps@.take(k as int),
                        creds,
                    ) + (if cp_passes(cp, creds) {
                        1int
                    } else {
                        0int
                    }));
                }
            }
        }
        k = k + 1;
    }
    proof {
        assert(cps@.take(n as int) =~= cps@);
    }
    buckets
}

/// The names of a subdirectory listing's visible entries, in order.
pub open spec fn visible_names(sd: Seq<(Seq<char>, bool)>) -> Seq<Seq<char>> {
    sd.filter(|e: (Seq<char>, bool)| !e.1).map_values(|e: (Seq<char>, bool)| e.0)
}

proof fn lemma_filter_all_visible(s: Seq<(Seq<char>, bool)>)
    requires
        forall|t: int| 0 <= t < s.len() ==> !(#[trigger] s[t]).1,
    ensures
        s.filter(|e: (Seq<char>, bool)| !e.1) == s,
    decreases s.len(),
{
    reveal(Seq::filter);
    if s.len() > 0 {
        lemma_filter_all_visible(s.drop_last());
        assert(s.drop_last().filter(|e: (Seq<char>, bool)| !e.1).push(s.last()) =~= s);
    }
}

proof fn lemma_exists_step(configs: Seq<(String, Config)>, p: Seq<char>, c: int)
    requires
        0 <= c < configs.len(),
    ensures
        (exists|j: int|
            0 <= j < c + 1 && (#[trigger] configs[j]).0@ == p
                && configs[j].1.REVERSE_SORT_ORDER) == ((exists|j: int|
            0 <= j < c && (#[trigger] configs[j]).0@ == p && configs[j].1.REVERSE_SORT_ORDER) || (
        configs[c].0@ == p && configs[c].1.REVERSE_SORT_ORDER)),
{
    if exists|j: int|
        0 <= j < c + 1 && (#[trigger] configs[j]).0@ == p && configs[j].1.REVERSE_SORT_ORDER {
        let j = choose|j: int|
            0 <= j < c + 1 && (#[trigger] configs[j]).0@ == p
                && configs[j].1.REVERSE_SORT_ORDER;
        if j < c {
            assert(exists|j2: int|
                0 <= j2 < c && (#[trigger] configs[j2]).0@ == p
                    && configs[j2].1.REVERSE_SORT_ORDER);
        }
    }
}

/// Prepending an element adds its contribution to the passing count.
proof fn lemma_count_passing_prepend(
    x: CachedPhoto,
    s: Seq<CachedPhoto>,
    creds: Map<Seq<char>, Seq<char>>,
)
    ensures
        count_passing(seq![x] + s, creds) == count_passing(s, creds) + (if cp_passes(x, creds) {
            1int
        } else {
            0int
        }),
    decreases s.len(),
{
    if s.len() == 0 {
        assert(seq![x] + s =~= seq![x]);
        assert((seq![x]).drop_last() =~= Seq::<CachedPhoto>::empty());
        assert((seq![x]).last() == x);
        assert(count_passing(Seq::<CachedPhoto>::empty(), creds) == 0);
        assert(count_passing(seq![x], creds) == (if cp_passes(x, creds) {
            1int
        } else {
            0int
        }));
    } else {
        assert((seq![x] + s).drop_last() =~= seq![x] + s.drop_last());
        assert((seq![x] + s).last() == s.last());
        lemma_count_passing_prepend(x, s.drop_last(), creds);
        assert(count_passing(seq![x] + s, creds) == count_passing(seq![x] + s.drop_last(), creds)
            + (if cp_passes(s.last(), creds) {
            1int
        } else {
            0int
        }));
        assert(count_passing(s, creds) == count_passing(s.drop_last(), creds) + (if cp_passes(
            s.last(),
            creds,
        ) {
            1int
        } else {
            0int
        }));
    }
}

/// Reversal keeps the passing count: the same photos are listed.
proof fn lemma_count_passing_reverse(s: Seq<CachedPhoto>, creds: Map<Seq<char>, Seq<char>>)
    ensures
        count_passing(s.reverse(), creds) == count_passing(s, creds),
    decreases s.len(),
{
    if s.len() > 0 {
        assert(s.reverse() =~= seq![s.last()] + s.drop_last().reverse());
        lemma_count_passing_prepend(s.last(), s.drop_last().reverse(), creds);
        lemma_count_passing_reverse(s.drop_last(), creds);
    }
}

/// The photos of a listing that a caller's credentials admit, in order.
pub open spec fn admitted(cps: Seq<CachedPhoto>, creds: Map<Seq<char>, Seq<char>>) -> Seq<Photo> {
    cps.filter(|cp: CachedPhoto| cp_passes(cp, creds)).map_values(|cp: CachedPhoto| cp.photo)
}

/// Position of the first admitted photo with the given identifier.
pub open spec fn first_uid_index(adm: Seq<Photo>, u: Seq<char>) -> Option<int>
    decreases adm.len(),
{
    if adm.len() == 0 {
        None
    } else if adm[0].uid@ == u {
        Some(0int)
    } else {
        match first_uid_index(adm.drop_first(), u) {
            Some(i) => Some(i + 1),
            None => None,
        }
    }
}

proof fn lemma_first_uid_index(adm: Seq<Photo>, u: Seq<char>, j: int)
    requires
        0 <= j < adm.len(),
        adm[j].uid@ == u,
        forall|t: int| 0 <= t < j ==> (#[trigger] adm[t]).uid@ != u,
    ensures
        first_uid_index(adm, u) == Some(j),
    decreases j,
{
    if j > 0 {
        lemma_first_uid_index(adm.drop_first(), u, j - 1);
    }
}

proof fn lemma_no_uid_index(adm: Seq<Photo>, u: Seq<char>)
    requires
        forall|t: int| 0 <= t < adm.len() ==> (#[trigger] adm[t]).uid@ != u,
    ensures
        first_uid_index(adm, u) is None,
    decreases adm.len(),
{
    if adm.len() > 0 {
        lemma_no_uid_index(adm.drop_first(), u);
    }
}

/// The admitted count equals the aggregate's notion of passing photos.
proof fn lemma_count_passing_is_admitted(cps: Seq<CachedPhoto>, creds: Map<Seq<char>, Seq<char>>)
    ensures
        count_passing(cps, creds) == admitted(cps, creds).len(),
    decreases cps.len(),
{
    reveal(Seq::filter);
    if cps.len() > 0 {
        lemma_count_passing_is_admitted(cps.drop_last(), creds);
    }
}

proof fn lemma_count_passing_bounds(cps: Seq<CachedPhoto>, creds: Map<Seq<char>, Seq<char>>)
    ensures
        0 <= count_passing(cps, creds) <= cps.len(),
    decreases cps.len(),
{
    if cps.len() > 0 {
        lemma_count_passing_bounds(cps.drop_last(), creds);
    }
}

proof fn lemma_sum_nonneg(buckets: Seq<CountBucket>, creds: Map<Seq<char>, Seq<char>>)
    ensures
        sum_satisfied(buckets, creds) >= 0,
    decreases buckets.len(),
{
    if buckets.len() > 0 {
        lemma_sum_nonneg(buckets.drop_last(), creds);
    }
}

proof fn lemma_sum_prefix(buckets: Seq<CountBucket>, creds: Map<Seq<char>, Seq<char>>, b: int)
    requires
        0 <= b <= buckets.len(),
    ensures
        sum_satisfied(buckets.take(b), creds) <= sum_satisfied(buckets, creds),
    decreases buckets.len() - b,
{
    if b == buckets.len() {
        assert(buckets.take(b) =~= buckets);
    } else {
        assert(buckets.take(b + 1).drop_last() =~= buckets.take(b));
        assert(buckets.take(b + 1).last() == buckets[b]);
        lemma_sum_prefix(buckets, creds, b + 1);
    }
}

/// Whether the caller's credentials admit this listing entry.
pub fn cp_passes_exec(cp: &CachedPhoto, creds: &Passwords) -> (r: bool)
    requires
        creds.wf(),
    ensures
        r == cp_passes(*cp, creds@),
{
    let n = cp.passwords.len();
    let mut k: usize = 0;
    while k < n
        invariant
            creds.wf(),
            n == cp.passwords@.len(),
            0 <= k <= n,
            forall|m: int|
                0 <= m < k ==> creds@.contains_key((#[trigger] cp.passwords@[m]).0@)
                    && creds@[cp.passwords@[m].0@] == cp.passwords@[m].1@,
        decreases n - k,
    {
        match creds.get(cp.passwords[k].0.as_str()) {
            Some(v) => {
                if !crate::strutil::str_eq(v.as_str(), cp.passwords[k].1.as_str()) {
                    return false;
                }
            },
            None => {
                return false;
            },
        }
        k = k + 1;
    }
    true
}

/// Whether the caller's credentials cover every path of a bucket key.
fn key_satisfied_exec(key: &Vec<String>, creds: &Passwords) -> (r: bool)
    requires
        creds.wf(),
    ensures
        r == key_satisfied(key@, creds@),
{
    let n = key.len();
    let mut k: usize = 0;
    while k < n
        invariant
            creds.wf(),
            n == key@.len(),
            0 <= k <= n,
            forall|m: int| 0 <= m < k ==> creds@.contains_key((#[trigger] key@[m])@),
        decreases n - k,
    {
        if !creds.contains_key(key[k].as_str()) {
            return false;
        }
        k = k + 1;
    }
    true
}

/// A read-consistent page over one path's listing: the photos the caller
/// may see in the selected window, with the window's coordinates in the
/// credential-filtered listing.
#[derive(Debug)]
pub struct GalleryReadLock {
    /// The photos of the window, in listing order.
    pub photos: Vec<Photo>,
    /// Position of the window's first photo among the visible photos.
    pub start: usize,
    /// Number of photos in the window.
    pub max_count: usize,
    /// Total number of visible photos at the path for these credentials.
    pub total: usize,
}

impl View for GalleryReadLock {
    type V = Seq<Photo>;

    open spec fn view(&self) -> Seq<Photo> {
        self.photos@
    }
}

impl GalleryReadLock {
    /// Iterate over the window's photos.
    pub fn iter<'a>(&'a self) -> (r: GalleryReadIterator<'a>)
        ensures
            r.items() == self@,
            r.pos() == 0,
    {
        GalleryReadIterator { lock: self, index: 0 }
    }
}

/// Iterator over a read view's window.
pub struct GalleryReadIterator<'a> {
    lock: &'a GalleryReadLock,
    index: usize,
}

impl<'a> GalleryReadIterator<'a> {
    /// The photos the iterator walks.
    pub closed spec fn items(&self) -> Seq<Photo> {
        self.lock.photos@
    }

    /// How many photos have been handed out.
    pub closed spec fn pos(&self) -> int {
        self.index as int
    }

    /// The next photo of the window, if any is left.
    pub fn next(&mut self) -> (r: Option<&'a Photo>)
        ensures
            final(self).items() == old(self).items(),
            old(self).pos() < old(self).items().len() ==> ({
                &&& r matches Some(p) && *p == old(self).items()[old(self).pos()]
                &&& final(self).pos() == old(self).pos() + 1
            }),
            old(self).pos() >= old(self).items().len() ==> r is None && final(self).pos() == old(
                self,
            ).pos(),
    {
        if self.index < self.lock.photos.len() {
            let p = &self.lock.photos[self.index];
            self.index = self.index + 1;
            Some(p)
        } else {
            None
        }
    }
}

impl Gallery {
    /// Unique path keys in each of the internal association lists, and
    /// listing entries whose password pairs agree with the password map.
    pub closed spec fn wf(&self) -> bool {
        &&& (forall|i: int, j: int|
            0 <= i < j < self.gallery@.len() ==> (#[trigger] self.gallery@[i]).path@ != (
            #[trigger] self.gallery@[j]).path@)
        &&& (forall|i: int, j: int|
            0 <= i < j < self.photos@.len() ==> (#[trigger] self.photos@[i]).uid@ != (
            #[trigger] self.photos@[j]).uid@)
        &&& (forall|i: int, j: int|
            0 <= i < j < self.subdirs@.len() ==> (#[trigger] self.subdirs@[i]).0@ != (
            #[trigger] self.subdirs@[j]).0@)
        &&& (forall|i: int, j: int|
            0 <= i < j < self.subdirs_configs@.len() ==> (#[trigger] self.subdirs_configs@[i]).0@
                != (#[trigger] self.subdirs_configs@[j]).0@)
        &&& self.passwords.wf()
        &&& (forall|i: int, k: int|
            0 <= i < self.gallery@.len() && 0 <= k < (#[trigger] self.gallery@[i]).photos@.len()
                ==> cp_pairs_ok(#[trigger] self.gallery@[i].photos@[k], self.passwords@))
    }

    /// The password map of the index.
    pub closed spec fn passwords_view(&self) -> Map<Seq<char>, Seq<char>> {
        self.passwords@
    }

    /// Whether a path is listed.
    pub closed spec fn has_path(&self, p: Seq<char>) -> bool {
        exists|i: int| 0 <= i < self.gallery@.len() && (#[trigger] self.gallery@[i]).path@ == p
    }

    /// The listing of a path; empty when the path is unknown.
    pub closed spec fn photos_at(&self, p: Seq<char>) -> Seq<CachedPhoto> {
        if self.has_path(p) {
            let i = choose|i: int|
                0 <= i < self.gallery@.len() && (#[trigger] self.gallery@[i]).path@ == p;
            self.gallery@[i].photos@
        } else {
            Seq::empty()
        }
    }

    /// The records known by identifier.
    pub closed spec fn photo_by_uid(&self, u: Seq<char>) -> Option<Photo> {
        if exists|i: int|
            0 <= i < self.photos@.len() && (#[trigger] self.photos@[i]).uid@ == u {
            let i = choose|i: int|
                0 <= i < self.photos@.len() && (#[trigger] self.photos@[i]).uid@ == u;
            Some(self.photos@[i])
        } else {
            None
        }
    }

    /// Number of distinct photos in the index.
    pub closed spec fn photo_count(&self) -> int {
        self.photos@.len() as int
    }

    /// The subdirectory listing recorded for a path.
    pub closed spec fn subdirs_at(&self, p: Seq<char>) -> Option<Seq<(Seq<char>, bool)>> {
        if exists|i: int|
            0 <= i < self.subdirs@.len() && (#[trigger] self.subdirs@[i]).0@ == p {
            let i = choose|i: int|
                0 <= i < self.subdirs@.len() && (#[trigger] self.subdirs@[i]).0@ == p;
            Some(self.subdirs@[i].1@)
        } else {
            None
        }
    }

    /// The resolved configuration recorded for a path.
    pub closed spec fn config_at(&self, p: Seq<char>) -> Option<Config> {
        if exists|i: int|
            0 <= i < self.subdirs_configs@.len() && (#[trigger] self.subdirs_configs@[i]).0@
                == p {
            let i = choose|i: int|
                0 <= i < self.subdirs_configs@.len() && (#[trigger] self.subdirs_configs@[i]).0@
                    == p;
            Some(self.subdirs_configs@[i].1)
        } else {
            None
        }
    }

    /// The aggregate is aligned with the listings and correct: for every
    /// listed path and every validated credential set, summing the
    /// satisfied buckets counts exactly the photos the credentials admit.
    pub closed spec fn counts_fresh(&self) -> bool {
        &&& self.counts@.len() == self.gallery@.len()
        &&& (forall|i: int|
            0 <= i < self.counts@.len() ==> (#[trigger] self.counts@[i]).path@
                == self.gallery@[i].path@)
        &&& (forall|i: int, creds: Map<Seq<char>, Seq<char>>|
            0 <= i < self.counts@.len() && creds_ok(self.passwords@, creds)
                ==> #[trigger] sum_satisfied((#[trigger] self.counts@[i]).buckets@, creds)
                == count_passing(self.gallery@[i].photos@, creds))
    }

    /// Lookups depend only on the listing entries.
    proof fn lemma_gallery_frame(a: Gallery, b: Gallery)
        requires
            a.gallery@ == b.gallery@,
            forall|i: int, j: int|
                0 <= i < j < a.gallery@.len() ==> (#[trigger] a.gallery@[i]).path@ != (
                #[trigger] a.gallery@[j]).path@,
        ensures
            forall|p: Seq<char>| a.has_path(p) == b.has_path(p),
            forall|p: Seq<char>| a.photos_at(p) == b.photos_at(p),
    {
        assert forall|p: Seq<char>| a.has_path(p) == b.has_path(p) by {
            if a.has_path(p) {
                let i = choose|i: int|
                    0 <= i < a.gallery@.len() && (#[trigger] a.gallery@[i]).path@ == p;
                assert(b.gallery@[i].path@ == p);
            }
            if b.has_path(p) {
                let i = choose|i: int|
                    0 <= i < b.gallery@.len() && (#[trigger] b.gallery@[i]).path@ == p;
                assert(a.gallery@[i].path@ == p);
            }
        }
        assert forall|p: Seq<char>| a.photos_at(p) == b.photos_at(p) by {
            if a.has_path(p) {
                let i = choose|i: int|
                    0 <= i < a.gallery@.len() && (#[trigger] a.gallery@[i]).path@ == p;
                let j = choose|j: int|
                    0 <= j < b.gallery@.len() && (#[trigger] b.gallery@[j]).path@ == p;
                assert(a.gallery@[j].path@ == p);
                assert(i == j);
            }
        }
    }

    /// Record lookups depend only on the record list.
    proof fn lemma_photos_frame(a: Gallery, b: Gallery)
        requires
            a.photos@ == b.photos@,
            forall|i: int, j: int|
                0 <= i < j < a.photos@.len() ==> (#[trigger] a.photos@[i]).uid@ != (
                #[trigger] a.photos@[j]).uid@,
        ensures
            forall|u: Seq<char>| a.photo_by_uid(u) == b.photo_by_uid(u),
    {
        assert forall|u: Seq<char>| a.photo_by_uid(u) == b.photo_by_uid(u) by {
            if exists|i: int|
                0 <= i < a.photos@.len() && (#[trigger] a.photos@[i]).uid@ == u {
                let i = choose|i: int|
                    0 <= i < a.photos@.len() && (#[trigger] a.photos@[i]).uid@ == u;
                assert(b.photos@[i].uid@ == u);
                let j = choose|j: int|
                    0 <= j < b.photos@.len() && (#[trigger] b.photos@[j]).uid@ == u;
                assert(a.photos@[j].uid@ == u);
                assert(i == j);
            } else {
                assert(forall|i: int|
                    0 <= i < b.photos@.len() ==> (#[trigger] b.photos@[i]).uid@ != u);
            }
        }
    }

    /// Subdirectory lookups depend only on the subdirectory list.
    proof fn lemma_subdirs_frame(a: Gallery, b: Gallery)
        requires
            a.subdirs@ == b.subdirs@,
            forall|i: int, j: int|
                0 <= i < j < a.subdirs@.len() ==> (#[trigger] a.subdirs@[i]).0@ != (
                #[trigger] a.subdirs@[j]).0@,
        ensures
            forall|p: Seq<char>| a.subdirs_at(p) == b.subdirs_at(p),
    {
        assert forall|p: Seq<char>| a.subdirs_at(p) == b.subdirs_at(p) by {
            if exists|i: int|
                0 <= i < a.subdirs@.len() && (#[trigger] a.subdirs@[i]).0@ == p {
                let i = choose|i: int|
                    0 <= i < a.subdirs@.len() && (#[trigger] a.subdirs@[i]).0@ == p;
                assert(b.subdirs@[i].0@ == p);
                let j = choose|j: int|
                    0 <= j < b.subdirs@.len() && (#[trigger] b.subdirs@[j]).0@ == p;
                assert(a.subdirs@[j].0@ == p);
                assert(i == j);
            } else {
                assert(forall|i: int|
                    0 <= i < b.subdirs@.len() ==> (#[trigger] b.subdirs@[i]).0@ != p);
            }
        }
    }

    /// Configuration lookups depend only on the configuration list.
    proof fn lemma_configs_frame(a: Gallery, b: Gallery)
        requires
            a.subdirs_configs@ == b.subdirs_configs@,
            forall|i: int, j: int|
                0 <= i < j < a.subdirs_configs@.len() ==> (#[trigger] a.subdirs_configs@[i]).0@
                    != (#[trigger] a.subdirs_configs@[j]).0@,
        ensures
            forall|p: Seq<char>| a.config_at(p) == b.config_at(p),
    {
        assert forall|p: Seq<char>| a.config_at(p) == b.config_at(p) by {
            if exists|i: int|
                0 <= i < a.subdirs_configs@.len() && (#[trigger] a.subdirs_configs@[i]).0@ == p {
                let i = choose|i: int|
                    0 <= i < a.subdirs_configs@.len() && (#[trigger] a.subdirs_configs@[i]).0@
                        == p;
                assert(b.subdirs_configs@[i].0@ == p);
                let j = choose|j: int|
                    0 <= j < b.subdirs_configs@.len() && (#[trigger] b.subdirs_configs@[j]).0@
                        == p;
                assert(a.subdirs_configs@[j].0@ == p);
                assert(i == j);
            } else {
                assert(forall|i: int|
                    0 <= i < b.subdirs_configs@.len() ==> (#[trigger] b.subdirs_configs@[i]).0@
                        != p);
            }
        }
    }

    /// An empty index.
    pub fn new() -> (r: Gallery)
        ensures
            r.wf(),
            forall|p: Seq<char>| !r.has_path(p),
            forall|u: Seq<char>| r.photo_by_uid(u) is None,
            forall|p: Seq<char>| r.subdirs_at(p) is None,
            forall|p: Seq<char>| r.config_at(p) is None,
            r.passwords_view() == Map::<Seq<char>, Seq<char>>::empty(),
            r.photo_count() == 0,
            r.counts_fresh(),
    {
        Gallery {
            gallery: Vec::new(),
            photos: Vec::new(),
            subdirs: Vec::new(),
            passwords: Passwords::new(),
            counts: Vec::new(),
            subdirs_configs: Vec::new(),
        }
    }

    /// Total number of photos in the index.
    pub fn len(&self) -> (r: usize)
        ensures
            r == self.photo_count(),
    {
        self.photos.len()
    }

    /// Remove every photo, listing and password; the subdirectory
    /// listings, configurations and the stale aggregate stay until the
    /// next rebuild recomputes them.
    pub fn clear(&mut self)
        requires
            old(self).wf(),
        ensures
            final(self).wf(),
            forall|p: Seq<char>| !final(self).has_path(p),
            forall|u: Seq<char>| final(self).photo_by_uid(u) is None,
            final(self).passwords_view() == Map::<Seq<char>, Seq<char>>::empty(),
            final(self).photo_count() == 0,
            forall|p: Seq<char>| final(self).subdirs_at(p) == old(self).subdirs_at(p),
            forall|p: Seq<char>| final(self).config_at(p) == old(self).config_at(p),
    {
        self.gallery.clear();
        self.photos.clear();
        self.passwords = Passwords::new();
        proof {
            Self::lemma_subdirs_frame(*old(self), *self);
            Self::lemma_configs_frame(*old(self), *self);
        }
    }

    /// Index of a path's listing.
    fn find_path_index(&self, path: &str) -> (r: Option<usize>)
        requires
            self.wf(),
        ensures
            match r {
                Some(i) => i < self.gallery@.len() && self.gallery@[i as int].path@ == path@
                    && self.has_path(path@) && self.photos_at(path@) == self.gallery@[
                    i as int
                ].photos@,
                None => !self.has_path(path@),
            },
    {
        let n = self.gallery.len();
        let mut i: usize = 0;
        while i < n
            invariant
                self.wf(),
                n == self.gallery@.len(),
                0 <= i <= n,
                forall|k: int| 0 <= k < i ==> (#[trigger] self.gallery@[k]).path@ != path@,
            decreases n - i,
        {
            if crate::strutil::str_eq(self.gallery[i].path.as_str(), path) {
                proof {
                    let j = choose|j: int|
                        0 <= j < self.gallery@.len() && (#[trigger] self.gallery@[j]).path@
                            == path@;
                    assert(j == i as int);
                }
                return Some(i);
            }
            i = i + 1;
        }
        None
    }

    /// Record a path, with an empty listing if it was not listed yet.
    pub fn insert_path(&mut self, path: &str)
        requires
            old(self).wf(),
        ensures
            final(self).wf(),
            final(self).has_path(path@),
            final(self).photos_at(path@) == old(self).photos_at(path@),
            forall|q: Seq<char>| final(self).has_path(q) == (old(self).has_path(q) || q == path@),
            forall|q: Seq<char>|
                q != path@ ==> final(self).photos_at(q) == old(self).photos_at(q),
            final(self).passwords_view() == old(self).passwords_view(),
            forall|u: Seq<char>| final(self).photo_by_uid(u) == old(self).photo_by_uid(u),
            forall|q: Seq<char>| final(self).subdirs_at(q) == old(self).subdirs_at(q),
            forall|q: Seq<char>| final(self).config_at(q) == old(self).config_at(q),
            final(self).photo_count() == old(self).photo_count(),
    {
        match self.find_path_index(path) {
            Some(_) => {},
            None => {
                let ghost g_old = self.gallery@;
                self.gallery.push(PathEntry { path: path.to_owned(), photos: Vec::new() });
                proof {
                    assert forall|q: Seq<char>| final(self).has_path(q) == (old(self).has_path(q)
                        || q == path@) by {
                        if old(self).has_path(q) {
                            let i = choose|i: int|
                                0 <= i < g_old.len() && (#[trigger] g_old[i]).path@ == q;
                            assert(self.gallery@[i].path@ == q);
                        }
                        if q == path@ {
                            assert(self.gallery@[g_old.len() as int].path@ == q);
                        }
                        if final(self).has_path(q) {
                            let i = choose|i: int|
                                0 <= i < self.gallery@.len() && (#[trigger] self.gallery@[i]).path@
                                    == q;
                            if i < g_old.len() {
                                assert(g_old[i].path@ == q);
                            }
                        }
                    }
                    assert forall|q: Seq<char>|
                        q != path@ && final(self).has_path(q) implies final(self).photos_at(q)
                        == old(self).photos_at(q) by {
                        let i = choose|i: int|
                            0 <= i < self.gallery@.len() && (#[trigger] self.gallery@[i]).path@
                                == q;
                        let j = choose|j: int|
                            0 <= j < g_old.len() && (#[trigger] g_old[j]).path@ == q;
                        assert(self.gallery@[j].path@ == q);
                        assert(i == j);
                    }
                    assert(final(self).photos_at(path@) =~= Seq::<CachedPhoto>::empty());
                    assert(old(self).photos_at(path@) =~= Seq::<CachedPhoto>::empty());
                    Self::lemma_photos_frame(*old(self), *self);
                    Self::lemma_subdirs_frame(*old(self), *self);
                    Self::lemma_configs_frame(*old(self), *self);
                }
            },
        }
        proof {
            if old(self).has_path(path@) {
                Self::lemma_gallery_frame(*old(self), *self);
                Self::lemma_photos_frame(*old(self), *self);
                Self::lemma_subdirs_frame(*old(self), *self);
                Self::lemma_configs_frame(*old(self), *self);
            }
        }
    }

    /// Whether the path is listed.
    pub fn path_exists(&self, path: &str) -> (r: bool)
        requires
            self.wf(),
        ensures
            r == self.has_path(path@),
    {
        self.find_path_index(path).is_some()
    }

    /// A copy of the record with the given identifier, if any.
    pub fn get_from_uid(&self, uid: &crate::uid::UID) -> (r: Option<Photo>)
        requires
            self.wf(),
        ensures
            r == self.photo_by_uid(uid@),
    {
        let n = self.photos.len();
        let mut i: usize = 0;
        while i < n
            invariant
                self.wf(),
                n == self.photos@.len(),
                0 <= i <= n,
                forall|k: int| 0 <= k < i ==> (#[trigger] self.photos@[k]).uid@ != uid@,
            decreases n - i,
        {
            if crate::strutil::str_eq(self.photos[i].uid.as_str(), uid.as_str()) {
                let r = Some(self.photos[i].clone());
                proof {
                    assert(self.photos@[i as int].uid@ == uid@);
                    let j = choose|j: int|
                        0 <= j < self.photos@.len() && (#[trigger] self.photos@[j]).uid@ == uid@;
                    if j < i as int {
                        assert(self.photos@[j].uid@ != self.photos@[i as int].uid@);
                    } else if j > i as int {
                        assert(self.photos@[i as int].uid@ != self.photos@[j].uid@);
                    }
                    assert(j == i as int);
                }
                return r;
            }
            i = i + 1;
        }
        None
    }

    /// The index's password map.
    pub fn get_passwords(&self) -> (r: &Passwords)
        ensures
            r@ == self.passwords_view(),
            self.wf() ==> r.wf(),
    {
        &self.passwords
    }

    /// Whether some listing entry shows the record with this identifier.
    pub open spec fn listing_has_uid(cps: Seq<CachedPhoto>, u: Seq<char>) -> bool {
        exists|k: int| 0 <= k < cps.len() && (#[trigger] cps[k]).photo.uid@ == u
    }

    /// List a photo at a path, sharing the record of any earlier listing
    /// of the same identifier. The path's listing gains the photo unless
    /// it already shows that identifier; the pairs in `passwords` are what
    /// a caller must hold to see the photo there.
    pub fn insert_photo(&mut self, path: &str, photo: &Photo, passwords: Vec<(String, String)>)
        requires
            old(self).wf(),
            forall|k: int|
                0 <= k < passwords@.len() ==> old(self).passwords_view().contains_key(
                    (#[trigger] passwords@[k]).0@,
                ) && old(self).passwords_view()[passwords@[k].0@] == passwords@[k].1@,
        ensures
            final(self).wf(),
            match old(self).photo_by_uid(photo.uid@) {
                Some(r) => r.uid@ == photo.uid@,
                None => true,
            },
            ({
                let record = match old(self).photo_by_uid(photo.uid@) {
                    Some(r) => r,
                    None => *photo,
                };
                &&& (forall|u: Seq<char>|
                    u != photo.uid@ ==> final(self).photo_by_uid(u) == old(self).photo_by_uid(u))
                &&& final(self).photo_by_uid(photo.uid@) == Some(record)
                &&& final(self).photos_at(path@) == (if Self::listing_has_uid(
                    old(self).photos_at(path@),
                    photo.uid@,
                ) {
                    old(self).photos_at(path@)
                } else {
                    old(self).photos_at(path@).push(
                        CachedPhoto { photo: record, passwords: passwords },
                    )
                })
            }),
            forall|q: Seq<char>| final(self).has_path(q) == (old(self).has_path(q) || q == path@),
            forall|q: Seq<char>|
                q != path@ ==> final(self).photos_at(q) == old(self).photos_at(q),
            forall|q: Seq<char>| final(self).subdirs_at(q) == old(self).subdirs_at(q),
            forall|q: Seq<char>| final(self).config_at(q) == old(self).config_at(q),
            final(self).passwords_view() == old(self).passwords_view(),
            final(self).photo_count() == old(self).photo_count() + (
            if old(self).photo_by_uid(photo.uid@) is Some {
                0int
            } else {
                1int
            }),
    {
        let ghost s0 = *self;
        // Share the record of an earlier listing of this identifier, or
        // register the photo as a new record.
        let record: Photo = self.intern_record(photo);
        let ghost s1 = *self;
        proof {
            Self::lemma_gallery_frame(s0, s1);
            Self::lemma_subdirs_frame(s0, s1);
            Self::lemma_configs_frame(s0, s1);
        }
        self.insert_path(path);
        let ghost s2 = *self;
        let i = match self.find_path_index(path) {
            Some(i) => i,
            None => {
                return unreached();
            },
        };
        // Skip the insertion if the listing already shows this identifier.
        let n = self.gallery[i].photos.len();
        let mut k: usize = 0;
        let mut found = false;
        while k < n && !found
            invariant
                i < self.gallery@.len(),
                n == self.gallery@[i as int].photos@.len(),
                0 <= k <= n,
                found ==> Self::listing_has_uid(self.gallery@[i as int].photos@, photo.uid@),
                !found ==> forall|m: int|
                    0 <= m < k ==> (#[trigger] self.gallery@[i as int].photos@[m]).photo.uid@
                        != photo.uid@,
            decreases n - k + (if found {
                0int
            } else {
                1int
            }),
        {
            if crate::strutil::str_eq(
                self.gallery[i].photos[k].photo.uid.as_str(),
                photo.uid.as_str(),
            ) {
                found = true;
            } else {
                k = k + 1;
            }
        }
        proof {
            assert(s2.photos_at(path@) == s2.gallery@[i as int].photos@) by {
                let j = choose|j: int|
                    0 <= j < s2.gallery@.len() && (#[trigger] s2.gallery@[j]).path@ == path@;
                if j < i as int {
                    assert(s2.gallery@[j].path@ != s2.gallery@[i as int].path@);
                } else if j > i as int {
                    assert(s2.gallery@[i as int].path@ != s2.gallery@[j].path@);
                }
            }
            if !found {
                assert(!Self::listing_has_uid(s2.photos_at(path@), photo.uid@));
            }
        }
        if !found {
            let cp = CachedPhoto { photo: record, passwords };
            self.push_cp(i, cp);
            let ghost s3 = *self;
            proof {
                Self::lemma_photos_frame(s2, s3);
                Self::lemma_subdirs_frame(s2, s3);
                Self::lemma_configs_frame(s2, s3);
                Self::lemma_gallery_update(s2, s3, i as int);
            }
        } else {
            proof {
                assert(final(self).photos_at(path@) == s2.photos_at(path@));
            }
        }
    }

    /// Return the record already held for this photo's identifier, or
    /// register the photo itself.
    fn intern_record(&mut self, photo: &Photo) -> (record: Photo)
        requires
            old(self).wf(),
        ensures
            final(self).wf(),
            record == (match old(self).photo_by_uid(photo.uid@) {
                Some(r) => r,
                None => *photo,
            }),
            final(self).photo_by_uid(photo.uid@) == Some(record),
            forall|u: Seq<char>|
                u != photo.uid@ ==> final(self).photo_by_uid(u) == old(self).photo_by_uid(u),
            final(self).gallery == old(self).gallery,
            final(self).subdirs == old(self).subdirs,
            final(self).subdirs_configs == old(self).subdirs_configs,
            final(self).passwords == old(self).passwords,
            final(self).photo_count() == old(self).photo_count() + (
            if old(self).photo_by_uid(photo.uid@) is Some {
                0int
            } else {
                1int
            }),
    {
        match self.get_from_uid(&photo.uid) {
            Some(r) => r,
            None => {
                let ghost ph_old = self.photos@;
                self.photos.push(photo.clone());
                proof {
                    assert(self.photos@[ph_old.len() as int].uid@ == photo.uid@);
                    assert(self.photos@.drop_last() =~= ph_old);
                    assert forall|u: Seq<char>|
                        u != photo.uid@ implies final(self).photo_by_uid(u) == old(
                        self,
                    ).photo_by_uid(u) by {
                        if exists|j: int|
                            0 <= j < ph_old.len() && (#[trigger] ph_old[j]).uid@ == u {
                            let j = choose|j: int|
                                0 <= j < ph_old.len() && (#[trigger] ph_old[j]).uid@ == u;
                            assert(self.photos@[j].uid@ == u);
                            let j2 = choose|j2: int|
                                0 <= j2 < self.photos@.len() && (#[trigger] self.photos@[j2]).uid@
                                    == u;
                            if j2 < j {
                                assert(self.photos@[j2].uid@ != self.photos@[j].uid@);
                            } else if j < j2 {
                                assert(self.photos@[j].uid@ != self.photos@[j2].uid@);
                            }
                        } else {
                            assert forall|j: int|
                                0 <= j < self.photos@.len() implies (
                            #[trigger] self.photos@[j]).uid@ != u by {
                                if j < ph_old.len() {
                                    assert(ph_old[j].uid@ != u);
                                }
                            }
                        }
                    }
                    let j2 = choose|j2: int|
                        0 <= j2 < self.photos@.len() && (#[trigger] self.photos@[j2]).uid@
                            == photo.uid@;
                    if j2 < ph_old.len() {
                        assert(ph_old[j2].uid@ == photo.uid@);
                    }
                }
                photo.clone()
            },
        }
    }

    /// Append a listing entry to the path at position `i`.
    fn push_cp(&mut self, i: usize, cp: CachedPhoto)
        requires
            old(self).wf(),
            i < old(self).gallery@.len(),
            forall|k: int|
                0 <= k < cp.passwords@.len() ==> old(self).passwords@.contains_key(
                    (#[trigger] cp.passwords@[k]).0@,
                ) && old(self).passwords@[cp.passwords@[k].0@] == cp.passwords@[k].1@,
        ensures
            final(self).wf(),
            final(self).gallery@.len() == old(self).gallery@.len(),
            forall|m: int|
                0 <= m < old(self).gallery@.len() && m != i ==> final(self).gallery@[m] == old(
                    self,
                ).gallery@[m],
            final(self).gallery@[i as int].path == old(self).gallery@[i as int].path,
            final(self).gallery@[i as int].photos@ == old(self).gallery@[i as int].photos@.push(
                cp,
            ),
            final(self).photos == old(self).photos,
            final(self).subdirs == old(self).subdirs,
            final(self).subdirs_configs == old(self).subdirs_configs,
            final(self).passwords == old(self).passwords,
    {
        let entry = vstd::std_specs::vec::vec_index_mut(&mut self.gallery, i);
        entry.photos.push(cp);
    }

    /// Lookups at other paths ignore a change to the listing at `i`.
    proof fn lemma_gallery_update(a: Gallery, b: Gallery, i: int)
        requires
            0 <= i < a.gallery@.len(),
            b.gallery@.len() == a.gallery@.len(),
            forall|k: int|
                0 <= k < a.gallery@.len() && k != i ==> #[trigger] b.gallery@[k]
                    == a.gallery@[k],
            b.gallery@[i].path@ == a.gallery@[i].path@,
            forall|k: int, j: int|
                0 <= k < j < a.gallery@.len() ==> (#[trigger] a.gallery@[k]).path@ != (
                #[trigger] a.gallery@[j]).path@,
        ensures
            forall|q: Seq<char>| b.has_path(q) == a.has_path(q),
            forall|q: Seq<char>|
                q != a.gallery@[i].path@ ==> b.photos_at(q) == a.photos_at(q),
            b.photos_at(a.gallery@[i].path@) == b.gallery@[i].photos@,
            a.photos_at(a.gallery@[i].path@) == a.gallery@[i].photos@,
    {
        let p0 = a.gallery@[i].path@;
        assert forall|q: Seq<char>| b.has_path(q) == a.has_path(q) by {
            if a.has_path(q) {
                let k = choose|k: int|
                    0 <= k < a.gallery@.len() && (#[trigger] a.gallery@[k]).path@ == q;
                assert(b.gallery@[k].path@ == q);
            }
            if b.has_path(q) {
                let k = choose|k: int|
                    0 <= k < b.gallery@.len() && (#[trigger] b.gallery@[k]).path@ == q;
                assert(a.gallery@[k].path@ == q);
            }
        }
        assert forall|q: Seq<char>|
            q != p0 && a.has_path(q) implies b.photos_at(q) == a.photos_at(q) by {
            let k = choose|k: int|
                0 <= k < a.gallery@.len() && (#[trigger] a.gallery@[k]).path@ == q;
            let m = choose|m: int|
                0 <= m < b.gallery@.len() && (#[trigger] b.gallery@[m]).path@ == q;
            assert(k != i);
            if m != k {
                assert(a.gallery@[m].path@ == q || m == i);
                if m == i {
                    assert(b.gallery@[m].path@ == p0);
                } else if m < k {
                    assert(a.gallery@[m].path@ != a.gallery@[k].path@);
                } else {
                    assert(a.gallery@[k].path@ != a.gallery@[m].path@);
                }
            }
        }
        assert(b.photos_at(p0) == b.gallery@[i].photos@) by {
            assert(b.gallery@[i].path@ == p0);
            let k = choose|k: int|
                0 <= k < b.gallery@.len() && (#[trigger] b.gallery@[k]).path@ == p0;
            if k != i {
                if k < i {
                    assert(a.gallery@[k].path@ != a.gallery@[i].path@);
                } else {
                    assert(a.gallery@[i].path@ != a.gallery@[k].path@);
                }
            }
        }
        assert(a.photos_at(p0) == a.gallery@[i].photos@) by {
            let k = choose|k: int|
                0 <= k < a.gallery@.len() && (#[trigger] a.gallery@[k]).path@ == p0;
            if k < i {
                assert(a.gallery@[k].path@ != a.gallery@[i].path@);
            } else if k > i {
                assert(a.gallery@[i].path@ != a.gallery@[k].path@);
            }
        }
    }
    /// Record the subdirectory listing of a path during a rebuild; an
    /// already recorded listing is kept.
    pub fn set_subdirs(&mut self, path: &str, subdirs: Subdirs)
        requires
            old(self).wf(),
        ensures
            final(self).wf(),
            final(self).subdirs_at(path@) == (if old(self).subdirs_at(path@) is None {
                Some(subdirs@)
            } else {
                old(self).subdirs_at(path@)
            }),
            forall|q: Seq<char>|
                q != path@ ==> final(self).subdirs_at(q) == old(self).subdirs_at(q),
            forall|q: Seq<char>| final(self).has_path(q) == old(self).has_path(q),
            forall|q: Seq<char>| final(self).photos_at(q) == old(self).photos_at(q),
            forall|u: Seq<char>| final(self).photo_by_uid(u) == old(self).photo_by_uid(u),
            forall|q: Seq<char>| final(self).config_at(q) == old(self).config_at(q),
            final(self).passwords_view() == old(self).passwords_view(),
            final(self).photo_count() == old(self).photo_count(),
    {
        if self.has_subdirs_entry(path) {
            return ;
        }
        let ghost s_old = self.subdirs@;
        self.subdirs.push((path.to_owned(), subdirs));
        proof {
            assert(forall|i: int|
                0 <= i < s_old.len() ==> (#[trigger] s_old[i]).0@ != path@) by {
                if exists|i: int| 0 <= i < s_old.len() && (#[trigger] s_old[i]).0@ == path@ {
                    assert(old(self).subdirs_at(path@) is Some);
                }
            }
            Self::lemma_gallery_frame(*old(self), *self);
            Self::lemma_photos_frame(*old(self), *self);
            Self::lemma_configs_frame(*old(self), *self);
            let n = s_old.len() as int;
            assert(self.subdirs@[n].0@ == path@);
            assert forall|q: Seq<char>|
                q != path@ implies final(self).subdirs_at(q) == old(self).subdirs_at(q) by {
                if exists|i: int| 0 <= i < s_old.len() && (#[trigger] s_old[i]).0@ == q {
                    let i = choose|i: int| 0 <= i < s_old.len() && (#[trigger] s_old[i]).0@ == q;
                    assert(self.subdirs@[i].0@ == q);
                    let j = choose|j: int|
                        0 <= j < self.subdirs@.len() && (#[trigger] self.subdirs@[j]).0@ == q;
                    if j < i {
                        assert(self.subdirs@[j].0@ != self.subdirs@[i].0@);
                    } else if i < j {
                        assert(self.subdirs@[i].0@ != self.subdirs@[j].0@);
                    }
                } else {
                    assert forall|j: int|
                        0 <= j < self.subdirs@.len() implies (#[trigger] self.subdirs@[j]).0@
                        != q by {
                        if j < s_old.len() {
                            assert(s_old[j].0@ != q);
                        }
                    }
                }
            }
            let j = choose|j: int|
                0 <= j < self.subdirs@.len() && (#[trigger] self.subdirs@[j]).0@ == path@;
            if j < n {
                assert(s_old[j].0@ == path@);
            }
        }
    }

    /// Record the resolved configuration of a path during a rebuild; an
    /// already recorded configuration is kept.
    pub fn set_config(&mut self, path: &str, config: Config)
        requires
            old(self).wf(),
        ensures
            final(self).wf(),
            final(self).config_at(path@) == (if old(self).config_at(path@) is None {
                Some(config)
            } else {
                old(self).config_at(path@)
            }),
            forall|q: Seq<char>|
                q != path@ ==> final(self).config_at(q) == old(self).config_at(q),
            forall|q: Seq<char>| final(self).has_path(q) == old(self).has_path(q),
            forall|q: Seq<char>| final(self).photos_at(q) == old(self).photos_at(q),
            forall|u: Seq<char>| final(self).photo_by_uid(u) == old(self).photo_by_uid(u),
            forall|q: Seq<char>| final(self).subdirs_at(q) == old(self).subdirs_at(q),
            final(self).passwords_view() == old(self).passwords_view(),
            final(self).photo_count() == old(self).photo_count(),
    {
        if self.has_config_entry(path) {
            return ;
        }
        let ghost s_old = self.subdirs_configs@;
        self.subdirs_configs.push((path.to_owned(), config));
        proof {
            assert(forall|i: int|
                0 <= i < s_old.len() ==> (#[trigger] s_old[i]).0@ != path@) by {
                if exists|i: int| 0 <= i < s_old.len() && (#[trigger] s_old[i]).0@ == path@ {
                    assert(old(self).config_at(path@) is Some);
                }
            }
            Self::lemma_gallery_frame(*old(self), *self);
            Self::lemma_photos_frame(*old(self), *self);
            Self::lemma_subdirs_frame(*old(self), *self);
            let n = s_old.len() as int;
            assert(self.subdirs_configs@[n].0@ == path@);
            assert forall|q: Seq<char>|
                q != path@ implies final(self).config_at(q) == old(self).config_at(q) by {
                if exists|i: int| 0 <= i < s_old.len() && (#[trigger] s_old[i]).0@ == q {
                    let i = choose|i: int| 0 <= i < s_old.len() && (#[trigger] s_old[i]).0@ == q;
                    assert(self.subdirs_configs@[i].0@ == q);
                    let j = choose|j: int|
                        0 <= j < self.subdirs_configs@.len() && (
                        #[trigger] self.subdirs_configs@[j]).0@ == q;
                    if j < i {
                        assert(self.subdirs_configs@[j].0@ != self.subdirs_configs@[i].0@);
                    } else if i < j {
                        assert(self.subdirs_configs@[i].0@ != self.subdirs_configs@[j].0@);
                    }
                } else {
                    assert forall|j: int|
                        0 <= j < self.subdirs_configs@.len() implies (
                    #[trigger] self.subdirs_configs@[j]).0@ != q by {
                        if j < s_old.len() {
                            assert(s_old[j].0@ != q);
                        }
                    }
                }
            }
            let j = choose|j: int|
                0 <= j < self.subdirs_configs@.len() && (#[trigger] self.subdirs_configs@[j]).0@
                    == path@;
            if j < n {
                assert(s_old[j].0@ == path@);
            }
        }
    }

    /// Whether a subdirectory listing is recorded for the path.
    fn has_subdirs_entry(&self, path: &str) -> (r: bool)
        requires
            self.wf(),
        ensures
            r == (self.subdirs_at(path@) is Some),
    {
        let n = self.subdirs.len();
        let mut i: usize = 0;
        while i < n
            invariant
                n == self.subdirs@.len(),
                0 <= i <= n,
                forall|k: int| 0 <= k < i ==> (#[trigger] self.subdirs@[k]).0@ != path@,
            decreases n - i,
        {
            if crate::strutil::str_eq(self.subdirs[i].0.as_str(), path) {
                assert(self.subdirs@[i as int].0@ == path@);
                return true;
            }
            i = i + 1;
        }
        false
    }

    /// Whether a resolved configuration is recorded for the path.
    fn has_config_entry(&self, path: &str) -> (r: bool)
        requires
            self.wf(),
        ensures
            r == (self.config_at(path@) is Some),
    {
        let n = self.subdirs_configs.len();
        let mut i: usize = 0;
        while i < n
            invariant
                n == self.subdirs_configs@.len(),
                0 <= i <= n,
                forall|k: int| 0 <= k < i ==> (#[trigger] self.subdirs_configs@[k]).0@ != path@,
            decreases n - i,
        {
            if crate::strutil::str_eq(self.subdirs_configs[i].0.as_str(), path) {
                assert(self.subdirs_configs@[i as int].0@ == path@);
                return true;
            }
            i = i + 1;
        }
        false
    }

    /// Forget all recorded subdirectory listings and configurations; a
    /// rebuild records them anew while walking the tree.
    pub fn reset_tree_data(&mut self)
        requires
            old(self).wf(),
        ensures
            final(self).wf(),
            forall|q: Seq<char>| final(self).subdirs_at(q) is None,
            forall|q: Seq<char>| final(self).config_at(q) is None,
            forall|q: Seq<char>| final(self).has_path(q) == old(self).has_path(q),
            forall|q: Seq<char>| final(self).photos_at(q) == old(self).photos_at(q),
            forall|u: Seq<char>| final(self).photo_by_uid(u) == old(self).photo_by_uid(u),
            final(self).passwords_view() == old(self).passwords_view(),
            final(self).photo_count() == old(self).photo_count(),
    {
        self.subdirs.clear();
        self.subdirs_configs.clear();
        proof {
            Self::lemma_gallery_frame(*old(self), *self);
            Self::lemma_photos_frame(*old(self), *self);
        }
    }

    /// Reverse the listing of every path whose resolved configuration asks
    /// for reversed sort order. The credential-aware counts are unchanged,
    /// since reversal keeps the same photos.
    pub fn apply_reverse_sort(&mut self)
        requires
            old(self).wf(),
        ensures
            final(self).wf(),
            forall|p: Seq<char>|
                final(self).photos_at(p) == (if (old(self).config_at(p) matches Some(c)
                    && c.REVERSE_SORT_ORDER) {
                    old(self).photos_at(p).reverse()
                } else {
                    old(self).photos_at(p)
                }),
            forall|q: Seq<char>| final(self).has_path(q) == old(self).has_path(q),
            forall|u: Seq<char>| final(self).photo_by_uid(u) == old(self).photo_by_uid(u),
            forall|q: Seq<char>| final(self).subdirs_at(q) == old(self).subdirs_at(q),
            forall|q: Seq<char>| final(self).config_at(q) == old(self).config_at(q),
            final(self).passwords_view() == old(self).passwords_view(),
            final(self).photo_count() == old(self).photo_count(),
            old(self).counts_fresh() ==> final(self).counts_fresh(),
    {
        let nc = self.subdirs_configs.len();
        let mut c: usize = 0;
        while c < nc
            invariant
                self.wf(),
                nc == self.subdirs_configs@.len(),
                0 <= c <= nc,
                self.subdirs_configs == old(self).subdirs_configs,
                self.photos == old(self).photos,
                self.subdirs == old(self).subdirs,
                self.passwords == old(self).passwords,
                self.counts == old(self).counts,
                self.gallery@.len() == old(self).gallery@.len(),
                forall|m: int|
                    0 <= m < self.gallery@.len() ==> (#[trigger] self.gallery@[m]).path == old(
                        self,
                    ).gallery@[m].path,
                forall|m: int|
                    0 <= m < self.gallery@.len() ==> (#[trigger] self.gallery@[m]).photos@ == (
                    if (exists|j: int|
                        0 <= j < c && (#[trigger] old(self).subdirs_configs@[j]).0@ == old(
                            self,
                        ).gallery@[m].path@ && old(self).subdirs_configs@[j].1.REVERSE_SORT_ORDER) {
                        old(self).gallery@[m].photos@.reverse()
                    } else {
                        old(self).gallery@[m].photos@
                    }),
            decreases nc - c,
        {
            let ghost cj = c as int;
            if self.subdirs_configs[c].1.REVERSE_SORT_ORDER {
                let path_owned = self.subdirs_configs[c].0.clone();
                match self.find_path_index(path_owned.as_str()) {
                    Some(gi) => {
                        let ghost before = *self;
                        let entry = vstd::std_specs::vec::vec_index_mut(&mut self.gallery, gi);
                        let ghost orig = entry.photos@;
                        let mut rev: Vec<CachedPhoto> = Vec::new();
                        proof {
                            assert(entry.photos@ =~= orig.take(orig.len() as int));
                            assert(rev@ =~= orig.skip(orig.len() as int).reverse());
                        }
                        while entry.photos.len() > 0
                            invariant
                                gi < before.gallery@.len(),
                                entry.path == before.gallery@[gi as int].path,
                                entry.photos@.len() <= orig.len(),
                                entry.photos@ == orig.take(entry.photos@.len() as int),
                                rev@ == orig.skip(entry.photos@.len() as int).reverse(),
                            decreases entry.photos@.len(),
                        {
                            let ghost m = entry.photos@.len() as int;
                            match entry.photos.pop() {
                                Some(x) => {
                                    rev.push(x);
                                    proof {
                                        assert(entry.photos@ =~= orig.take(m - 1));
                                        assert(orig.skip(m - 1) =~= seq![orig[m - 1]] + orig.skip(
                                            m,
                                        ));
                                        assert(rev@ =~= orig.skip(m - 1).reverse());
                                    }
                                },
                                None => {},
                            }
                        }
                        entry.photos = rev;
                        proof {
                            assert(orig.skip(0) =~= orig);
                            assert(self.gallery@[gi as int].photos@ == orig.reverse());
                            assert(self.gallery@[gi as int].path == before.gallery@[
                                gi as int
                            ].path);
                            assert(forall|m: int|
                                0 <= m < self.gallery@.len() && m != gi
                                    ==> #[trigger] self.gallery@[m] == before.gallery@[m]);
                            assert forall|m: int, k: int|
                                0 <= m < self.gallery@.len() && 0 <= k < (
                                #[trigger] self.gallery@[m]).photos@.len() implies cp_pairs_ok(
                                #[trigger] self.gallery@[m].photos@[k],
                                self.passwords@,
                            ) by {
                                if m == gi {
                                    assert(self.gallery@[m].photos@[k] == before.gallery@[
                                        m
                                    ].photos@[orig.len() - 1 - k]);
                                } else {
                                    assert(cp_pairs_ok(
                                        before.gallery@[m].photos@[k],
                                        before.passwords@,
                                    ));
                                }
                            }
                        }
                    },
                    None => {},
                }
            }
            proof {
                assert forall|m: int| 0 <= m < self.gallery@.len() implies (
                #[trigger] self.gallery@[m]).photos@ == (if (exists|j: int|
                    0 <= j < c + 1 && (#[trigger] old(self).subdirs_configs@[j]).0@ == old(
                        self,
                    ).gallery@[m].path@ && old(self).subdirs_configs@[j].1.REVERSE_SORT_ORDER) {
                    old(self).gallery@[m].photos@.reverse()
                } else {
                    old(self).gallery@[m].photos@
                }) by {
                    lemma_exists_step(
                        old(self).subdirs_configs@,
                        old(self).gallery@[m].path@,
                        cj,
                    );
                }
            }
            c = c + 1;
        }
        proof {
            Self::lemma_reverse_post(*old(self), *self);
        }
    }

    /// Connect the loop outcome of `apply_reverse_sort` to the lookups.
    proof fn lemma_reverse_post(a: Gallery, b: Gallery)
        requires
            a.wf(),
            b.subdirs_configs == a.subdirs_configs,
            b.photos == a.photos,
            b.subdirs == a.subdirs,
            b.passwords == a.passwords,
            b.counts == a.counts,
            b.gallery@.len() == a.gallery@.len(),
            forall|m: int|
                0 <= m < b.gallery@.len() ==> (#[trigger] b.gallery@[m]).path == a.gallery@[
                m
            ].path,
            forall|m: int|
                0 <= m < b.gallery@.len() ==> (#[trigger] b.gallery@[m]).photos@ == (if (exists|
                    j: int,
                |
                    0 <= j < a.subdirs_configs@.len() && (#[trigger] a.subdirs_configs@[j]).0@
                        == a.gallery@[m].path@ && a.subdirs_configs@[j].1.REVERSE_SORT_ORDER) {
                    a.gallery@[m].photos@.reverse()
                } else {
                    a.gallery@[m].photos@
                }),
        ensures
            forall|p: Seq<char>|
                b.photos_at(p) == (if (a.config_at(p) matches Some(cfg)
                    && cfg.REVERSE_SORT_ORDER) {
                    a.photos_at(p).reverse()
                } else {
                    a.photos_at(p)
                }),
            forall|q: Seq<char>| b.has_path(q) == a.has_path(q),
            forall|u: Seq<char>| b.photo_by_uid(u) == a.photo_by_uid(u),
            forall|q: Seq<char>| b.subdirs_at(q) == a.subdirs_at(q),
            forall|q: Seq<char>| b.config_at(q) == a.config_at(q),
            a.counts_fresh() ==> b.counts_fresh(),
    {
        Self::lemma_photos_frame(a, b);
        Self::lemma_subdirs_frame(a, b);
        Self::lemma_configs_frame(a, b);
        assert forall|q: Seq<char>| b.has_path(q) == a.has_path(q) by {
            if a.has_path(q) {
                let m = choose|m: int|
                    0 <= m < a.gallery@.len() && (#[trigger] a.gallery@[m]).path@ == q;
                assert(b.gallery@[m].path@ == q);
            }
            if b.has_path(q) {
                let m = choose|m: int|
                    0 <= m < b.gallery@.len() && (#[trigger] b.gallery@[m]).path@ == q;
                assert(a.gallery@[m].path@ == q);
            }
        }
        assert forall|p: Seq<char>| b.photos_at(p) == (if (a.config_at(p) matches Some(cfg)
            && cfg.REVERSE_SORT_ORDER) {
            a.photos_at(p).reverse()
        } else {
            a.photos_at(p)
        }) by {
            if a.has_path(p) {
                let m = choose|m: int|
                    0 <= m < a.gallery@.len() && (#[trigger] a.gallery@[m]).path@ == p;
                let m2 = choose|m2: int|
                    0 <= m2 < b.gallery@.len() && (#[trigger] b.gallery@[m2]).path@ == p;
                assert(a.gallery@[m2].path@ == p);
                assert(m == m2);
                assert(b.photos_at(p) == b.gallery@[m].photos@);
                assert(a.photos_at(p) == a.gallery@[m].photos@);
                if exists|j: int|
                    0 <= j < a.subdirs_configs@.len() && (#[trigger] a.subdirs_configs@[j]).0@
                        == p && a.subdirs_configs@[j].1.REVERSE_SORT_ORDER {
                    let j = choose|j: int|
                        0 <= j < a.subdirs_configs@.len() && (#[trigger] a.subdirs_configs@[j]).0@
                            == p && a.subdirs_configs@[j].1.REVERSE_SORT_ORDER;
                    let j2 = choose|j2: int|
                        0 <= j2 < a.subdirs_configs@.len() && (
                        #[trigger] a.subdirs_configs@[j2]).0@ == p;
                    assert(j == j2);
                    assert(a.config_at(p) == Some(a.subdirs_configs@[j].1));
                } else {
                    if a.config_at(p) is Some {
                        let j2 = choose|j2: int|
                            0 <= j2 < a.subdirs_configs@.len() && (
                            #[trigger] a.subdirs_configs@[j2]).0@ == p;
                        assert(!(a.subdirs_configs@[j2].1.REVERSE_SORT_ORDER));
                    }
                }
            } else {
                assert(b.photos_at(p) =~= Seq::<CachedPhoto>::empty());
                assert(a.photos_at(p) =~= Seq::<CachedPhoto>::empty());
                if a.config_at(p) matches Some(cfg) && cfg.REVERSE_SORT_ORDER {
                    assert(a.photos_at(p).reverse() =~= Seq::<CachedPhoto>::empty());
                }
            }
        }
        if a.counts_fresh() {
            assert forall|i: int, creds: Map<Seq<char>, Seq<char>>|
                0 <= i < b.counts@.len() && creds_ok(b.passwords@, creds)
                implies #[trigger] sum_satisfied((#[trigger] b.counts@[i]).buckets@, creds)
                == count_passing(b.gallery@[i].photos@, creds) by {
                assert(sum_satisfied(a.counts@[i].buckets@, creds) == count_passing(
                    a.gallery@[i].photos@,
                    creds,
                ));
                if b.gallery@[i].photos@ == a.gallery@[i].photos@.reverse() {
                    lemma_count_passing_reverse(a.gallery@[i].photos@, creds);
                }
            }
        }
    }

    /// Check whether the caller's session and request credentials grant
    /// access to the path. On success the first result holds every
    /// validated credential and the second names the paths whose passwords
    /// the request newly supplied, root-most first, for the caller to
    /// persist in the session. On failure the error names the root-most
    /// protected ancestor whose requirement was not met — `Required` when
    /// no credential was supplied, `Invalid` otherwise — so nothing about
    /// deeper paths is revealed.
    pub fn check_password(&self, path: &str, session: &Passwords, request: &OptionalPassword) -> (r:
        Result<(Passwords, Vec<String>), PasswordError>)
        requires
            self.wf(),
            session.wf(),
        ensures
            r is Ok <==> access_granted(self.passwords_view(), request@, session@, path@),
            r matches Ok(v) ==> v.0@ == validated_set(
                self.passwords_view(),
                request@,
                session@,
                path@,
            ) && v.0.wf() && creds_ok(self.passwords_view(), v.0@),
            r matches Ok(v) ==> v.1@.map_values(|s: String| s@) == crate::strutil::ancestor_chain(
                path@,
            ).filter(
                |q: Seq<char>|
                    self.passwords_view().contains_key(q) && request@ == Some(
                        self.passwords_view()[q],
                    ),
            ),
            r matches Err(e) ==> ({
                let chain = crate::strutil::ancestor_chain(path@);
                exists|i: int|
                    {
                        &&& 0 <= i < chain.len()
                        &&& self.passwords_view().contains_key(#[trigger] chain[i])
                        &&& !crate::password::entry_satisfied(
                            self.passwords_view(),
                            request@,
                            session@,
                            chain[i],
                        )
                        &&& forall|j: int|
                            0 <= j < i && self.passwords_view().contains_key(#[trigger] chain[j])
                                ==> crate::password::entry_satisfied(
                                self.passwords_view(),
                                request@,
                                session@,
                                chain[j],
                            )
                        &&& match e {
                            PasswordError::Required(p) => p@ == chain[i] && request@ is None,
                            PasswordError::Invalid(p) => p@ == chain[i] && request@ is Some,
                        }
                    }
            }),
    {
        match check_access(&self.passwords, session, request, path) {
            Ok((validated, persist)) => {
                proof {
                    assert(creds_ok(self.passwords_view(), validated@)) by {
                        assert forall|q: Seq<char>| #[trigger]
                            validated@.contains_key(q) implies self.passwords@.contains_key(q)
                            && validated@[q] == self.passwords@[q] by {}
                    }
                }
                Ok((validated, persist))
            },
            Err(e) => Err(e),
        }
    }

    /// The visible subdirectories of a path, in natural name order. A name
    /// to force-include is appended when missing, so a breadcrumb can show
    /// a leaf directory as open. An unknown path yields an empty list.
    pub fn get_subdirs(&self, path: &str, always_include: Option<&String>) -> (r: Vec<String>)
        requires
            self.wf(),
        ensures
            self.subdirs_at(path@) is None ==> r@.len() == 0,
            self.subdirs_at(path@) matches Some(sd) ==> ({
                let vis = visible_names(sd);
                let inc_missing = match always_include {
                    Some(n) => !vis.contains(n@),
                    None => false,
                };
                &&& r@.len() == vis.len() + (if inc_missing {
                    1int
                } else {
                    0int
                })
                &&& (forall|t: int|
                    0 <= t < r@.len() ==> vis.contains((#[trigger] r@[t])@) || (inc_missing
                        && r@[t]@ == (match always_include {
                        Some(n) => n@,
                        None => Seq::empty(),
                    })))
                &&& (forall|name: Seq<char>|
                    #[trigger] vis.contains(name) ==> exists|t: int|
                        0 <= t < r@.len() && (#[trigger] r@[t])@ == name)
                &&& (forall|t: int|
                    0 <= t < r@.len() - 1 ==> #[trigger] crate::subdirs::natord_le(
                        r@[t]@,
                        r@[t + 1]@,
                    ))
            }),
    {
        let n = self.subdirs.len();
        let mut i: usize = 0;
        while i < n
            invariant
                self.wf(),
                n == self.subdirs@.len(),
                0 <= i <= n,
                forall|k: int| 0 <= k < i ==> (#[trigger] self.subdirs@[k]).0@ != path@,
            decreases n - i,
        {
            if crate::strutil::str_eq(self.subdirs[i].0.as_str(), path) {
                proof {
                    let j = choose|j: int|
                        0 <= j < self.subdirs@.len() && (#[trigger] self.subdirs@[j]).0@ == path@;
                    if j < i as int {
                        assert(self.subdirs@[j].0@ != self.subdirs@[i as int].0@);
                    } else if j > i as int {
                        assert(self.subdirs@[i as int].0@ != self.subdirs@[j].0@);
                    }
                }
                let ghost sd = self.subdirs@[i as int].1@;
                let mut visible = self.subdirs[i].1.list_visible();
                let ghost vis0 = visible@;
                proof {
                    assert(visible_names(sd) =~= vis0.map_values(|e: (Seq<char>, bool)| e.0));
                    assert(forall|t: int| 0 <= t < vis0.len() ==> !(#[trigger] vis0[t]).1);
                }
                let mut inc_missing = false;
                match always_include {
                    Some(name) => {
                        if !visible.contains_name(name.as_str()) {
                            inc_missing = true;
                            visible.push(crate::subdirs::Subdir::new(name.clone(), false));
                        }
                        proof {
                            assert forall|t: int| 0 <= t < vis0.len() implies visible_names(
                                sd,
                            ).contains(#[trigger] vis0[t].0) by {
                                assert(visible_names(sd)[t] == vis0[t].0);
                            }
                            if !inc_missing {
                                let t = choose|t: int|
                                    0 <= t < vis0.len() && (#[trigger] vis0[t]).0 == name@;
                            }
                        }
                    },
                    None => {},
                }
                let ghost before = visible@;
                proof {
                    assert(forall|t: int| 0 <= t < before.len() ==> !(#[trigger] before[t]).1);
                }
                visible.sort();
                let names = visible.list_names_visible_owned();
                proof {
                    broadcast use vstd::seq_lib::group_to_multiset_ensures;

                    let vs = visible@;
                    assert(vs.to_multiset() == before.to_multiset());
                    assert(vs.len() == before.len()) by {
                        assert(vs.to_multiset().len() == vs.len());
                        assert(before.to_multiset().len() == before.len());
                    }
                    assert forall|t: int| 0 <= t < vs.len() implies before.contains(
                        #[trigger] vs[t],
                    ) by {
                        assert(vs.contains(vs[t]));
                        assert(vs.to_multiset().count(vs[t]) > 0);
                        assert(before.to_multiset().count(vs[t]) > 0);
                    }
                    assert forall|t: int| 0 <= t < before.len() implies vs.contains(
                        #[trigger] before[t],
                    ) by {
                        assert(before.contains(before[t]));
                        assert(before.to_multiset().count(before[t]) > 0);
                        assert(vs.to_multiset().count(before[t]) > 0);
                    }
                    assert(forall|t: int| 0 <= t < vs.len() ==> !(#[trigger] vs[t]).1);
                    lemma_filter_all_visible(vs);
                    assert(names@.map_values(|s: String| s@) =~= vs.map_values(
                        |e: (Seq<char>, bool)| e.0,
                    ));
                    assert(names@.len() == vs.len()) by {
                        assert(names@.map_values(|s: String| s@).len() == names@.len());
                    }
                    assert forall|t: int| 0 <= t < names@.len() implies (#[trigger] names@[t])@
                        == vs[t].0 by {
                        assert(names@.map_values(|s: String| s@)[t] == names@[t]@);
                        assert(vs.map_values(|e: (Seq<char>, bool)| e.0)[t] == vs[t].0);
                    }
                    let vis = visible_names(sd);
                    assert(vis.len() == vis0.len());
                    // Every produced name comes from the pre-sort entries.
                    assert forall|t: int| 0 <= t < names@.len() implies vis.contains(
                        (#[trigger] names@[t])@,
                    ) || (inc_missing && names@[t]@ == (match always_include {
                        Some(n) => n@,
                        None => Seq::empty(),
                    })) by {
                        assert(names@[t]@ == vs[t].0);
                        assert(before.contains(vs[t]));
                        let k = choose|k: int| 0 <= k < before.len() && before[k] == vs[t];
                        if k < vis0.len() {
                            assert(vis0[k] == vs[t]);
                            assert(vis[k] == vis0[k].0);
                        }
                    }
                    // Every visible name is produced.
                    assert forall|name: Seq<char>| #[trigger] vis.contains(name) implies exists|
                        t: int,
                    |
                        0 <= t < names@.len() && (#[trigger] names@[t])@ == name by {
                        let k = choose|k: int| 0 <= k < vis.len() && vis[k] == name;
                        assert(vis0[k].0 == name);
                        assert(before[k] == vis0[k]);
                        assert(vs.contains(before[k]));
                        let t = choose|t: int| 0 <= t < vs.len() && vs[t] == before[k];
                        assert(names@.map_values(|s: String| s@)[t] == names@[t]@);
                        assert(vs.map_values(|e: (Seq<char>, bool)| e.0)[t] == vs[t].0);
                        assert(names@[t]@ == name);
                    }
                }
                return names;
            }
            i = i + 1;
        }
        proof {
            assert(forall|j: int|
                0 <= j < self.subdirs@.len() ==> (#[trigger] self.subdirs@[j]).0@ != path@);
        }
        Vec::new()
    }

    /// Open a read view over a path's listing for a caller holding
    /// validated credentials, or return nothing when the path is unknown.
    ///
    /// The window is computed over the already-filtered visible photos:
    /// the credential-aware total comes from the aggregate, `start` resets
    /// to zero when out of range, the window never runs past the total and
    /// is hard-capped at 100 items, and a requested identifier found among
    /// the visible photos overrides the window with its own single-item
    /// position.
    pub fn read(
        &self,
        path: &str,
        start: Option<usize>,
        count: Option<usize>,
        uid: Option<&crate::uid::UID>,
        provided_passwords: &Passwords,
    ) -> (r: Option<GalleryReadLock>)
        requires
            self.wf(),
            self.counts_fresh(),
            provided_passwords.wf(),
            creds_ok(self.passwords_view(), provided_passwords@),
        ensures
            r is Some <==> self.has_path(path@),
            r matches Some(lock) ==> ({
                let adm = admitted(self.photos_at(path@), provided_passwords@);
                let total = adm.len() as int;
                let located = match uid {
                    Some(u) => first_uid_index(adm, u@) is Some,
                    None => false,
                };
                let start0 = if located {
                    first_uid_index(adm, (match uid {
                        Some(u) => u@,
                        None => Seq::empty(),
                    }))->0
                } else {
                    (match start {
                        Some(s) => s as int,
                        None => 0,
                    })
                };
                let count0 = if located {
                    1int
                } else {
                    (match count {
                        Some(c) => c as int,
                        None => total,
                    })
                };
                let start1 = if start0 >= total {
                    0int
                } else {
                    start0
                };
                let count1 = if start1 + count0 > total {
                    total - start1
                } else {
                    count0
                };
                let count2 = if count1 > 100 {
                    100int
                } else {
                    count1
                };
                &&& lock.total == total
                &&& lock.start == start1
                &&& lock.max_count == count2
                &&& lock@ == adm.subrange(start1, start1 + count2)
            }),
    {
        let i = match self.find_path_index(path) {
            Some(i) => i,
            None => {
                return None;
            },
        };
        let ghost adm = admitted(self.photos_at(path@), provided_passwords@);
        // Collect the photos the credentials admit, in listing order.
        let cps = &self.gallery[i].photos;
        let n = cps.len();
        let mut visible: Vec<Photo> = Vec::new();
        let mut k: usize = 0;
        proof {
            reveal(Seq::filter);
            assert(cps@.take(0).filter(|cp: CachedPhoto| cp_passes(cp, provided_passwords@))
                =~= Seq::<CachedPhoto>::empty());
            assert(visible@ =~= admitted(cps@.take(0), provided_passwords@));
        }
        while k < n
            invariant
                n == cps@.len(),
                0 <= k <= n,
                provided_passwords.wf(),
                visible@ == admitted(cps@.take(k as int), provided_passwords@),
            decreases n - k,
        {
            let ghost taken = cps@.take(k as int);
            if cp_passes_exec(&cps[k], provided_passwords) {
                visible.push(cps[k].photo.clone());
            }
            proof {
                reveal(Seq::filter);
                assert(cps@.take(k + 1).drop_last() =~= taken);
                assert(cps@.take(k + 1).last() == cps@[k as int]);
                assert(visible@ =~= admitted(cps@.take(k + 1), provided_passwords@));
            }
            k = k + 1;
        }
        proof {
            assert(cps@.take(n as int) =~= cps@);
            assert(self.photos_at(path@) == cps@);
            assert(visible@ == adm);
        }
        // The credential-aware total, from the aggregate.
        let total = self.sum_counts(i, provided_passwords);
        proof {
            lemma_count_passing_is_admitted(cps@, provided_passwords@);
            assert(total == adm.len());
        }
        // Window selection.
        let mut start1: usize = match start {
            Some(s) => s,
            None => 0,
        };
        let mut max_count: usize = match count {
            Some(c) => c,
            None => total,
        };
        let mut located = false;
        match uid {
            Some(u) => {
                let m = visible.len();
                let mut j: usize = 0;
                while j < m && !located
                    invariant
                        m == visible@.len(),
                        0 <= j <= m,
                        !located ==> forall|t: int|
                            0 <= t < j ==> (#[trigger] visible@[t]).uid@ != u@,
                        located ==> j < m && visible@[j as int].uid@ == u@ && (forall|t: int|
                            0 <= t < j ==> (#[trigger] visible@[t]).uid@ != u@),
                    decreases m - j + (if located {
                        0int
                    } else {
                        1int
                    }),
                {
                    if crate::strutil::str_eq(visible[j].uid.as_str(), u.as_str()) {
                        located = true;
                    } else {
                        j = j + 1;
                    }
                }
                if located {
                    start1 = j;
                    max_count = 1;
                    proof {
                        assert(first_uid_index(adm, u@) == Some(j as int)) by {
                            lemma_first_uid_index(adm, u@, j as int);
                        }
                    }
                } else {
                    proof {
                        assert(first_uid_index(adm, u@) is None) by {
                            lemma_no_uid_index(adm, u@);
                        }
                    }
                }
            },
            None => {},
        }
        if start1 >= total {
            start1 = 0;
        }
        if max_count > total - start1 {
            max_count = total - start1;
        }
        if max_count > 100 {
            max_count = 100;
        }
        let mut window: Vec<Photo> = Vec::new();
        let vlen = visible.len();
        let mut w: usize = 0;
        while w < max_count
            invariant
                visible@.len() == vlen,
                start1 + max_count <= visible@.len(),
                0 <= w <= max_count,
                window@ =~= visible@.subrange(start1 as int, start1 + w),
            decreases max_count - w,
        {
            window.push(visible[start1 + w].clone());
            proof {
                assert(window@ =~= visible@.subrange(start1 as int, start1 + w + 1));
            }
            w = w + 1;
        }
        Some(GalleryReadLock { photos: window, start: start1, max_count, total })
    }

    /// The aggregate total of a path for the caller's credentials.
    fn sum_counts(&self, i: usize, creds: &Passwords) -> (r: usize)
        requires
            self.wf(),
            self.counts_fresh(),
            creds.wf(),
            creds_ok(self.passwords_view(), creds@),
            i < self.gallery@.len(),
        ensures
            r == count_passing(self.gallery@[i as int].photos@, creds@),
            r <= self.gallery@[i as int].photos@.len(),
    {
        proof {
            lemma_count_passing_bounds(self.gallery@[i as int].photos@, creds@);
        }
        let cap = self.gallery[i].photos.len();
        let buckets = &self.counts[i].buckets;
        let nb = buckets.len();
        let mut total: usize = 0;
        let ghost target = count_passing(self.gallery@[i as int].photos@, creds@);
        let mut b: usize = 0;
        proof {
            assert(sum_satisfied(buckets@.take(0), creds@) == 0) by {
                assert(buckets@.take(0) =~= Seq::<CountBucket>::empty());
            }
            assert(sum_satisfied(buckets@, creds@) == target);
        }
        while b < nb
            invariant
                creds.wf(),
                nb == buckets@.len(),
                0 <= b <= nb,
                total == sum_satisfied(buckets@.take(b as int), creds@),
                sum_satisfied(buckets@, creds@) == target,
                0 <= target <= cap,
            decreases nb - b,
        {
            let ghost taken = buckets@.take(b as int);
            if key_satisfied_exec(&buckets[b].key, creds) {
                proof {
                    assert(buckets@.take(b + 1).drop_last() =~= taken);
                    assert(buckets@.take(b + 1).last() == buckets@[b as int]);
                    lemma_sum_prefix(buckets@, creds@, b + 1);
                    lemma_sum_nonneg(taken, creds@);
                }
                total = total + buckets[b].n;
            } else {
                proof {
                    assert(buckets@.take(b + 1).drop_last() =~= taken);
                    assert(buckets@.take(b + 1).last() == buckets@[b as int]);
                }
            }
            b = b + 1;
        }
        proof {
            assert(buckets@.take(nb as int) =~= buckets@);
        }
        total
    }

    /// Recompute the visibility-count aggregate from the current listings:
    /// per path, photos are grouped by the exact list of password paths
    /// they require, and each group is counted.
    pub fn update_counts(&mut self)
        requires
            old(self).wf(),
        ensures
            final(self).wf(),
            final(self).counts_fresh(),
            forall|q: Seq<char>| final(self).has_path(q) == old(self).has_path(q),
            forall|q: Seq<char>| final(self).photos_at(q) == old(self).photos_at(q),
            forall|u: Seq<char>| final(self).photo_by_uid(u) == old(self).photo_by_uid(u),
            forall|q: Seq<char>| final(self).subdirs_at(q) == old(self).subdirs_at(q),
            forall|q: Seq<char>| final(self).config_at(q) == old(self).config_at(q),
            final(self).passwords_view() == old(self).passwords_view(),
            final(self).photo_count() == old(self).photo_count(),
    {
        let n = self.gallery.len();
        let mut counts: Vec<CountEntry> = Vec::new();
        let mut i: usize = 0;
        while i < n
            invariant
                self.wf(),
                *self == *old(self),
                n == self.gallery@.len(),
                0 <= i <= n,
                counts@.len() == i,
                forall|m: int|
                    0 <= m < i ==> (#[trigger] counts@[m]).path@ == self.gallery@[m].path@,
                forall|m: int, creds: Map<Seq<char>, Seq<char>>|
                    0 <= m < i && creds_ok(self.passwords@, creds) ==> #[trigger] sum_satisfied(
                        (#[trigger] counts@[m]).buckets@,
                        creds,
                    ) == count_passing(self.gallery@[m].photos@, creds),
            decreases n - i,
        {
            let buckets = build_buckets(&self.gallery[i].photos, &self.passwords);
            counts.push(CountEntry { path: self.gallery[i].path.clone(), buckets });
            i = i + 1;
        }
        self.counts = counts;
        proof {
            Self::lemma_gallery_frame(*old(self), *self);
            Self::lemma_photos_frame(*old(self), *self);
            Self::lemma_subdirs_frame(*old(self), *self);
            Self::lemma_configs_frame(*old(self), *self);
        }
    }

    /// Record that a path requires a password; a password already
    /// recorded for the path is kept.
    pub fn add_password(&mut self, path: &str, password: String)
        requires
            old(self).wf(),
        ensures
            final(self).wf(),
            final(self).passwords_view() == (if old(self).passwords_view().contains_key(path@) {
                old(self).passwords_view()
            } else {
                old(self).passwords_view().insert(path@, password@)
            }),
            forall|u: Seq<char>| final(self).photo_by_uid(u) == old(self).photo_by_uid(u),
            forall|q: Seq<char>| final(self).has_path(q) == old(self).has_path(q),
            forall|q: Seq<char>| final(self).photos_at(q) == old(self).photos_at(q),
            forall|q: Seq<char>| final(self).subdirs_at(q) == old(self).subdirs_at(q),
            forall|q: Seq<char>| final(self).config_at(q) == old(self).config_at(q),
            final(self).photo_count() == old(self).photo_count(),
    {
        if self.passwords.contains_key(path) {
            return ;
        }
        self.passwords.insert(path.to_owned(), password);
        proof {
            assert forall|i: int, k: int|
                0 <= i < self.gallery@.len() && 0 <= k < (
                #[trigger] self.gallery@[i]).photos@.len() implies cp_pairs_ok(
                #[trigger] self.gallery@[i].photos@[k],
                self.passwords@,
            ) by {
                assert(cp_pairs_ok(self.gallery@[i].photos@[k], old(self).passwords@));
            }
            Self::lemma_gallery_frame(*old(self), *self);
            Self::lemma_photos_frame(*old(self), *self);
            Self::lemma_subdirs_frame(*old(self), *self);
            Self::lemma_configs_frame(*old(self), *self);
        }
    }
}

} // verus!
