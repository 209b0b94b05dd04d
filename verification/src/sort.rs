//! Ordering of a directory's photos by the configured sort fields.
//!
//! The configuration names a comma-separated list of record fields; photos
//! are ordered by each field in turn, string fields by code point and
//! numeric fields by value.

use vstd::prelude::*;

use crate::error::Error;
use crate::photo::Photo;

verus! {

/// The photo fields a directory's listing can be ordered by.
#[derive(Debug, Clone, Copy, PartialEq, Eq, Structural)]
pub enum SortField {
    Id,
    Filename,
    Title,
    DateTaken,
    SortOrder,
}

/// Code-point lexicographic order on character sequences.
pub open spec fn chars_le(a: Seq<char>, b: Seq<char>) -> bool
    decreases a.len(),
{
    if a.len() == 0 {
        true
    } else if b.len() == 0 {
        false
    } else if a[0] != b[0] {
        (a[0] as int) < (b[0] as int)
    } else {
        chars_le(a.drop_first(), b.drop_first())
    }
}

pub proof fn lemma_chars_le_total(a: Seq<char>, b: Seq<char>)
    ensures
        chars_le(a, b) || chars_le(b, a),
    decreases a.len(),
{
    if a.len() == 0 {
        assert(chars_le(a, b));
    } else if b.len() == 0 {
        assert(chars_le(b, a));
    } else if a[0] == b[0] {
        lemma_chars_le_total(a.drop_first(), b.drop_first());
    } else {
        assert((a[0] as int) != (b[0] as int));
    }
}

pub proof fn lemma_chars_le_antisym(a: Seq<char>, b: Seq<char>)
    requires
        chars_le(a, b),
        chars_le(b, a),
    ensures
        a == b,
    decreases a.len(),
{
    if a.len() > 0 {
        lemma_chars_le_antisym(a.drop_first(), b.drop_first());
        assert(a =~= seq![a[0]] + a.drop_first());
        assert(b =~= seq![b[0]] + b.drop_first());
    } else {
        assert(b.len() == 0);
        assert(a =~= b);
    }
}

pub proof fn lemma_chars_le_trans(a: Seq<char>, b: Seq<char>, c: Seq<char>)
    requires
        chars_le(a, b),
        chars_le(b, c),
    ensures
        chars_le(a, c),
    decreases a.len(),
{
    if a.len() > 0 {
        if a[0] == b[0] && b[0] == c[0] {
            lemma_chars_le_trans(a.drop_first(), b.drop_first(), c.drop_first());
        }
    }
}

/// Whether two photos carry the same value of a sort field.
pub open spec fn field_eq(a: Photo, b: Photo, f: SortField) -> bool {
    match f {
        SortField::Id => a.id == b.id,
        SortField::Filename => a.filename@ == b.filename@,
        SortField::Title => a.title@ == b.title@,
        SortField::DateTaken => a.date_taken@ == b.date_taken@,
        SortField::SortOrder => a.sort_order == b.sort_order,
    }
}

/// Whether `a` is at or before `b` under one sort field.
pub open spec fn field_le(a: Photo, b: Photo, f: SortField) -> bool {
    match f {
        SortField::Id => a.id <= b.id,
        SortField::Filename => chars_le(a.filename@, b.filename@),
        SortField::Title => chars_le(a.title@, b.title@),
        SortField::DateTaken => chars_le(a.date_taken@, b.date_taken@),
        SortField::SortOrder => a.sort_order <= b.sort_order,
    }
}

/// Whether `a` is at or before `b` under a list of sort fields, applied in
/// turn: a later field decides only when all earlier ones tie.
pub open spec fn photo_le(a: Photo, b: Photo, fields: Seq<SortField>) -> bool
    decreases fields.len(),
{
    if fields.len() == 0 {
        true
    } else if field_eq(a, b, fields[0]) {
        photo_le(a, b, fields.drop_first())
    } else {
        field_le(a, b, fields[0])
    }
}

pub proof fn lemma_photo_le_total(a: Photo, b: Photo, fields: Seq<SortField>)
    ensures
        photo_le(a, b, fields) || photo_le(b, a, fields),
    decreases fields.len(),
{
    if fields.len() > 0 {
        let f = fields[0];
        if field_eq(a, b, f) {
            lemma_photo_le_total(a, b, fields.drop_first());
        } else {
            match f {
                SortField::Filename => lemma_chars_le_total(a.filename@, b.filename@),
                SortField::Title => lemma_chars_le_total(a.title@, b.title@),
                SortField::DateTaken => lemma_chars_le_total(a.date_taken@, b.date_taken@),
                _ => {},
            }
        }
    }
}

proof fn lemma_field_le_trans(a: Photo, b: Photo, c: Photo, f: SortField)
    requires
        field_le(a, b, f),
        field_le(b, c, f),
    ensures
        field_le(a, c, f),
{
    match f {
        SortField::Filename => lemma_chars_le_trans(a.filename@, b.filename@, c.filename@),
        SortField::Title => lemma_chars_le_trans(a.title@, b.title@, c.title@),
        SortField::DateTaken => lemma_chars_le_trans(a.date_taken@, b.date_taken@, c.date_taken@),
        _ => {},
    }
}

proof fn lemma_field_le_antisym(a: Photo, b: Photo, f: SortField)
    requires
        field_le(a, b, f),
        field_le(b, a, f),
    ensures
        field_eq(a, b, f),
{
    match f {
        SortField::Filename => lemma_chars_le_antisym(a.filename@, b.filename@),
        SortField::Title => lemma_chars_le_antisym(a.title@, b.title@),
        SortField::DateTaken => lemma_chars_le_antisym(a.date_taken@, b.date_taken@),
        _ => {},
    }
}

proof fn lemma_field_eq_le(a: Photo, b: Photo, f: SortField)
    requires
        field_eq(a, b, f),
    ensures
        field_le(a, b, f),
        field_le(b, a, f),
{
    match f {
        SortField::Filename => lemma_chars_le_total(a.filename@, b.filename@),
        SortField::Title => lemma_chars_le_total(a.title@, b.title@),
        SortField::DateTaken => lemma_chars_le_total(a.date_taken@, b.date_taken@),
        _ => {},
    }
}

pub proof fn lemma_photo_le_trans(a: Photo, b: Photo, c: Photo, fields: Seq<SortField>)
    requires
        photo_le(a, b, fields),
        photo_le(b, c, fields),
    ensures
        photo_le(a, c, fields),
    decreases fields.len(),
{
    if fields.len() > 0 {
        let f = fields[0];
        if field_eq(a, b, f) && field_eq(b, c, f) {
            lemma_photo_le_trans(a, b, c, fields.drop_first());
        } else if field_eq(a, b, f) {
            // b and c decide at this field; a carries b's value.
            assert(field_le(b, c, f));
            assert(field_le(a, c, f)) by {
                lemma_field_eq_le(a, b, f);
                lemma_field_le_trans(a, b, c, f);
            }
            assert(!field_eq(a, c, f));
        } else if field_eq(b, c, f) {
            assert(field_le(a, b, f));
            assert(field_le(a, c, f)) by {
                lemma_field_eq_le(b, c, f);
                lemma_field_le_trans(a, b, c, f);
            }
            assert(!field_eq(a, c, f));
        } else {
            assert(field_le(a, b, f) && field_le(b, c, f));
            lemma_field_le_trans(a, b, c, f);
            if field_eq(a, c, f) {
                // Then b would sit between two equal values, equal to both.
                lemma_field_eq_le(a, c, f);
                lemma_field_le_trans(b, c, a, f);
                lemma_field_le_antisym(a, b, f);
            }
        }
    }
}

/// The sort field a configuration token names, if any.
pub open spec fn spec_field_of(t: Seq<char>) -> Option<SortField> {
    if t == "id"@ {
        Some(SortField::Id)
    } else if t == "filename"@ {
        Some(SortField::Filename)
    } else if t == "title"@ {
        Some(SortField::Title)
    } else if t == "date_taken"@ {
        Some(SortField::DateTaken)
    } else if t == "sort_order"@ {
        Some(SortField::SortOrder)
    } else {
        None
    }
}

/// The field list a comma-separated configuration value denotes: tokens are
/// trimmed, empty ones are skipped, and an unknown field name fails the
/// whole list.
pub open spec fn spec_sort_fields(tokens: Seq<Seq<char>>) -> Option<Seq<SortField>>
    decreases tokens.len(),
{
    if tokens.len() == 0 {
        Some(Seq::empty())
    } else {
        let rest = spec_sort_fields(tokens.drop_last());
        let t = crate::strutil::spec_trim(tokens.last());
        if t.len() == 0 {
            rest
        } else {
            match spec_field_of(t) {
                Some(f) => match rest {
                    Some(r) => Some(r.push(f)),
                    None => None,
                },
                None => None,
            }
        }
    }
}

proof fn lemma_sort_fields_none(tokens: Seq<Seq<char>>, j: int)
    requires
        0 <= j <= tokens.len(),
        spec_sort_fields(tokens.take(j)) is None,
    ensures
        spec_sort_fields(tokens) is None,
    decreases tokens.len() - j,
{
    if j < tokens.len() {
        assert(tokens.take(j + 1).drop_last() =~= tokens.take(j));
        lemma_sort_fields_none(tokens, j + 1);
    } else {
        assert(tokens.take(j) =~= tokens);
    }
}

/// The sort field named by a trimmed token, if any.
fn field_of(t: &str) -> (r: Option<SortField>)
    ensures
        r == spec_field_of(t@),
{
    proof {
        reveal_strlit("id");
        reveal_strlit("filename");
        reveal_strlit("title");
        reveal_strlit("date_taken");
        reveal_strlit("sort_order");
    }
    if crate::strutil::str_eq(t, "id") {
        Some(SortField::Id)
    } else if crate::strutil::str_eq(t, "filename") {
        Some(SortField::Filename)
    } else if crate::strutil::str_eq(t, "title") {
        Some(SortField::Title)
    } else if crate::strutil::str_eq(t, "date_taken") {
        Some(SortField::DateTaken)
    } else if crate::strutil::str_eq(t, "sort_order") {
        Some(SortField::SortOrder)
    } else {
        None
    }
}

/// Parse a comma-separated sort-order value into the field list it names.
/// A value whose every token is empty yields the empty list; any unknown
/// field name is rejected, as the store would reject it.
pub fn parse_sort_fields(s: &str) -> (r: Result<Vec<SortField>, Error>)
    ensures
        r is Ok <==> spec_sort_fields(crate::strutil::split_commas(s@)) is Some,
        r matches Ok(v) ==> Some(v@) == spec_sort_fields(crate::strutil::split_commas(s@)),
        r matches Err(e) ==> e is PersistenceError,
{
    let ghost all = crate::strutil::split_commas(s@);
    let tokens = crate::strutil::split_commas_exec(s);
    let n = tokens.len();
    let mut out: Vec<SortField> = Vec::new();
    let mut j: usize = 0;
    proof {
        assert(all.take(0) =~= Seq::<Seq<char>>::empty());
    }
    while j < n
        invariant
            n == tokens@.len(),
            all == crate::strutil::split_commas(s@),
            tokens@.map_values(|t: String| t@) == all,
            0 <= j <= n,
            spec_sort_fields(all.take(j as int)) == Some(out@),
        decreases n - j,
    {
        proof {
            assert(all.take(j + 1).drop_last() =~= all.take(j as int));
            assert(all.take(j + 1).last() == tokens@[j as int]@);
        }
        let t = crate::strutil::trim_spaces(tokens[j].as_str());
        if t.as_str().unicode_len() != 0 {
            match field_of(t.as_str()) {
                Some(f) => {
                    out.push(f);
                },
                None => {
                    proof {
                        assert(t@ == crate::strutil::spec_trim(all.take(j + 1).last()));
                        assert(t@.len() != 0);
                        assert(spec_field_of(t@) is None);
                        assert(spec_sort_fields(all.take(j + 1)) is None);
                        lemma_sort_fields_none(all, j + 1);
                    }
                    return Err(
                        Error::PersistenceError {
                            detail: "unknown sort field: ".to_owned().concat(t.as_str()),
                        },
                    );
                },
            }
        }
        j = j + 1;
    }
    proof {
        assert(all.take(n as int) =~= all);
    }
    Ok(out)
}

/// Code-point comparison of two strings.
pub fn str_le(a: &str, b: &str) -> (r: bool)
    ensures
        r == chars_le(a@, b@),
{
    let na = a.unicode_len();
    let nb = b.unicode_len();
    let mut i: usize = 0;
    proof {
        assert(a@.skip(0) =~= a@);
        assert(b@.skip(0) =~= b@);
    }
    while i < na && i < nb
        invariant
            na == a@.len(),
            nb == b@.len(),
            0 <= i <= na,
            0 <= i <= nb,
            chars_le(a@, b@) == chars_le(a@.skip(i as int), b@.skip(i as int)),
            forall|k: int| 0 <= k < i ==> a@[k] == b@[k],
        decreases na - i,
    {
        let ca = a.get_char(i);
        let cb = b.get_char(i);
        if ca != cb {
            proof {
                assert(a@.skip(i as int)[0] == ca && b@.skip(i as int)[0] == cb);
            }
            return (ca as u32) < (cb as u32);
        }
        proof {
            assert(a@.skip(i as int).drop_first() =~= a@.skip(i + 1));
            assert(b@.skip(i as int).drop_first() =~= b@.skip(i + 1));
            assert(a@.skip(i as int)[0] == b@.skip(i as int)[0]);
        }
        i = i + 1;
    }
    proof {
        if i == na {
            assert(a@.skip(i as int).len() == 0);
        } else {
            assert(b@.skip(i as int).len() == 0 && a@.skip(i as int).len() > 0);
        }
    }
    na <= nb
}

/// Whether `a` is at or before `b` under the sort fields.
pub fn photo_le_exec(a: &Photo, b: &Photo, fields: &Vec<SortField>) -> (r: bool)
    ensures
        r == photo_le(*a, *b, fields@),
{
    let n = fields.len();
    let mut i: usize = 0;
    proof {
        assert(fields@.skip(0) =~= fields@);
    }
    while i < n
        invariant
            n == fields@.len(),
            0 <= i <= n,
            photo_le(*a, *b, fields@) == photo_le(*a, *b, fields@.skip(i as int)),
            forall|k: int| 0 <= k < i ==> field_eq(*a, *b, fields@[k]),
        decreases n - i,
    {
        proof {
            assert(fields@.skip(i as int)[0] == fields@[i as int]);
            assert(fields@.skip(i as int).drop_first() =~= fields@.skip(i + 1));
        }
        let le = match fields[i] {
            SortField::Id => {
                if a.id != b.id {
                    return a.id <= b.id;
                }
                true
            },
            SortField::Filename => {
                if !crate::strutil::str_eq(a.filename.as_str(), b.filename.as_str()) {
                    return str_le(a.filename.as_str(), b.filename.as_str());
                }
                true
            },
            SortField::Title => {
                if !crate::strutil::str_eq(a.title.as_str(), b.title.as_str()) {
                    return str_le(a.title.as_str(), b.title.as_str());
                }
                true
            },
            SortField::DateTaken => {
                if !crate::strutil::str_eq(a.date_taken.as_str(), b.date_taken.as_str()) {
                    return str_le(a.date_taken.as_str(), b.date_taken.as_str());
                }
                true
            },
            SortField::SortOrder => {
                if a.sort_order != b.sort_order {
                    return a.sort_order <= b.sort_order;
                }
                true
            },
        };
        proof {
            assert(le);
            assert(field_eq(*a, *b, fields@[i as int]));
        }
        i = i + 1;
    }
    true
}

/// True when the photos are pairwise ordered by the sort fields.
pub open spec fn photos_sorted(v: Seq<Photo>, fields: Seq<SortField>) -> bool {
    forall|i: int, j: int|
        0 <= i < j < v.len() ==> photo_le(#[trigger] v[i], #[trigger] v[j], fields)
}

/// Order a directory's photos by the sort fields. The result is a
/// permutation of the input, pairwise ordered.
pub fn sort_photos(photos: &mut Vec<Photo>, fields: &Vec<SortField>)
    ensures
        final(photos)@.to_multiset() == old(photos)@.to_multiset(),
        photos_sorted(final(photos)@, fields@),
        final(photos)@.len() == old(photos)@.len(),
{
    let n = photos.len();
    if n <= 1 {
        return ;
    }
    let mut i: usize = 1;
    while i < n
        invariant
            n == photos@.len(),
            1 <= i <= n,
            photos@.to_multiset() == old(photos)@.to_multiset(),
            forall|k1: int, k2: int|
                0 <= k1 < k2 < i ==> photo_le(#[trigger] photos@[k1], #[trigger] photos@[k2], fields@),
        decreases n - i,
    {
        // Move the element at `i` leftward until its left neighbour is at
        // or before it.
        let mut j: usize = i;
        let mut done = false;
        while j > 0 && !done
            invariant
                n == photos@.len(),
                0 <= j <= i < n,
                photos@.to_multiset() == old(photos)@.to_multiset(),
                forall|k1: int, k2: int|
                    0 <= k1 < k2 < j ==> photo_le(
                        #[trigger] photos@[k1],
                        #[trigger] photos@[k2],
                        fields@,
                    ),
                forall|k1: int, k2: int|
                    0 <= k1 < j && j < k2 <= i ==> photo_le(
                        #[trigger] photos@[k1],
                        #[trigger] photos@[k2],
                        fields@,
                    ),
                forall|k2: int|
                    j < k2 <= i ==> photo_le(photos@[j as int], #[trigger] photos@[k2], fields@),
                forall|k1: int, k2: int|
                    j < k1 < k2 <= i ==> photo_le(
                        #[trigger] photos@[k1],
                        #[trigger] photos@[k2],
                        fields@,
                    ),
                done ==> j > 0 && photo_le(photos@[j - 1], photos@[j as int], fields@),
            decreases 2 * j + (if done {
                0int
            } else {
                1int
            }),
        {
            if photo_le_exec(&photos[j - 1], &photos[j], fields) {
                done = true;
            } else {
                proof {
                    lemma_photo_le_total(photos@[j - 1], photos@[j as int], fields@);
                }
                let ghost before = photos@;
                let a = photos[j - 1].clone();
                let b = photos[j].clone();
                photos[j - 1] = b;
                photos[j] = a;
                proof {
                    assert(photos@ =~= before.update(j - 1, before[j as int]).update(
                        j as int,
                        before[j - 1],
                    ));
                    lemma_swap_multiset(before, j - 1, j as int);
                }
                j = j - 1;
            }
        }
        proof {
            // The prefix of length i + 1 is now pairwise ordered: positions
            // below j were already ordered, the moved element at j is at or
            // after its neighbour and transitively after the whole prefix,
            // and the shifted elements above j kept their order.
            assert forall|k1: int, k2: int| 0 <= k1 < k2 < i + 1 implies photo_le(
                #[trigger] photos@[k1],
                #[trigger] photos@[k2],
                fields@,
            ) by {
                if k2 == j {
                    if k1 == j - 1 {
                    } else {
                        lemma_photo_le_trans(
                            photos@[k1],
                            photos@[j - 1],
                            photos@[j as int],
                            fields@,
                        );
                    }
                }
            }
        }
        i = i + 1;
    }
}

proof fn lemma_swap_multiset(s: Seq<Photo>, i: int, j: int)
    requires
        0 <= i < j < s.len(),
    ensures
        s.update(i, s[j]).update(j, s[i]).to_multiset() == s.to_multiset(),
{
    broadcast use vstd::seq_lib::group_to_multiset_ensures;
    broadcast use vstd::multiset::group_multiset_axioms;

    let s1 = s.update(i, s[j]);
    let s2 = s1.update(j, s[i]);
    assert(s.contains(s[i]));
    assert(s.contains(s[j]));
    assert(s1.to_multiset() == s.to_multiset().insert(s[j]).remove(s[i]));
    assert(s1[j] == s[j]);
    assert(s2.to_multiset() == s1.to_multiset().insert(s[i]).remove(s1[j]));
    assert(s2.to_multiset() =~= s.to_multiset());
}

} // verus!
