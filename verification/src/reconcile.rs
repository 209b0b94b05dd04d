//! Reconciliation of the filesystem against the persisted store.
//!
//! Callers walk the photo directory tree and hand in a snapshot of it; the
//! engine computes which records to insert, remove or move, allocates
//! identifiers for genuinely new photos, and rebuilds the in-memory index.
//! Applying the changes to the store is the caller's part.

use vstd::prelude::*;

use crate::config::{Config, DirOverride};
use crate::photo::Photo;
use crate::strutil::{is_image_name, spec_join};
use crate::uid::{is_valid_uid, UID};

verus! {

/// A snapshot of one directory of the photo tree, as the caller found it
/// on disk. `name` is the directory's own name, empty at the root.
#[derive(Debug)]
pub struct DirTree {
    /// Name of this directory; empty at the root.
    pub name: String,
    /// Names of the regular files in the directory.
    pub files: Vec<String>,
    /// Names of the files in the matching cache directory.
    pub cache_files: Vec<String>,
    /// The directory's local override document.
    pub config: DirOverride,
    /// All subdirectories, dotfiles excluded.
    pub subdirs: Vec<DirTree>,
}

/// Whether a record lists the given file name.
pub open spec fn has_filename(records: Seq<Photo>, f: Seq<char>) -> bool {
    exists|k: int| 0 <= k < records.len() && (#[trigger] records[k]).filename@ == f
}

/// Whether one of the file names matches, as an image, a record's name.
pub open spec fn has_image_file(files: Seq<Seq<char>>, f: Seq<char>) -> bool {
    files.contains(f) && is_image_name(f)
}

/// The records of the store that live at a path.
pub open spec fn records_at(store: Seq<Photo>, path: Seq<char>) -> Seq<Photo> {
    store.filter(|p: Photo| p.path@ == path)
}

/// Select the records of the store that live at a path, in store order.
pub fn records_at_exec(store: &Vec<Photo>, path: &str) -> (r: Vec<Photo>)
    ensures
        r@ == records_at(store@, path@),
{
    let n = store.len();
    let mut r: Vec<Photo> = Vec::new();
    let mut i: usize = 0;
    proof {
        reveal(Seq::filter);
        assert(r@ =~= records_at(store@.take(0), path@));
    }
    while i < n
        invariant
            n == store@.len(),
            0 <= i <= n,
            r@ == records_at(store@.take(i as int), path@),
        decreases n - i,
    {
        let ghost taken = store@.take(i as int);
        if crate::strutil::str_eq(store[i].path.as_str(), path) {
            r.push(store[i].clone());
        }
        proof {
            reveal(Seq::filter);
            assert(store@.take(i + 1).drop_last() =~= taken);
            assert(store@.take(i + 1).last() == store@[i as int]);
            assert(r@ =~= records_at(store@.take(i + 1), path@));
        }
        i = i + 1;
    }
    proof {
        assert(store@.take(n as int) =~= store@);
    }
    r
}

/// The image files of a directory listing that no record names: the
/// insertion candidates of one directory, in listing order.
pub open spec fn dir_insert_names(files: Seq<Seq<char>>, records: Seq<Photo>) -> Seq<Seq<char>> {
    files.filter(|f: Seq<char>| is_image_name(f) && !has_filename(records, f))
}

/// The records whose file is gone from the directory listing: the removal
/// candidates of one directory, in record order.
pub open spec fn dir_remove_records(files: Seq<Seq<char>>, records: Seq<Photo>) -> Seq<Photo> {
    records.filter(|p: Photo| !has_image_file(files, p.filename@))
}

/// Diff one directory: the image files present on disk but not recorded
/// become insertion candidates, the records without a file become removal
/// candidates. A record is never both.
pub fn diff_dir(files: &Vec<String>, records: &Vec<Photo>) -> (r: (Vec<String>, Vec<Photo>))
    ensures
        r.0@.map_values(|s: String| s@) == dir_insert_names(
            files@.map_values(|s: String| s@),
            records@,
        ),
        r.1@ == dir_remove_records(files@.map_values(|s: String| s@), records@),
{
    let ghost fviews = files@.map_values(|s: String| s@);
    let n = files.len();
    let mut inserts: Vec<String> = Vec::new();
    let mut i: usize = 0;
    proof {
        reveal(Seq::filter);
        assert(fviews.take(0) =~= Seq::<Seq<char>>::empty());
        assert(inserts@.map_values(|s: String| s@) =~= dir_insert_names(
            fviews.take(0),
            records@,
        ));
    }
    while i < n
        invariant
            n == files@.len(),
            fviews == files@.map_values(|s: String| s@),
            0 <= i <= n,
            inserts@.map_values(|s: String| s@) == dir_insert_names(
                fviews.take(i as int),
                records@,
            ),
        decreases n - i,
    {
        let ghost taken = fviews.take(i as int);
        let ghost ins_old = inserts@;
        let mut keep = false;
        if crate::strutil::is_image_filename(files[i].as_str()) {
            if !records_have_filename(records, files[i].as_str()) {
                keep = true;
                inserts.push(files[i].clone());
            }
        }
        proof {
            reveal(Seq::filter);
            assert(fviews.take(i + 1).drop_last() =~= taken);
            assert(fviews.take(i + 1).last() == fviews[i as int]);
            assert(fviews[i as int] == files@[i as int]@);
            if keep {
                assert(inserts@.map_values(|s: String| s@) =~= ins_old.map_values(
                    |s: String| s@,
                ).push(files@[i as int]@));
            }
            assert(inserts@.map_values(|s: String| s@) =~= dir_insert_names(
                fviews.take(i + 1),
                records@,
            ));
        }
        i = i + 1;
    }
    let m = records.len();
    let mut removes: Vec<Photo> = Vec::new();
    let mut j: usize = 0;
    proof {
        reveal(Seq::filter);
        assert(fviews.take(n as int) =~= fviews);
        assert(removes@ =~= dir_remove_records(fviews, records@.take(0)));
    }
    while j < m
        invariant
            m == records@.len(),
            fviews == files@.map_values(|s: String| s@),
            0 <= j <= m,
            removes@ == dir_remove_records(fviews, records@.take(j as int)),
        decreases m - j,
    {
        let ghost rtaken = records@.take(j as int);
        let mut gone = true;
        if crate::strutil::is_image_filename(records[j].filename.as_str()) {
            if filenames_contain(files, records[j].filename.as_str()) {
                gone = false;
            }
        }
        if gone {
            removes.push(records[j].clone());
        }
        proof {
            reveal(Seq::filter);
            assert(records@.take(j + 1).drop_last() =~= rtaken);
            assert(records@.take(j + 1).last() == records@[j as int]);
            assert(removes@ =~= dir_remove_records(fviews, records@.take(j + 1)));
        }
        j = j + 1;
    }
    proof {
        assert(records@.take(m as int) =~= records@);
    }
    (inserts, removes)
}

/// Whether a record of the list carries the file name.
fn records_have_filename(records: &Vec<Photo>, name: &str) -> (r: bool)
    ensures
        r == has_filename(records@, name@),
{
    let n = records.len();
    let mut i: usize = 0;
    while i < n
        invariant
            n == records@.len(),
            0 <= i <= n,
            forall|k: int| 0 <= k < i ==> (#[trigger] records@[k]).filename@ != name@,
        decreases n - i,
    {
        if crate::strutil::str_eq(records[i].filename.as_str(), name) {
            assert(records@[i as int].filename@ == name@);
            return true;
        }
        i = i + 1;
    }
    false
}

/// Whether the listing contains the file name.
fn filenames_contain(files: &Vec<String>, name: &str) -> (r: bool)
    ensures
        r == files@.map_values(|s: String| s@).contains(name@),
{
    let n = files.len();
    let mut i: usize = 0;
    while i < n
        invariant
            n == files@.len(),
            0 <= i <= n,
            forall|k: int| 0 <= k < i ==> (#[trigger] files@[k])@ != name@,
        decreases n - i,
    {
        if crate::strutil::str_eq(files[i].as_str(), name) {
            proof {
                assert(files@.map_values(|s: String| s@)[i as int] == name@);
            }
            return true;
        }
        i = i + 1;
    }
    proof {
        let fviews = files@.map_values(|s: String| s@);
        assert forall|k: int| 0 <= k < fviews.len() implies #[trigger] fviews[k] != name@ by {
            assert(fviews[k] == files@[k]@);
        }
    }
    false
}

/// A directory whose own filesystem listing matches its records exactly
/// produces no insertion and no removal candidates.
pub proof fn lemma_diff_idempotent(files: Seq<Seq<char>>, records: Seq<Photo>)
    requires
        forall|f: Seq<char>| files.contains(f) && is_image_name(f) ==> has_filename(records, f),
        forall|k: int|
            0 <= k < records.len() ==> has_image_file(files, (#[trigger] records[k]).filename@),
    ensures
        dir_insert_names(files, records).len() == 0,
        dir_remove_records(files, records).len() == 0,
    decreases files.len(),
{
    reveal(Seq::filter);
    lemma_filter_none(files, records);
    lemma_filter_none_records(files, records);
}

proof fn lemma_filter_none(files: Seq<Seq<char>>, records: Seq<Photo>)
    requires
        forall|f: Seq<char>| files.contains(f) && is_image_name(f) ==> has_filename(records, f),
    ensures
        dir_insert_names(files, records).len() == 0,
    decreases files.len(),
{
    reveal(Seq::filter);
    if files.len() > 0 {
        assert forall|f: Seq<char>|
            files.drop_last().contains(f) && is_image_name(f) implies has_filename(
            records,
            f,
        ) by {
            let k = choose|k: int|
                0 <= k < files.drop_last().len() && files.drop_last()[k] == f;
            assert(files[k] == f);
            assert(files.contains(f));
        }
        lemma_filter_none(files.drop_last(), records);
        assert(files.contains(files.last()));
    }
}

proof fn lemma_filter_none_records(files: Seq<Seq<char>>, records: Seq<Photo>)
    requires
        forall|k: int|
            0 <= k < records.len() ==> has_image_file(files, (#[trigger] records[k]).filename@),
    ensures
        dir_remove_records(files, records).len() == 0,
    decreases records.len(),
{
    reveal(Seq::filter);
    if records.len() > 0 {
        lemma_filter_none_records(files, records.drop_last());
    }
}

/// Whether some record of the list carries the hash.
pub open spec fn has_hash(photos: Seq<Photo>, h: Seq<char>) -> bool {
    exists|k: int| 0 <= k < photos.len() && (#[trigger] photos[k]).md5@ == h
}

/// The move pairs detected between removal and insertion candidates: for
/// each insertion candidate in order, every removal candidate with the
/// same content hash, paired as (old record, new file).
pub open spec fn move_pairs(inserts: Seq<Photo>, removes: Seq<Photo>) -> Seq<(Photo, Photo)>
    decreases inserts.len(),
{
    if inserts.len() == 0 {
        Seq::empty()
    } else {
        removes.filter(|o: Photo| o.md5@ == inserts[0].md5@).map_values(
            |o: Photo| (o, inserts[0]),
        ) + move_pairs(inserts.drop_first(), removes)
    }
}

/// Cross-match insertion and removal candidates by content hash: a match
/// is a move, excluded from both sets. A photo moved with unchanged
/// content is therefore reported exactly as a move, never as an insert or
/// a removal, and the pair keeps the old record, whose identifier the move
/// preserves.
pub fn detect_moves(inserts: Vec<Photo>, removes: Vec<Photo>) -> (r: (
    Vec<Photo>,
    Vec<Photo>,
    Vec<(Photo, Photo)>,
))
    ensures
        r.0@ == inserts@.filter(|p: Photo| !has_hash(removes@, p.md5@)),
        r.1@ == removes@.filter(|p: Photo| !has_hash(inserts@, p.md5@)),
        r.2@ == move_pairs(inserts@, removes@),
        forall|k: int|
            0 <= k < r.2@.len() ==> (#[trigger] r.2@[k]).0.md5@ == r.2@[k].1.md5@,
        // Each pair carries one original record and one original file
        // candidate, unchanged: applying the move keyed by the record's
        // identifier therefore never touches the identifier itself.
        forall|k: int|
            0 <= k < r.2@.len() ==> removes@.contains((#[trigger] r.2@[k]).0)
                && inserts@.contains(r.2@[k].1),
{
    let n = inserts.len();
    let m = removes.len();
    let mut pairs: Vec<(Photo, Photo)> = Vec::new();
    let mut i: usize = 0;
    proof {
        lemma_move_pairs_prefix(inserts@, removes@, 0);
        assert(pairs@ =~= move_pairs_prefix(inserts@, removes@, 0));
    }
    while i < n
        invariant
            n == inserts@.len(),
            m == removes@.len(),
            0 <= i <= n,
            pairs@ == move_pairs_prefix(inserts@, removes@, i as int),
        decreases n - i,
    {
        let ghost pairs_outer = pairs@;
        let mut j: usize = 0;
        proof {
            reveal(Seq::filter);
            assert(removes@.take(0).filter(|o: Photo| o.md5@ == inserts@[i as int].md5@)
                =~= Seq::<Photo>::empty());
            assert(pairs@ =~= pairs_outer + removes@.take(0).filter(
                |o: Photo| o.md5@ == inserts@[i as int].md5@,
            ).map_values(|o: Photo| (o, inserts@[i as int])));
        }
        while j < m
            invariant
                n == inserts@.len(),
                m == removes@.len(),
                0 <= i < n,
                0 <= j <= m,
                pairs@ == pairs_outer + removes@.take(j as int).filter(
                    |o: Photo| o.md5@ == inserts@[i as int].md5@,
                ).map_values(|o: Photo| (o, inserts@[i as int])),
            decreases m - j,
        {
            let ghost rtaken = removes@.take(j as int);
            if crate::strutil::str_eq(removes[j].md5.as_str(), inserts[i].md5.as_str()) {
                pairs.push((removes[j].clone(), inserts[i].clone()));
            }
            proof {
                reveal(Seq::filter);
                assert(removes@.take(j + 1).drop_last() =~= rtaken);
                assert(removes@.take(j + 1).last() == removes@[j as int]);
                assert(pairs@ =~= pairs_outer + removes@.take(j + 1).filter(
                    |o: Photo| o.md5@ == inserts@[i as int].md5@,
                ).map_values(|o: Photo| (o, inserts@[i as int])));
            }
            j = j + 1;
        }
        proof {
            assert(removes@.take(m as int) =~= removes@);
            lemma_move_pairs_prefix_step(inserts@, removes@, i as int);
            assert(pairs@ =~= move_pairs_prefix(inserts@, removes@, i + 1));
        }
        i = i + 1;
    }
    proof {
        lemma_move_pairs_prefix_full(inserts@, removes@);
    }
    // Keep only the candidates whose hash matched nothing on the other side.
    let mut kept_inserts: Vec<Photo> = Vec::new();
    let mut k: usize = 0;
    proof {
        reveal(Seq::filter);
        assert(kept_inserts@ =~= inserts@.take(0).filter(
            |p: Photo| !has_hash(removes@, p.md5@),
        ));
    }
    while k < n
        invariant
            n == inserts@.len(),
            m == removes@.len(),
            0 <= k <= n,
            kept_inserts@ == inserts@.take(k as int).filter(
                |p: Photo| !has_hash(removes@, p.md5@),
            ),
        decreases n - k,
    {
        let ghost itaken = inserts@.take(k as int);
        if !photos_have_hash(&removes, inserts[k].md5.as_str()) {
            kept_inserts.push(inserts[k].clone());
        }
        proof {
            reveal(Seq::filter);
            assert(inserts@.take(k + 1).drop_last() =~= itaken);
            assert(inserts@.take(k + 1).last() == inserts@[k as int]);
            assert(kept_inserts@ =~= inserts@.take(k + 1).filter(
                |p: Photo| !has_hash(removes@, p.md5@),
            ));
        }
        k = k + 1;
    }
    let mut kept_removes: Vec<Photo> = Vec::new();
    let mut t: usize = 0;
    proof {
        assert(inserts@.take(n as int) =~= inserts@);
        reveal(Seq::filter);
        assert(kept_removes@ =~= removes@.take(0).filter(
            |p: Photo| !has_hash(inserts@, p.md5@),
        ));
    }
    while t < m
        invariant
            n == inserts@.len(),
            m == removes@.len(),
            0 <= t <= m,
            kept_removes@ == removes@.take(t as int).filter(
                |p: Photo| !has_hash(inserts@, p.md5@),
            ),
        decreases m - t,
    {
        let ghost ttaken = removes@.take(t as int);
        if !photos_have_hash(&inserts, removes[t].md5.as_str()) {
            kept_removes.push(removes[t].clone());
        }
        proof {
            reveal(Seq::filter);
            assert(removes@.take(t + 1).drop_last() =~= ttaken);
            assert(removes@.take(t + 1).last() == removes@[t as int]);
            assert(kept_removes@ =~= removes@.take(t + 1).filter(
                |p: Photo| !has_hash(inserts@, p.md5@),
            ));
        }
        t = t + 1;
    }
    proof {
        assert(removes@.take(m as int) =~= removes@);
        lemma_move_pairs_hashes(inserts@, removes@);
        lemma_move_pairs_members(inserts@, removes@);
    }
    (kept_inserts, kept_removes, pairs)
}

/// Every move pair is made of one removal candidate and one insertion
/// candidate, taken as they are.
proof fn lemma_move_pairs_members(inserts: Seq<Photo>, removes: Seq<Photo>)
    ensures
        forall|k: int|
            0 <= k < move_pairs(inserts, removes).len() ==> removes.contains(
                (#[trigger] move_pairs(inserts, removes)[k]).0,
            ) && inserts.contains(move_pairs(inserts, removes)[k].1),
    decreases inserts.len(),
{
    reveal(Seq::filter);
    if inserts.len() > 0 {
        lemma_move_pairs_members(inserts.drop_first(), removes);
        let pred = |o: Photo| o.md5@ == inserts[0].md5@;
        let head = removes.filter(pred).map_values(|o: Photo| (o, inserts[0]));
        assert forall|k: int|
            0 <= k < move_pairs(inserts, removes).len() implies removes.contains(
            (#[trigger] move_pairs(inserts, removes)[k]).0,
        ) && inserts.contains(move_pairs(inserts, removes)[k].1) by {
            if k < head.len() {
                assert(move_pairs(inserts, removes)[k] == head[k]);
                assert(head[k] == (removes.filter(pred)[k], inserts[0]));
                removes.lemma_filter_contains_rev(pred, removes.filter(pred)[k]);
                assert(removes.filter(pred).contains(removes.filter(pred)[k]));
                assert(inserts[0] == inserts[0]);
                assert(inserts.contains(inserts[0]));
            } else {
                let k2 = k - head.len();
                assert(move_pairs(inserts, removes)[k] == move_pairs(
                    inserts.drop_first(),
                    removes,
                )[k2]);
                assert(inserts.drop_first().contains(
                    move_pairs(inserts.drop_first(), removes)[k2].1,
                ));
                let w = choose|w: int|
                    0 <= w < inserts.drop_first().len() && inserts.drop_first()[w]
                        == move_pairs(inserts.drop_first(), removes)[k2].1;
                assert(inserts[w + 1] == move_pairs(inserts.drop_first(), removes)[k2].1);
            }
        }
    }
}

/// Whether some record of the list carries the hash.
fn photos_have_hash(photos: &Vec<Photo>, h: &str) -> (r: bool)
    ensures
        r == has_hash(photos@, h@),
{
    let n = photos.len();
    let mut i: usize = 0;
    while i < n
        invariant
            n == photos@.len(),
            0 <= i <= n,
            forall|k: int| 0 <= k < i ==> (#[trigger] photos@[k]).md5@ != h@,
        decreases n - i,
    {
        if crate::strutil::str_eq(photos[i].md5.as_str(), h) {
            assert(photos@[i as int].md5@ == h@);
            return true;
        }
        i = i + 1;
    }
    false
}

/// The move pairs of the first `i` insertion candidates.
pub open spec fn move_pairs_prefix(inserts: Seq<Photo>, removes: Seq<Photo>, i: int) -> Seq<
    (Photo, Photo),
> {
    move_pairs(inserts.take(i), removes)
}

proof fn lemma_move_pairs_prefix(inserts: Seq<Photo>, removes: Seq<Photo>, i: int)
    requires
        i == 0,
    ensures
        move_pairs_prefix(inserts, removes, 0) =~= Seq::<(Photo, Photo)>::empty(),
{
    assert(inserts.take(0) =~= Seq::<Photo>::empty());
}

proof fn lemma_move_pairs_prefix_step(inserts: Seq<Photo>, removes: Seq<Photo>, i: int)
    requires
        0 <= i < inserts.len(),
    ensures
        move_pairs_prefix(inserts, removes, i + 1) == move_pairs_prefix(inserts, removes, i)
            + removes.filter(|o: Photo| o.md5@ == inserts[i].md5@).map_values(
            |o: Photo| (o, inserts[i]),
        ),
{
    lemma_move_pairs_snoc(inserts.take(i + 1), removes);
    assert(inserts.take(i + 1).drop_last() =~= inserts.take(i));
    assert(inserts.take(i + 1).last() == inserts[i]);
}

/// Move pairs extend at the back when one insertion candidate is added.
proof fn lemma_move_pairs_snoc(inserts: Seq<Photo>, removes: Seq<Photo>)
    requires
        inserts.len() > 0,
    ensures
        move_pairs(inserts, removes) == move_pairs(inserts.drop_last(), removes)
            + removes.filter(|o: Photo| o.md5@ == inserts.last().md5@).map_values(
            |o: Photo| (o, inserts.last()),
        ),
    decreases inserts.len(),
{
    if inserts.len() == 1 {
        assert(inserts.drop_first() =~= Seq::<Photo>::empty());
        assert(inserts.drop_last() =~= Seq::<Photo>::empty());
        assert(inserts[0] == inserts.last());
        assert(move_pairs(inserts.drop_last(), removes) =~= Seq::<(Photo, Photo)>::empty());
        assert(move_pairs(inserts, removes) =~= removes.filter(
            |o: Photo| o.md5@ == inserts.last().md5@,
        ).map_values(|o: Photo| (o, inserts.last())) + move_pairs(inserts.drop_first(), removes));
        assert(move_pairs(inserts.drop_first(), removes) =~= Seq::<(Photo, Photo)>::empty());
        assert(move_pairs(inserts, removes) =~= move_pairs(inserts.drop_last(), removes)
            + removes.filter(|o: Photo| o.md5@ == inserts.last().md5@).map_values(
            |o: Photo| (o, inserts.last()),
        ));
    } else {
        lemma_move_pairs_snoc(inserts.drop_first(), removes);
        assert(inserts.drop_first().drop_last() =~= inserts.drop_last().drop_first());
        assert(inserts.drop_first().last() == inserts.last());
        assert(inserts.drop_last()[0] == inserts[0]);
        assert(move_pairs(inserts, removes) =~= move_pairs(inserts.drop_last(), removes)
            + removes.filter(|o: Photo| o.md5@ == inserts.last().md5@).map_values(
            |o: Photo| (o, inserts.last()),
        )) by {
            assert(move_pairs(inserts.drop_last(), removes) == removes.filter(
                |o: Photo| o.md5@ == inserts.drop_last()[0].md5@,
            ).map_values(|o: Photo| (o, inserts.drop_last()[0])) + move_pairs(
                inserts.drop_last().drop_first(),
                removes,
            ));
        }
    }
}

proof fn lemma_move_pairs_prefix_full(inserts: Seq<Photo>, removes: Seq<Photo>)
    ensures
        move_pairs_prefix(inserts, removes, inserts.len() as int) == move_pairs(
            inserts,
            removes,
        ),
{
    assert(inserts.take(inserts.len() as int) =~= inserts);
}

/// Every move pair joins an old record and a new file with equal hashes.
proof fn lemma_move_pairs_hashes(inserts: Seq<Photo>, removes: Seq<Photo>)
    ensures
        forall|k: int|
            0 <= k < move_pairs(inserts, removes).len() ==> (#[trigger] move_pairs(
                inserts,
                removes,
            )[k]).0.md5@ == move_pairs(inserts, removes)[k].1.md5@,
    decreases inserts.len(),
{
    reveal(Seq::filter);
    if inserts.len() > 0 {
        lemma_move_pairs_hashes(inserts.drop_first(), removes);
        let head = removes.filter(|o: Photo| o.md5@ == inserts[0].md5@).map_values(
            |o: Photo| (o, inserts[0]),
        );
        assert forall|k: int|
            0 <= k < move_pairs(inserts, removes).len() implies (#[trigger] move_pairs(
            inserts,
            removes,
        )[k]).0.md5@ == move_pairs(inserts, removes)[k].1.md5@ by {
            if k < head.len() {
                assert(move_pairs(inserts, removes)[k] == head[k]);
                assert(head[k] == (removes.filter(|o: Photo| o.md5@ == inserts[0].md5@)[k],
                inserts[0]));
                removes.lemma_filter_pred(|o: Photo| o.md5@ == inserts[0].md5@, k);
            } else {
                assert(move_pairs(inserts, removes)[k] == move_pairs(
                    inserts.drop_first(),
                    removes,
                )[k - head.len()]);
            }
        }
    }
}

proof fn lemma_filter_concat<A>(a: Seq<A>, b: Seq<A>, pred: spec_fn(A) -> bool)
    ensures
        (a + b).filter(pred) == a.filter(pred) + b.filter(pred),
    decreases b.len(),
{
    reveal(Seq::filter);
    if b.len() == 0 {
        assert(a + b =~= a);
        assert(a.filter(pred) + b.filter(pred) =~= a.filter(pred));
    } else {
        lemma_filter_concat(a, b.drop_last(), pred);
        assert((a + b).drop_last() =~= a + b.drop_last());
        assert((a + b).last() == b.last());
        if pred(b.last()) {
            assert(a.filter(pred) + b.filter(pred) =~= (a.filter(pred) + b.drop_last().filter(
                pred,
            )).push(b.last()));
        } else {
            assert(a.filter(pred) + b.filter(pred) =~= a.filter(pred) + b.drop_last().filter(
                pred,
            ));
        }
    }
}

proof fn lemma_filter_singleton<A>(s: Seq<A>, pred: spec_fn(A) -> bool, r: int)
    requires
        0 <= r < s.len(),
        pred(s[r]),
        forall|k: int| 0 <= k < s.len() && k != r ==> !pred(#[trigger] s[k]),
    ensures
        s.filter(pred) == seq![s[r]],
    decreases s.len(),
{
    reveal(Seq::filter);
    if r == s.len() - 1 {
        s.drop_last().lemma_all_neg_filter_empty(pred);
        assert(s.drop_last().filter(pred) =~= Seq::<A>::empty());
        assert(s.filter(pred) =~= seq![s[r]]);
    } else {
        lemma_filter_singleton(s.drop_last(), pred, r);
        assert(s.drop_last()[r] == s[r]);
        assert(!pred(s.last()));
        assert(s.filter(pred) =~= seq![s[r]]);
    }
}

proof fn lemma_move_pairs_for_hash(inserts: Seq<Photo>, removes: Seq<Photo>, i: int, r: int)
    requires
        0 <= i < inserts.len(),
        0 <= r < removes.len(),
        inserts[i].md5@ == removes[r].md5@,
        forall|k: int|
            0 <= k < inserts.len() && k != i ==> (#[trigger] inserts[k]).md5@
                != inserts[i].md5@,
        forall|k: int|
            0 <= k < removes.len() && k != r ==> (#[trigger] removes[k]).md5@
                != removes[r].md5@,
    ensures
        move_pairs(inserts, removes).filter(
            |pr: (Photo, Photo)| pr.0.md5@ == removes[r].md5@,
        ) == seq![(removes[r], inserts[i])],
    decreases inserts.len(),
{
    reveal(Seq::filter);
    let h = removes[r].md5@;
    let pred_pair = |pr: (Photo, Photo)| pr.0.md5@ == removes[r].md5@;
    let head_src = removes.filter(|o: Photo| o.md5@ == inserts[0].md5@);
    let head = head_src.map_values(|o: Photo| (o, inserts[0]));
    let rest = move_pairs(inserts.drop_first(), removes);
    assert(move_pairs(inserts, removes) == head + rest);
    lemma_filter_concat(head, rest, pred_pair);
    if i == 0 {
        lemma_filter_singleton(removes, |o: Photo| o.md5@ == inserts[0].md5@, r);
        assert(head =~= seq![(removes[r], inserts[0])]);
        assert(head.filter(pred_pair) =~= seq![(removes[r], inserts[i])]);
        // No later insertion candidate carries the hash, so the rest of
        // the pairs never names it.
        lemma_move_pairs_hashes(inserts.drop_first(), removes);
        lemma_move_pairs_members(inserts.drop_first(), removes);
        assert forall|k: int| 0 <= k < rest.len() implies !pred_pair(#[trigger] rest[k]) by {
            let w = choose|w: int|
                0 <= w < inserts.drop_first().len() && inserts.drop_first()[w] == rest[k].1;
            assert(inserts[w + 1].md5@ != h);
        }
        rest.lemma_all_neg_filter_empty(pred_pair);
        assert(rest.filter(pred_pair) =~= Seq::<(Photo, Photo)>::empty());
        assert(head.filter(pred_pair) + rest.filter(pred_pair) =~= seq![
            (removes[r], inserts[i]),
        ]);
    } else {
        assert forall|k: int| 0 <= k < head.len() implies !pred_pair(#[trigger] head[k]) by {
            assert(head[k] == (head_src[k], inserts[0]));
            removes.lemma_filter_pred(|o: Photo| o.md5@ == inserts[0].md5@, k);
        }
        head.lemma_all_neg_filter_empty(pred_pair);
        assert(head.filter(pred_pair) =~= Seq::<(Photo, Photo)>::empty());
        assert forall|k: int|
            0 <= k < inserts.drop_first().len() && k != i - 1 implies (
        #[trigger] inserts.drop_first()[k]).md5@ != inserts.drop_first()[i - 1].md5@ by {
            assert(inserts.drop_first()[k] == inserts[k + 1]);
        }
        lemma_move_pairs_for_hash(inserts.drop_first(), removes, i - 1, r);
        assert(inserts.drop_first()[i - 1] == inserts[i]);
        assert(head.filter(pred_pair) + rest.filter(pred_pair) =~= seq![
            (removes[r], inserts[i]),
        ]);
    }
}

/// A photo moved with unchanged content is reported exactly once. When a
/// content hash belongs to exactly one removal candidate (the old record)
/// and exactly one insertion candidate (the file at its new place), the
/// detected pairs carry exactly one pair for that hash, made of those two
/// records; the old record leaves the removals and the new file leaves
/// the insertions, so the photo is neither inserted nor removed, and the
/// move keeps the old record with its identifier.
pub proof fn lemma_move_round_trip(inserts: Seq<Photo>, removes: Seq<Photo>, i: int, r: int)
    requires
        0 <= i < inserts.len(),
        0 <= r < removes.len(),
        inserts[i].md5@ == removes[r].md5@,
        forall|k: int|
            0 <= k < inserts.len() && k != i ==> (#[trigger] inserts[k]).md5@
                != inserts[i].md5@,
        forall|k: int|
            0 <= k < removes.len() && k != r ==> (#[trigger] removes[k]).md5@
                != removes[r].md5@,
    ensures
        move_pairs(inserts, removes).filter(
            |pr: (Photo, Photo)| pr.0.md5@ == removes[r].md5@,
        ) == seq![(removes[r], inserts[i])],
        !inserts.filter(|p: Photo| !has_hash(removes, p.md5@)).contains(inserts[i]),
        !removes.filter(|p: Photo| !has_hash(inserts, p.md5@)).contains(removes[r]),
{
    lemma_move_pairs_for_hash(inserts, removes, i, r);
    let keep_ins = |p: Photo| !has_hash(removes, p.md5@);
    if inserts.filter(keep_ins).contains(inserts[i]) {
        let k = choose|k: int|
            0 <= k < inserts.filter(keep_ins).len() && #[trigger] inserts.filter(keep_ins)[k]
                == inserts[i];
        inserts.lemma_filter_pred(keep_ins, k);
        assert(removes[r].md5@ == inserts[i].md5@);
        assert(has_hash(removes, inserts[i].md5@));
    }
    let keep_rem = |p: Photo| !has_hash(inserts, p.md5@);
    if removes.filter(keep_rem).contains(removes[r]) {
        let k = choose|k: int|
            0 <= k < removes.filter(keep_rem).len() && #[trigger] removes.filter(keep_rem)[k]
                == removes[r];
        removes.lemma_filter_pred(keep_rem, k);
        assert(has_hash(inserts, removes[r].md5@));
    }
}

/// Allocate a fresh identifier for each photo, never reusing one: the new
/// identifiers are valid, pairwise distinct, distinct from every existing
/// one, and each is appended to the existing list as it is drawn. No other
/// field of any photo changes.
pub fn allocate_uids(photos: &mut Vec<Photo>, existing_uids: &mut Vec<UID>)
    requires
        old(existing_uids)@.len() + old(photos)@.len() < 1_000_000_000,
    ensures
        final(photos)@.len() == old(photos)@.len(),
        forall|k: int|
            0 <= k < final(photos)@.len() ==> is_valid_uid(
                (#[trigger] final(photos)@[k]).uid@,
            ),
        forall|k1: int, k2: int|
            0 <= k1 < k2 < final(photos)@.len() ==> (#[trigger] final(photos)@[k1]).uid@ != (
            #[trigger] final(photos)@[k2]).uid@,
        forall|k: int, e: int|
            0 <= k < final(photos)@.len() && 0 <= e < old(existing_uids)@.len() ==> (
            #[trigger] final(photos)@[k]).uid@ != (#[trigger] old(existing_uids)@[e])@,
        forall|k: int|
            0 <= k < final(photos)@.len() ==> same_but_uid(
                old(photos)@[k],
                #[trigger] final(photos)@[k],
            ),
        final(existing_uids)@.len() == old(existing_uids)@.len() + old(photos)@.len(),
        forall|e: int|
            0 <= e < old(existing_uids)@.len() ==> (#[trigger] final(existing_uids)@[e])@ == old(
                existing_uids,
            )@[e]@,
        forall|k: int|
            0 <= k < final(photos)@.len() ==> (#[trigger] final(existing_uids)@[old(
                existing_uids,
            )@.len() + k])@ == final(photos)@[k].uid@,
{
    let n = photos.len();
    let ghost e0 = existing_uids@.len() as int;
    let mut i: usize = 0;
    while i < n
        invariant
            n == photos@.len(),
            photos@.len() == old(photos)@.len(),
            0 <= i <= n,
            e0 == old(existing_uids)@.len(),
            e0 + old(photos)@.len() < 1_000_000_000,
            existing_uids@.len() == e0 + i,
            forall|e: int|
                0 <= e < e0 ==> (#[trigger] existing_uids@[e])@ == old(existing_uids)@[e]@,
            forall|k: int|
                0 <= k < i ==> (#[trigger] existing_uids@[e0 + k])@ == photos@[k].uid@,
            forall|k: int| 0 <= k < i ==> is_valid_uid((#[trigger] photos@[k]).uid@),
            forall|k: int|
                0 <= k < i ==> same_but_uid(old(photos)@[k], #[trigger] photos@[k]),
            forall|k: int| i <= k < n ==> #[trigger] photos@[k] == old(photos)@[k],
            forall|k1: int, k2: int|
                0 <= k1 < k2 < i ==> (#[trigger] photos@[k1]).uid@ != (
                #[trigger] photos@[k2]).uid@,
            forall|k: int, e: int|
                0 <= k < i && 0 <= e < e0 ==> (#[trigger] photos@[k]).uid@ != (
                #[trigger] old(existing_uids)@[e])@,
        decreases n - i,
    {
        let u = UID::new(existing_uids);
        let ghost uview = u@;
        let entry = vstd::std_specs::vec::vec_index_mut(photos, i);
        entry.uid = u.clone();
        existing_uids.push(u);
        proof {
            assert(existing_uids@.last()@ == uview);
            assert forall|k1: int, k2: int|
                0 <= k1 < k2 < i + 1 implies (#[trigger] photos@[k1]).uid@ != (
            #[trigger] photos@[k2]).uid@ by {
                if k2 == i as int {
                    assert(existing_uids@[e0 + k1]@ == photos@[k1].uid@);
                }
            }
            assert forall|k: int, e: int|
                0 <= k < i + 1 && 0 <= e < e0 implies (#[trigger] photos@[k]).uid@ != (
            #[trigger] old(existing_uids)@[e])@ by {
                if k == i as int {
                    assert(existing_uids@[e]@ == old(existing_uids)@[e]@);
                }
            }
        }
        i = i + 1;
    }
}

/// The views of a directory's file names.
pub open spec fn fviews(t: DirTree) -> Seq<Seq<char>> {
    t.files@.map_values(|s: String| s@)
}

/// Whether a subdirectory takes part in indexing: its own override must
/// not disable the `INDEX` key.
pub open spec fn included_child(c: DirTree) -> bool {
    c.config.INDEX != Some(false)
}

/// The logical paths a scan of the tree visits.
pub open spec fn visited_set(t: DirTree, path: Seq<char>, recurse: bool) -> Set<Seq<char>>
    decreases t,
{
    Set::<Seq<char>>::empty().insert(path).union(
        if recurse {
            visited_children(t.subdirs@, path, recurse)
        } else {
            Set::empty()
        },
    )
}

pub open spec fn visited_children(cs: Seq<DirTree>, parent: Seq<char>, recurse: bool) -> Set<
    Seq<char>,
>
    decreases cs,
{
    if cs.len() == 0 {
        Set::empty()
    } else {
        (if included_child(cs[0]) {
            visited_set(cs[0], spec_join(parent, cs[0].name@), recurse)
        } else {
            Set::empty()
        }).union(visited_children(cs.drop_first(), parent, recurse))
    }
}

/// The (path, filename) pairs of one directory that must be inserted: an
/// image file on disk with no record at the path.
pub open spec fn local_insert_set(t: DirTree, path: Seq<char>, store: Seq<Photo>) -> Set<
    (Seq<char>, Seq<char>),
> {
    Set::new(
        |pf: (Seq<char>, Seq<char>)|
            pf.0 == path && fviews(t).contains(pf.1) && is_image_name(pf.1) && !has_filename(
                records_at(store, path),
                pf.1,
            ),
    )
}

/// The (path, filename) pairs the whole scan must insert.
pub open spec fn insert_set(t: DirTree, path: Seq<char>, store: Seq<Photo>, recurse: bool) -> Set<
    (Seq<char>, Seq<char>),
>
    decreases t,
{
    local_insert_set(t, path, store).union(
        if recurse {
            insert_children(t.subdirs@, path, store, recurse)
        } else {
            Set::empty()
        },
    )
}

pub open spec fn insert_children(
    cs: Seq<DirTree>,
    parent: Seq<char>,
    store: Seq<Photo>,
    recurse: bool,
) -> Set<(Seq<char>, Seq<char>)>
    decreases cs,
{
    if cs.len() == 0 {
        Set::empty()
    } else {
        (if included_child(cs[0]) {
            insert_set(cs[0], spec_join(parent, cs[0].name@), store, recurse)
        } else {
            Set::empty()
        }).union(insert_children(cs.drop_first(), parent, store, recurse))
    }
}

/// The records of one directory that must be removed: recorded at the
/// path, with no matching image file on disk.
pub open spec fn local_remove_set(t: DirTree, path: Seq<char>, store: Seq<Photo>) -> Set<Photo> {
    Set::new(
        |p: Photo|
            records_at(store, path).contains(p) && !has_image_file(fviews(t), p.filename@),
    )
}

/// The records the whole scan must remove, not counting records whose
/// entire path vanished; those are collected against the visited paths.
pub open spec fn remove_set(t: DirTree, path: Seq<char>, store: Seq<Photo>, recurse: bool) -> Set<
    Photo,
>
    decreases t,
{
    local_remove_set(t, path, store).union(
        if recurse {
            remove_children(t.subdirs@, path, store, recurse)
        } else {
            Set::empty()
        },
    )
}

pub open spec fn remove_children(
    cs: Seq<DirTree>,
    parent: Seq<char>,
    store: Seq<Photo>,
    recurse: bool,
) -> Set<Photo>
    decreases cs,
{
    if cs.len() == 0 {
        Set::empty()
    } else {
        (if included_child(cs[0]) {
            remove_set(cs[0], spec_join(parent, cs[0].name@), store, recurse)
        } else {
            Set::empty()
        }).union(remove_children(cs.drop_first(), parent, store, recurse))
    }
}

/// A blank record prepared for a newly discovered file.
pub open spec fn skeleton_ok(p: Photo, photos_dir: Seq<char>) -> bool {
    &&& p.full_path@ == spec_join(photos_dir, spec_join(p.path@, p.filename@))
    &&& p.uid@.len() == 0
    &&& p.md5@.len() == 0
    &&& !p.metadata_parsed
}

/// What a scan accumulates while walking the tree.
#[derive(Debug)]
pub struct ScanReport {
    /// Every logical path the walk visited.
    pub paths_found: Vec<String>,
    /// Blank records for the files to insert.
    pub inserts: Vec<Photo>,
    /// The records to remove.
    pub removes: Vec<Photo>,
    /// Stale resized files to delete from the cache, as (path, file name).
    pub stale_cache: Vec<(String, String)>,
}

impl ScanReport {
    /// An empty report.
    pub fn new() -> (r: ScanReport)
        ensures
            r.paths_found@.len() == 0,
            r.inserts@.len() == 0,
            r.removes@.len() == 0,
            r.stale_cache@.len() == 0,
    {
        ScanReport {
            paths_found: Vec::new(),
            inserts: Vec::new(),
            removes: Vec::new(),
            stale_cache: Vec::new(),
        }
    }
}

/// The set of paths a report has found.
pub open spec fn paths_set(r: ScanReport) -> Set<Seq<char>> {
    r.paths_found@.map_values(|s: String| s@).to_set()
}

/// The set of (path, filename) pairs a report would insert.
pub open spec fn inserts_set(r: ScanReport) -> Set<(Seq<char>, Seq<char>)> {
    r.inserts@.map_values(|p: Photo| (p.path@, p.filename@)).to_set()
}

/// The set of records a report would remove.
pub open spec fn removes_set(r: ScanReport) -> Set<Photo> {
    r.removes@.to_set()
}

/// Walk the tree, comparing each directory's files with the records at
/// its path, and accumulate the insertion and removal candidates, the
/// visited paths and the stale cache files. Recursion into subdirectories
/// follows the main configuration and each subdirectory's own `INDEX` key.
pub fn scan_tree(
    tree: &DirTree,
    path: &str,
    store: &Vec<Photo>,
    config: &Config,
    report: &mut ScanReport,
)
    ensures
        paths_set(*final(report)) =~= paths_set(*old(report)).union(
            visited_set(*tree, path@, config.INDEX_SUBDIRS),
        ),
        inserts_set(*final(report)) =~= inserts_set(*old(report)).union(
            insert_set(*tree, path@, store@, config.INDEX_SUBDIRS),
        ),
        removes_set(*final(report)) =~= removes_set(*old(report)).union(
            remove_set(*tree, path@, store@, config.INDEX_SUBDIRS),
        ),
        final(report).inserts@.len() >= old(report).inserts@.len(),
        forall|k: int|
            old(report).inserts@.len() <= k < final(report).inserts@.len() ==> skeleton_ok(
                #[trigger] final(report).inserts@[k],
                config.PHOTOS_DIR@,
            ),
        forall|k: int|
            0 <= k < old(report).inserts@.len() ==> #[trigger] final(report).inserts@[k] == old(
                report,
            ).inserts@[k],
        // This directory's own candidates come first among the new
        // records, in natural name order: the unrecorded image files of
        // some natord-sorted permutation of the listing.
        exists|sorted: Seq<Seq<char>>|
            {
                &&& #[trigger] sorted.to_multiset() == fviews(*tree).to_multiset()
                &&& (forall|k: int|
                    0 <= k < sorted.len() - 1 ==> #[trigger] crate::subdirs::natord_le(
                        sorted[k],
                        sorted[k + 1],
                    ))
                &&& old(report).inserts@.len() + dir_insert_names(
                    sorted,
                    records_at(store@, path@),
                ).len() <= final(report).inserts@.len()
                &&& (forall|k: int|
                    0 <= k < dir_insert_names(sorted, records_at(store@, path@)).len() ==> ((
                    #[trigger] final(report).inserts@[old(report).inserts@.len() + k]).path@
                        == path@ && final(report).inserts@[old(report).inserts@.len()
                        + k].filename@ == dir_insert_names(sorted, records_at(store@, path@))[k]))
            },
    decreases *tree,
{
    report.paths_found.push(path.to_owned());
    let ghost after_push = *report;
    proof {
        assert(after_push.paths_found@.map_values(|s: String| s@) =~= old(
            report,
        ).paths_found@.map_values(|s: String| s@).push(path@));
    }
    let records = records_at_exec(store, path);
    // Sort the directory listing in natural order, so new photos enter the
    // store in display order.
    let mut files = clone_strings(&tree.files);
    proof {
        assert(files@.map_values(|s: String| s@).to_multiset() == fviews(*tree).to_multiset());
    }
    crate::subdirs::sort_strings_natural(&mut files);
    let ghost sorted_views = files@.map_values(|s: String| s@);
    let (insert_names, mut remove_records) = diff_dir(&files, &records);
    let ghost before_local = *report;
    let mut ii: usize = 0;
    let ni = insert_names.len();
    while ii < ni
        invariant
            ni == insert_names@.len(),
            0 <= ii <= ni,
            report.paths_found == before_local.paths_found,
            report.removes == before_local.removes,
            report.stale_cache == before_local.stale_cache,
            report.inserts@.len() == before_local.inserts@.len() + ii,
            forall|k: int|
                0 <= k < before_local.inserts@.len() ==> #[trigger] report.inserts@[k]
                    == before_local.inserts@[k],
            forall|k: int|
                0 <= k < ii ==> (#[trigger] report.inserts@[before_local.inserts@.len() + k]).path@
                    == path@ && report.inserts@[before_local.inserts@.len() + k].filename@
                    == insert_names@[k]@ && skeleton_ok(
                    report.inserts@[before_local.inserts@.len() + k],
                    config.PHOTOS_DIR@,
                ),
        decreases ni - ii,
    {
        let mut p = Photo::new();
        p.filename = insert_names[ii].clone();
        p.path = path.to_owned();
        let rel = crate::strutil::join_path(path, insert_names[ii].as_str());
        p.full_path = crate::strutil::join_path(config.PHOTOS_DIR.as_str(), rel.as_str());
        report.inserts.push(p);
        ii = ii + 1;
    }
    report.removes.append(&mut remove_records);
    // Stale resized files in this directory's cache folder.
    let stale = stale_cache_files(&tree.cache_files, &records);
    let ghost before_stale = *report;
    let ns = stale.len();
    let mut si: usize = 0;
    while si < ns
        invariant
            ns == stale@.len(),
            0 <= si <= ns,
            report.paths_found == before_stale.paths_found,
            report.inserts == before_stale.inserts,
            report.removes == before_stale.removes,
            report.stale_cache@.len() == before_stale.stale_cache@.len() + si,
            forall|k: int|
                0 <= k < before_stale.stale_cache@.len() ==> #[trigger] report.stale_cache@[k]
                    == before_stale.stale_cache@[k],
        decreases ns - si,
    {
        report.stale_cache.push((path.to_owned(), stale[si].clone()));
        si = si + 1;
    }
    let ghost after_local = *report;
    proof {
        assert(after_local.paths_found@.map_values(|s: String| s@) =~= old(
            report,
        ).paths_found@.map_values(|s: String| s@).push(path@));
        assert(after_local.removes@ == old(report).removes@ + dir_remove_records(
            sorted_views,
            records@,
        ));
        lemma_local_scan(
            *old(report),
            after_local,
            *tree,
            path@,
            store@,
            files@,
            insert_names@,
            records@,
        );
        assert forall|k: int|
            old(report).inserts@.len() <= k < after_local.inserts@.len() implies skeleton_ok(
            #[trigger] after_local.inserts@[k],
            config.PHOTOS_DIR@,
        ) by {
            assert(after_local.inserts@[before_local.inserts@.len() + (k
                - before_local.inserts@.len())] == after_local.inserts@[k]);
        }
    }
    // Recurse into the included subdirectories.
    if config.INDEX_SUBDIRS {
        let nc = tree.subdirs.len();
        let mut ci: usize = 0;
        while ci < nc
            invariant
                config.INDEX_SUBDIRS,
                nc == tree.subdirs@.len(),
                0 <= ci <= nc,
                paths_set(*report) =~= paths_set(after_local).union(
                    visited_children(tree.subdirs@.take(ci as int), path@, true),
                ),
                inserts_set(*report) =~= inserts_set(after_local).union(
                    insert_children(tree.subdirs@.take(ci as int), path@, store@, true),
                ),
                removes_set(*report) =~= removes_set(after_local).union(
                    remove_children(tree.subdirs@.take(ci as int), path@, store@, true),
                ),
                report.inserts@.len() >= after_local.inserts@.len(),
                forall|k: int|
                    after_local.inserts@.len() <= k < report.inserts@.len() ==> skeleton_ok(
                        #[trigger] report.inserts@[k],
                        config.PHOTOS_DIR@,
                    ),
                forall|k: int|
                    0 <= k < after_local.inserts@.len() ==> #[trigger] report.inserts@[k]
                        == after_local.inserts@[k],
            decreases nc - ci,
        {
            let ghost pre_child = *report;
            let ghost cspec = tree.subdirs@[ci as int];
            let ghost cpath = spec_join(path@, cspec.name@);
            proof {
                assert(decreases_to!(*tree => tree.subdirs@[ci as int])) by {
                    assert(decreases_to!(*tree => tree.subdirs));
                    assert(decreases_to!(tree.subdirs => tree.subdirs@));
                    assert(decreases_to!(tree.subdirs@ => tree.subdirs@[ci as int]));
                }
            }
            let child = &tree.subdirs[ci];
            if child_included(child) {
                let child_path = crate::strutil::join_path(path, child.name.as_str());
                scan_tree(child, child_path.as_str(), store, config, report);
            }
            proof {
                broadcast use vstd::set::group_set_axioms;

                lemma_children_take_step(tree.subdirs@, path@, store@, ci as int);
                if included_child(cspec) {
                    assert(paths_set(*report) =~= paths_set(pre_child).union(
                        visited_set(cspec, cpath, true),
                    ));
                    assert(inserts_set(*report) =~= inserts_set(pre_child).union(
                        insert_set(cspec, cpath, store@, true),
                    ));
                    assert(removes_set(*report) =~= removes_set(pre_child).union(
                        remove_set(cspec, cpath, store@, true),
                    ));
                } else {
                    assert(*report == pre_child);
                }
                assert(paths_set(*report) =~= paths_set(after_local).union(
                    visited_children(tree.subdirs@.take(ci + 1), path@, true),
                ));
                assert(inserts_set(*report) =~= inserts_set(after_local).union(
                    insert_children(tree.subdirs@.take(ci + 1), path@, store@, true),
                ));
                assert(removes_set(*report) =~= removes_set(after_local).union(
                    remove_children(tree.subdirs@.take(ci + 1), path@, store@, true),
                ));
            }
            ci = ci + 1;
        }
        proof {
            broadcast use vstd::set::group_set_axioms;

            assert(tree.subdirs@.take(nc as int) =~= tree.subdirs@);
            assert(paths_set(*report) =~= paths_set(*old(report)).union(
                visited_set(*tree, path@, true),
            ));
            assert(inserts_set(*report) =~= inserts_set(*old(report)).union(
                insert_set(*tree, path@, store@, true),
            ));
            assert(removes_set(*report) =~= removes_set(*old(report)).union(
                remove_set(*tree, path@, store@, true),
            ));
        }
    } else {
        proof {
            broadcast use vstd::set::group_set_axioms;

            assert(visited_set(*tree, path@, false) =~= Set::<Seq<char>>::empty().insert(path@));
            assert(insert_set(*tree, path@, store@, false) =~= local_insert_set(
                *tree,
                path@,
                store@,
            ));
            assert(remove_set(*tree, path@, store@, false) =~= local_remove_set(
                *tree,
                path@,
                store@,
            ));
        }
    }
    proof {
        // The sorted directory listing witnesses the local-batch clause.
        let names = dir_insert_names(sorted_views, records_at(store@, path@));
        assert(insert_names@.map_values(|s: String| s@) == names);
        assert(names.len() == insert_names@.len());
        assert forall|k: int|
            0 <= k < names.len() implies ((#[trigger] final(report).inserts@[old(
            report,
        ).inserts@.len() + k]).path@ == path@ && final(report).inserts@[old(
            report,
        ).inserts@.len() + k].filename@ == names[k]) by {
            let j = old(report).inserts@.len() + k;
            assert(after_local.inserts@[j].path@ == path@);
            assert(after_local.inserts@[j].filename@ == insert_names@[k]@);
            assert(final(report).inserts@[j] == after_local.inserts@[j]);
            assert(names[k] == insert_names@[k]@);
        }
        assert forall|k: int|
            0 <= k < sorted_views.len() - 1 implies #[trigger] crate::subdirs::natord_le(
            sorted_views[k],
            sorted_views[k + 1],
        ) by {
            assert(sorted_views[k] == files@[k]@);
            assert(sorted_views[k + 1] == files@[k + 1]@);
        }
        assert(exists|sorted: Seq<Seq<char>>|
            {
                &&& #[trigger] sorted.to_multiset() == fviews(*tree).to_multiset()
                &&& (forall|k: int|
                    0 <= k < sorted.len() - 1 ==> #[trigger] crate::subdirs::natord_le(
                        sorted[k],
                        sorted[k + 1],
                    ))
                &&& old(report).inserts@.len() + dir_insert_names(
                    sorted,
                    records_at(store@, path@),
                ).len() <= final(report).inserts@.len()
                &&& (forall|k: int|
                    0 <= k < dir_insert_names(sorted, records_at(store@, path@)).len() ==> ((
                    #[trigger] final(report).inserts@[old(report).inserts@.len() + k]).path@
                        == path@ && final(report).inserts@[old(report).inserts@.len()
                        + k].filename@ == dir_insert_names(sorted, records_at(store@, path@))[k]))
            });
    }
}

/// Whether a subdirectory takes part in indexing.
pub fn child_included(c: &DirTree) -> (r: bool)
    ensures
        r == included_child(*c),
{
    match &c.config.INDEX {
        Some(v) => *v,
        None => true,
    }
}

/// Clone a list of names.
fn clone_strings(v: &Vec<String>) -> (r: Vec<String>)
    ensures
        r@.map_values(|s: String| s@) == v@.map_values(|s: String| s@),
{
    let n = v.len();
    let mut r: Vec<String> = Vec::new();
    let mut i: usize = 0;
    while i < n
        invariant
            n == v@.len(),
            0 <= i <= n,
            r@.len() == i,
            forall|k: int| 0 <= k < i ==> (#[trigger] r@[k])@ == v@[k]@,
        decreases n - i,
    {
        r.push(v[i].clone());
        i = i + 1;
    }
    proof {
        assert(r@.map_values(|s: String| s@) =~= v@.map_values(|s: String| s@));
    }
    r
}

proof fn lemma_filter_contains_iff<A>(s: Seq<A>, pred: spec_fn(A) -> bool, x: A)
    ensures
        s.filter(pred).contains(x) <==> (s.contains(x) && pred(x)),
{
    if s.filter(pred).contains(x) {
        let k = choose|k: int|
            0 <= k < s.filter(pred).len() && #[trigger] s.filter(pred)[k] == x;
        s.lemma_filter_pred(pred, k);
        s.lemma_filter_contains_rev(pred, x);
    }
    if s.contains(x) && pred(x) {
        let k = choose|k: int| 0 <= k < s.len() && #[trigger] s[k] == x;
        s.lemma_filter_contains(pred, k);
    }
}

proof fn lemma_contains_by_multiset<A>(a: Seq<A>, b: Seq<A>, x: A)
    requires
        a.to_multiset() == b.to_multiset(),
    ensures
        a.contains(x) == b.contains(x),
{
    broadcast use vstd::seq_lib::group_to_multiset_ensures;

    assert(a.contains(x) <==> a.to_multiset().count(x) > 0);
    assert(b.contains(x) <==> b.to_multiset().count(x) > 0);
}

proof fn lemma_push_to_set<A>(s: Seq<A>, x: A)
    ensures
        s.push(x).to_set() =~= s.to_set().insert(x),
{
    broadcast use vstd::set::group_set_axioms;

    assert forall|y: A| s.push(x).to_set().contains(y) implies s.to_set().insert(x).contains(
        y,
    ) by {
        let k = choose|k: int| 0 <= k < s.push(x).len() && #[trigger] s.push(x)[k] == y;
        if k < s.len() {
            assert(s[k] == y);
        }
    }
    assert forall|y: A| s.to_set().insert(x).contains(y) implies s.push(x).to_set().contains(
        y,
    ) by {
        if y == x {
            assert(s.push(x)[s.len() as int] == y);
        } else {
            let k = choose|k: int| 0 <= k < s.len() && #[trigger] s[k] == y;
            assert(s.push(x)[k] == y);
        }
    }
}

proof fn lemma_append_to_set<A>(a: Seq<A>, b: Seq<A>)
    ensures
        (a + b).to_set() =~= a.to_set().union(b.to_set()),
{
    broadcast use vstd::set::group_set_axioms;

    assert forall|y: A| (a + b).to_set().contains(y) implies a.to_set().union(
        b.to_set(),
    ).contains(y) by {
        let k = choose|k: int| 0 <= k < (a + b).len() && #[trigger] (a + b)[k] == y;
        if k < a.len() {
            assert(a[k] == y);
        } else {
            assert(b[k - a.len()] == y);
        }
    }
    assert forall|y: A| a.to_set().union(b.to_set()).contains(y) implies (a
        + b).to_set().contains(y) by {
        if a.to_set().contains(y) {
            let k = choose|k: int| 0 <= k < a.len() && #[trigger] a[k] == y;
            assert((a + b)[k] == y);
        } else {
            let k = choose|k: int| 0 <= k < b.len() && #[trigger] b[k] == y;
            assert((a + b)[a.len() + k] == y);
        }
    }
}

/// Accounting for the local phase of the scan: pushing the path, the
/// skeleton records and the removal records adds exactly the local sets.
#[verifier::rlimit(40)]
proof fn lemma_local_scan(
    r0: ScanReport,
    r1: ScanReport,
    tree: DirTree,
    path: Seq<char>,
    store: Seq<Photo>,
    sorted_files: Seq<String>,
    insert_names: Seq<String>,
    records: Seq<Photo>,
)
    requires
        records == records_at(store, path),
        sorted_files.map_values(|s: String| s@).to_multiset() == fviews(tree).to_multiset(),
        insert_names.map_values(|s: String| s@) == dir_insert_names(
            sorted_files.map_values(|s: String| s@),
            records,
        ),
        r1.paths_found@.map_values(|s: String| s@) == r0.paths_found@.map_values(
            |s: String| s@,
        ).push(path),
        r1.inserts@.len() == r0.inserts@.len() + insert_names.len(),
        forall|k: int|
            0 <= k < r0.inserts@.len() ==> #[trigger] r1.inserts@[k] == r0.inserts@[k],
        forall|k: int|
            0 <= k < insert_names.len() ==> (#[trigger] r1.inserts@[r0.inserts@.len() + k]).path@
                == path && r1.inserts@[r0.inserts@.len() + k].filename@ == insert_names[k]@,
        r1.removes@ == r0.removes@ + dir_remove_records(
            sorted_files.map_values(|s: String| s@),
            records,
        ),
    ensures
        paths_set(r1) =~= paths_set(r0).union(Set::<Seq<char>>::empty().insert(path)),
        inserts_set(r1) =~= inserts_set(r0).union(local_insert_set(tree, path, store)),
        removes_set(r1) =~= removes_set(r0).union(local_remove_set(tree, path, store)),
{
    broadcast use vstd::set::group_set_axioms;

    let sf = sorted_files.map_values(|s: String| s@);
    // Paths: one new element.
    lemma_push_to_set(r0.paths_found@.map_values(|s: String| s@), path);
    // Inserts: the new pairs are exactly the local insert set.
    let pairs0 = r0.inserts@.map_values(|p: Photo| (p.path@, p.filename@));
    let pairs1 = r1.inserts@.map_values(|p: Photo| (p.path@, p.filename@));
    let newpairs = insert_names.map_values(|s: String| (path, s@));
    assert(pairs1.len() == pairs0.len() + newpairs.len());
    assert forall|k: int| 0 <= k < pairs1.len() implies #[trigger] pairs1[k] == (pairs0
        + newpairs)[k] by {
        assert(pairs1[k] == (r1.inserts@[k].path@, r1.inserts@[k].filename@));
        if k < r0.inserts@.len() {
            assert(pairs0[k] == (r0.inserts@[k].path@, r0.inserts@[k].filename@));
        } else {
            assert(r1.inserts@[r0.inserts@.len() + (k - r0.inserts@.len())] == r1.inserts@[k]);
            assert(newpairs[k - r0.inserts@.len()] == (
                path,
                insert_names[k - r0.inserts@.len()]@,
            ));
            assert(insert_names.map_values(|s: String| s@)[k - r0.inserts@.len()]
                == insert_names[k - r0.inserts@.len()]@);
        }
    }
    assert(pairs1 =~= pairs0 + newpairs);
    lemma_append_to_set(pairs0, newpairs);
    assert(newpairs.to_set() =~= local_insert_set(tree, path, store)) by {
        assert forall|pf: (Seq<char>, Seq<char>)| newpairs.to_set().contains(pf)
            implies local_insert_set(tree, path, store).contains(pf) by {
            let k = choose|k: int| 0 <= k < newpairs.len() && #[trigger] newpairs[k] == pf;
            assert(insert_names.map_values(|s: String| s@)[k] == insert_names[k]@);
            assert(sf.filter(
                |f: Seq<char>| is_image_name(f) && !has_filename(records, f),
            ).contains(pf.1)) by {
                assert(dir_insert_names(sf, records)[k] == pf.1);
            }
            lemma_filter_contains_iff(
                sf,
                |f: Seq<char>| is_image_name(f) && !has_filename(records, f),
                pf.1,
            );
            lemma_contains_by_multiset(sf, fviews(tree), pf.1);
        }
        assert forall|pf: (Seq<char>, Seq<char>)| local_insert_set(tree, path, store).contains(
            pf,
        ) implies newpairs.to_set().contains(pf) by {
            lemma_contains_by_multiset(sf, fviews(tree), pf.1);
            lemma_filter_contains_iff(
                sf,
                |f: Seq<char>| is_image_name(f) && !has_filename(records, f),
                pf.1,
            );
            assert(dir_insert_names(sf, records).contains(pf.1));
            let k = choose|k: int|
                0 <= k < dir_insert_names(sf, records).len() && #[trigger] dir_insert_names(
                    sf,
                    records,
                )[k] == pf.1;
            assert(insert_names.map_values(|s: String| s@)[k] == insert_names[k]@);
            assert(newpairs[k] == pf);
        }
    }
    // Removes: the appended records are exactly the local remove set.
    lemma_append_to_set(r0.removes@, dir_remove_records(sf, records));
    assert(dir_remove_records(sf, records).to_set() =~= local_remove_set(
        tree,
        path,
        store,
    )) by {
        assert forall|p: Photo| dir_remove_records(sf, records).to_set().contains(p)
            implies local_remove_set(tree, path, store).contains(p) by {
            lemma_filter_contains_iff(
                records,
                |q: Photo| !has_image_file(sf, q.filename@),
                p,
            );
            lemma_contains_by_multiset(sf, fviews(tree), p.filename@);
        }
        assert forall|p: Photo| local_remove_set(tree, path, store).contains(p)
            implies dir_remove_records(sf, records).to_set().contains(p) by {
            lemma_contains_by_multiset(sf, fviews(tree), p.filename@);
            lemma_filter_contains_iff(
                records,
                |q: Photo| !has_image_file(sf, q.filename@),
                p,
            );
        }
    }
}

/// One union step for the children loop of the scan.
proof fn lemma_children_take_step(cs: Seq<DirTree>, parent: Seq<char>, store: Seq<Photo>, i: int)
    requires
        0 <= i < cs.len(),
    ensures
        visited_children(cs.take(i + 1), parent, true) =~= visited_children(
            cs.take(i),
            parent,
            true,
        ).union(
            if included_child(cs[i]) {
                visited_set(cs[i], spec_join(parent, cs[i].name@), true)
            } else {
                Set::empty()
            },
        ),
        insert_children(cs.take(i + 1), parent, store, true) =~= insert_children(
            cs.take(i),
            parent,
            store,
            true,
        ).union(
            if included_child(cs[i]) {
                insert_set(cs[i], spec_join(parent, cs[i].name@), store, true)
            } else {
                Set::empty()
            },
        ),
        remove_children(cs.take(i + 1), parent, store, true) =~= remove_children(
            cs.take(i),
            parent,
            store,
            true,
        ).union(
            if included_child(cs[i]) {
                remove_set(cs[i], spec_join(parent, cs[i].name@), store, true)
            } else {
                Set::empty()
            },
        ),
{
    lemma_visited_children_snoc(cs.take(i + 1), parent, true);
    lemma_insert_children_snoc(cs.take(i + 1), parent, store, true);
    lemma_remove_children_snoc(cs.take(i + 1), parent, store, true);
    assert(cs.take(i + 1).drop_last() =~= cs.take(i));
    assert(cs.take(i + 1).last() == cs[i]);
}

proof fn lemma_visited_children_snoc(cs: Seq<DirTree>, parent: Seq<char>, recurse: bool)
    requires
        cs.len() > 0,
    ensures
        visited_children(cs, parent, recurse) =~= visited_children(
            cs.drop_last(),
            parent,
            recurse,
        ).union(
            if included_child(cs.last()) {
                visited_set(cs.last(), spec_join(parent, cs.last().name@), recurse)
            } else {
                Set::empty()
            },
        ),
    decreases cs.len(),
{
    broadcast use vstd::set::group_set_axioms;

    if cs.len() == 1 {
        assert(cs.drop_first() =~= Seq::<DirTree>::empty());
        assert(cs.drop_last() =~= Seq::<DirTree>::empty());
        assert(cs[0] == cs.last());
    } else {
        lemma_visited_children_snoc(cs.drop_first(), parent, recurse);
        assert(cs.drop_first().drop_last() =~= cs.drop_last().drop_first());
        assert(cs.drop_first().last() == cs.last());
        assert(cs.drop_last()[0] == cs[0]);
    }
}

proof fn lemma_insert_children_snoc(
    cs: Seq<DirTree>,
    parent: Seq<char>,
    store: Seq<Photo>,
    recurse: bool,
)
    requires
        cs.len() > 0,
    ensures
        insert_children(cs, parent, store, recurse) =~= insert_children(
            cs.drop_last(),
            parent,
            store,
            recurse,
        ).union(
            if included_child(cs.last()) {
                insert_set(cs.last(), spec_join(parent, cs.last().name@), store, recurse)
            } else {
                Set::empty()
            },
        ),
    decreases cs.len(),
{
    broadcast use vstd::set::group_set_axioms;

    if cs.len() == 1 {
        assert(cs.drop_first() =~= Seq::<DirTree>::empty());
        assert(cs.drop_last() =~= Seq::<DirTree>::empty());
        assert(cs[0] == cs.last());
    } else {
        lemma_insert_children_snoc(cs.drop_first(), parent, store, recurse);
        assert(cs.drop_first().drop_last() =~= cs.drop_last().drop_first());
        assert(cs.drop_first().last() == cs.last());
        assert(cs.drop_last()[0] == cs[0]);
    }
}

proof fn lemma_remove_children_snoc(
    cs: Seq<DirTree>,
    parent: Seq<char>,
    store: Seq<Photo>,
    recurse: bool,
)
    requires
        cs.len() > 0,
    ensures
        remove_children(cs, parent, store, recurse) =~= remove_children(
            cs.drop_last(),
            parent,
            store,
            recurse,
        ).union(
            if included_child(cs.last()) {
                remove_set(cs.last(), spec_join(parent, cs.last().name@), store, recurse)
            } else {
                Set::empty()
            },
        ),
    decreases cs.len(),
{
    broadcast use vstd::set::group_set_axioms;

    if cs.len() == 1 {
        assert(cs.drop_first() =~= Seq::<DirTree>::empty());
        assert(cs.drop_last() =~= Seq::<DirTree>::empty());
        assert(cs[0] == cs.last());
    } else {
        lemma_remove_children_snoc(cs.drop_first(), parent, store, recurse);
        assert(cs.drop_first().drop_last() =~= cs.drop_last().drop_first());
        assert(cs.drop_first().last() == cs.last());
        assert(cs.drop_last()[0] == cs[0]);
    }
}

/// Whether a record of the list carries the identifier.
pub open spec fn has_uid_record(records: Seq<Photo>, u: Seq<char>) -> bool {
    exists|k: int| 0 <= k < records.len() && (#[trigger] records[k]).uid@ == u
}

/// The prefix length of a recognized resized-cache file name, or -1.
pub open spec fn stale_prefix_len(f: Seq<char>) -> int {
    if crate::strutil::spec_starts_with(crate::strutil::lower_seq(f), "thumbnail_"@) {
        10
    } else if crate::strutil::spec_starts_with(crate::strutil::lower_seq(f), "large_"@) {
        6
    } else {
        -1
    }
}

/// The extension length of a recognized resized-cache file name, or -1:
/// both cache formats count, so a format switch still evicts old files.
pub open spec fn stale_suffix_len(f: Seq<char>) -> int {
    if crate::strutil::spec_ends_with(crate::strutil::lower_seq(f), ".jpg"@) {
        4
    } else if crate::strutil::spec_ends_with(crate::strutil::lower_seq(f), ".webp"@) {
        5
    } else {
        -1
    }
}

/// A resized-cache file is stale when its name carries a known prefix and
/// extension, embeds a well-formed identifier, and that identifier is no
/// longer recorded for the directory.
pub open spec fn is_stale_cache_name(f: Seq<char>, records: Seq<Photo>) -> bool {
    let pl = stale_prefix_len(f);
    let sl = stale_suffix_len(f);
    &&& pl >= 0
    &&& sl >= 0
    &&& f.len() >= pl + sl
    &&& is_valid_uid(f.subrange(pl, f.len() - sl))
    &&& !has_uid_record(records, f.subrange(pl, f.len() - sl))
}

/// The resized-cache files of a directory that no longer belong to any of
/// its records and should be deleted.
pub fn stale_cache_files(cache_files: &Vec<String>, records: &Vec<Photo>) -> (r: Vec<String>)
    ensures
        r@.map_values(|s: String| s@) == cache_files@.map_values(|s: String| s@).filter(
            |f: Seq<char>| is_stale_cache_name(f, records@),
        ),
{
    let ghost cviews = cache_files@.map_values(|s: String| s@);
    let n = cache_files.len();
    let mut r: Vec<String> = Vec::new();
    let mut i: usize = 0;
    proof {
        reveal(Seq::filter);
        assert(cviews.take(0) =~= Seq::<Seq<char>>::empty());
        assert(r@.map_values(|s: String| s@) =~= cviews.take(0).filter(
            |f: Seq<char>| is_stale_cache_name(f, records@),
        ));
    }
    while i < n
        invariant
            n == cache_files@.len(),
            cviews == cache_files@.map_values(|s: String| s@),
            0 <= i <= n,
            r@.map_values(|s: String| s@) == cviews.take(i as int).filter(
                |f: Seq<char>| is_stale_cache_name(f, records@),
            ),
        decreases n - i,
    {
        let ghost taken = cviews.take(i as int);
        let ghost r_old = r@;
        let f = &cache_files[i];
        let mut stale = false;
        proof {
            reveal_strlit("thumbnail_");
            reveal_strlit("large_");
            reveal_strlit(".jpg");
            reveal_strlit(".webp");
        }
        let lower = crate::strutil::to_lower_ascii(f.as_str());
        let flen = f.as_str().unicode_len();
        let mut has_prefix = true;
        let pl: usize = if crate::strutil::str_starts_with(lower.as_str(), "thumbnail_") {
            10
        } else if crate::strutil::str_starts_with(lower.as_str(), "large_") {
            6
        } else {
            has_prefix = false;
            0
        };
        let mut has_suffix = true;
        let sl: usize = if crate::strutil::str_ends_with(lower.as_str(), ".jpg") {
            4
        } else if crate::strutil::str_ends_with(lower.as_str(), ".webp") {
            5
        } else {
            has_suffix = false;
            0
        };
        if has_prefix && has_suffix && flen >= pl + sl {
            let uid_str = f.as_str().substring_char(pl, flen - sl);
            match UID::try_from_str(uid_str) {
                Ok(u) => {
                    if !records_have_uid(records, u.as_str()) {
                        stale = true;
                        r.push(f.clone());
                    }
                },
                Err(_) => {},
            }
        }
        proof {
            reveal(Seq::filter);
            assert(cviews.take(i + 1).drop_last() =~= taken);
            assert(cviews.take(i + 1).last() == cviews[i as int]);
            assert(cviews[i as int] == f@);
            assert(stale == is_stale_cache_name(f@, records@));
            if stale {
                assert(r@.map_values(|s: String| s@) =~= r_old.map_values(|s: String| s@).push(
                    f@,
                ));
            }
            assert(r@.map_values(|s: String| s@) =~= cviews.take(i + 1).filter(
                |f2: Seq<char>| is_stale_cache_name(f2, records@),
            ));
        }
        i = i + 1;
    }
    proof {
        assert(cviews.take(n as int) =~= cviews);
    }
    r
}

/// Whether a record of the list carries the identifier.
fn records_have_uid(records: &Vec<Photo>, u: &str) -> (r: bool)
    ensures
        r == has_uid_record(records@, u@),
{
    let n = records.len();
    let mut i: usize = 0;
    while i < n
        invariant
            n == records@.len(),
            0 <= i <= n,
            forall|k: int| 0 <= k < i ==> (#[trigger] records@[k]).uid@ != u@,
        decreases n - i,
    {
        if crate::strutil::str_eq(records[i].uid.as_str(), u) {
            assert(records@[i as int].uid@ == u@);
            return true;
        }
        i = i + 1;
    }
    false
}

/// The records whose whole path was not seen by the scan: their directory
/// vanished, so they are removal candidates too.
pub fn removed_path_photos(store: &Vec<Photo>, paths_found: &Vec<String>) -> (r: Vec<Photo>)
    ensures
        r@ == store@.filter(
            |p: Photo| !paths_found@.map_values(|s: String| s@).contains(p.path@),
        ),
{
    let n = store.len();
    let mut r: Vec<Photo> = Vec::new();
    let mut i: usize = 0;
    proof {
        reveal(Seq::filter);
        assert(r@ =~= store@.take(0).filter(
            |p: Photo| !paths_found@.map_values(|s: String| s@).contains(p.path@),
        ));
    }
    while i < n
        invariant
            n == store@.len(),
            0 <= i <= n,
            r@ == store@.take(i as int).filter(
                |p: Photo| !paths_found@.map_values(|s: String| s@).contains(p.path@),
            ),
        decreases n - i,
    {
        let ghost taken = store@.take(i as int);
        if !filenames_contain(paths_found, store[i].path.as_str()) {
            r.push(store[i].clone());
        }
        proof {
            reveal(Seq::filter);
            assert(store@.take(i + 1).drop_last() =~= taken);
            assert(store@.take(i + 1).last() == store@[i as int]);
            assert(r@ =~= store@.take(i + 1).filter(
                |p: Photo| !paths_found@.map_values(|s: String| s@).contains(p.path@),
            ));
        }
        i = i + 1;
    }
    proof {
        assert(store@.take(n as int) =~= store@);
    }
    r
}

/// The tree matches the store exactly: in every visited directory the
/// image files on disk are precisely the recorded ones.
pub open spec fn tree_synced(t: DirTree, path: Seq<char>, store: Seq<Photo>, recurse: bool) -> bool
    decreases t,
{
    &&& (forall|f: Seq<char>|
        fviews(t).contains(f) && is_image_name(f) ==> has_filename(records_at(store, path), f))
    &&& (forall|k: int|
        0 <= k < records_at(store, path).len() ==> has_image_file(
            fviews(t),
            (#[trigger] records_at(store, path)[k]).filename@,
        ))
    &&& (recurse ==> children_synced(t.subdirs@, path, store, recurse))
}

pub open spec fn children_synced(
    cs: Seq<DirTree>,
    parent: Seq<char>,
    store: Seq<Photo>,
    recurse: bool,
) -> bool
    decreases cs,
{
    if cs.len() == 0 {
        true
    } else {
        &&& (included_child(cs[0]) ==> tree_synced(
            cs[0],
            spec_join(parent, cs[0].name@),
            store,
            recurse,
        ))
        &&& children_synced(cs.drop_first(), parent, store, recurse)
    }
}

/// Scanning a tree that matches the store finds nothing to insert and
/// nothing to remove: a second reconciliation pass right after a first one
/// is a no-op, since the first pass left the store matching the disk.
/// With empty candidate lists, move detection pairs nothing either.
pub proof fn lemma_scan_idempotent(t: DirTree, path: Seq<char>, store: Seq<Photo>, recurse: bool)
    requires
        tree_synced(t, path, store, recurse),
    ensures
        insert_set(t, path, store, recurse) =~= Set::<(Seq<char>, Seq<char>)>::empty(),
        remove_set(t, path, store, recurse) =~= Set::<Photo>::empty(),
        move_pairs(Seq::<Photo>::empty(), Seq::<Photo>::empty()) == Seq::<(Photo, Photo)>::empty(),
    decreases t,
{
    broadcast use vstd::set::group_set_axioms;

    assert(local_insert_set(t, path, store) =~= Set::<(Seq<char>, Seq<char>)>::empty()) by {
        assert forall|pf: (Seq<char>, Seq<char>)|
            !local_insert_set(t, path, store).contains(pf) by {}
    }
    assert(local_remove_set(t, path, store) =~= Set::<Photo>::empty()) by {
        assert forall|p: Photo| !local_remove_set(t, path, store).contains(p) by {
            if records_at(store, path).contains(p) {
                let k = choose|k: int|
                    0 <= k < records_at(store, path).len() && records_at(store, path)[k] == p;
                assert(has_image_file(fviews(t), records_at(store, path)[k].filename@));
            }
        }
    }
    if recurse {
        lemma_children_idempotent(t.subdirs@, path, store, recurse);
    }
}

proof fn lemma_children_idempotent(
    cs: Seq<DirTree>,
    parent: Seq<char>,
    store: Seq<Photo>,
    recurse: bool,
)
    requires
        children_synced(cs, parent, store, recurse),
        recurse,
    ensures
        insert_children(cs, parent, store, recurse) =~= Set::<(Seq<char>, Seq<char>)>::empty(),
        remove_children(cs, parent, store, recurse) =~= Set::<Photo>::empty(),
    decreases cs,
{
    broadcast use vstd::set::group_set_axioms;

    if cs.len() > 0 {
        if included_child(cs[0]) {
            lemma_scan_idempotent(cs[0], spec_join(parent, cs[0].name@), store, recurse);
        }
        lemma_children_idempotent(cs.drop_first(), parent, store, recurse);
    }
}

/// Which frames of the configuration stack receive a directory's photos.
/// Frames are root-first; the leaf always receives its own photos, and a
/// parent receives them only while no frame below it is hidden and it
/// shows photos from subdirectories.
pub open spec fn frame_receives(frames: Seq<(Seq<char>, Config)>, i: int) -> bool
    decreases frames.len() - i,
{
    if i == frames.len() - 1 {
        true
    } else if 0 <= i < frames.len() - 1 {
        frame_receives(frames, i + 1) && !frames[i + 1].1.HIDDEN
            && frames[i].1.SHOW_PHOTOS_FROM_SUBDIRS
    } else {
        false
    }
}

/// The frame paths and configurations of a configuration stack.
pub open spec fn frame_views(stack: Seq<(String, Config)>) -> Seq<(Seq<char>, Config)> {
    stack.map_values(|e: (String, Config)| (e.0@, e.1))
}

/// Insert a directory's photos into the index at its own path and into
/// each ancestor path that still shows them: upward propagation stops at
/// the first hidden frame (after it received the photos) and at the first
/// ancestor that does not show photos from subdirectories (before it
/// does). Each listing carries the password pairs of the frames between
/// it and the directory, as registered in the index's password map.
pub fn insert_dir_photos(
    g: &mut crate::index::Gallery,
    stack: &Vec<(String, Config)>,
    photos: &Vec<Photo>,
)
    requires
        old(g).wf(),
        stack@.len() > 0,
        forall|i: int, j: int|
            0 <= i < j < stack@.len() ==> (#[trigger] stack@[i]).0@ != (#[trigger] stack@[j]).0@,
    ensures
        final(g).wf(),
        forall|i: int, k: int|
            0 <= i < stack@.len() && frame_receives(frame_views(stack@), i) && 0 <= k
                < photos@.len() ==> crate::index::Gallery::listing_has_uid(
                final(g).photos_at((#[trigger] stack@[i]).0@),
                (#[trigger] photos@[k]).uid@,
            ),
        forall|i: int|
            0 <= i < stack@.len() && !frame_receives(frame_views(stack@), i)
                ==> final(g).photos_at((#[trigger] stack@[i]).0@) == old(g).photos_at(
                stack@[i].0@,
            ),
        forall|q: Seq<char>|
            (forall|i: int| 0 <= i < stack@.len() ==> (#[trigger] stack@[i]).0@ != q)
                ==> final(g).photos_at(q) == old(g).photos_at(q),
        forall|q: Seq<char>| old(g).has_path(q) ==> final(g).has_path(q),
        forall|q: Seq<char>| final(g).subdirs_at(q) == old(g).subdirs_at(q),
        forall|q: Seq<char>| final(g).config_at(q) == old(g).config_at(q),
        final(g).passwords_view() == old(g).passwords_view(),
        forall|u: Seq<char>|
            old(g).photo_by_uid(u) is Some ==> final(g).photo_by_uid(u) == old(g).photo_by_uid(
                u,
            ),
{
    let ghost fv = frame_views(stack@);
    let n = stack.len();
    let mut passwords_acc: Vec<(String, String)> = Vec::new();
    let mut stopped = false;
    let mut i: usize = n;
    while i > 0
        invariant
            g.wf(),
            n == stack@.len(),
            fv == frame_views(stack@),
            0 <= i <= n,
            forall|t: int, j: int|
                0 <= t < j < stack@.len() ==> (#[trigger] stack@[t]).0@ != (
                #[trigger] stack@[j]).0@,
            i < n ==> stopped == !(frame_receives(fv, i as int) && !stack@[i as int].1.HIDDEN),
            i == n ==> !stopped,
            forall|k: int|
                0 <= k < passwords_acc@.len() ==> g.passwords_view().contains_key(
                    (#[trigger] passwords_acc@[k]).0@,
                ) && g.passwords_view()[passwords_acc@[k].0@] == passwords_acc@[k].1@,
            forall|t: int, k: int|
                i <= t < n && frame_receives(fv, t) && 0 <= k < photos@.len()
                    ==> crate::index::Gallery::listing_has_uid(
                    g.photos_at((#[trigger] stack@[t]).0@),
                    (#[trigger] photos@[k]).uid@,
                ),
            forall|t: int|
                i <= t < n && !frame_receives(fv, t) ==> g.photos_at((#[trigger] stack@[t]).0@)
                    == old(g).photos_at(stack@[t].0@),
            forall|t: int|
                0 <= t < i ==> g.photos_at((#[trigger] stack@[t]).0@) == old(g).photos_at(
                    stack@[t].0@,
                ),
            forall|q: Seq<char>|
                (forall|t: int| 0 <= t < stack@.len() ==> (#[trigger] stack@[t]).0@ != q)
                    ==> g.photos_at(q) == old(g).photos_at(q),
            forall|q: Seq<char>| old(g).has_path(q) ==> g.has_path(q),
            forall|q: Seq<char>| g.subdirs_at(q) == old(g).subdirs_at(q),
            forall|q: Seq<char>| g.config_at(q) == old(g).config_at(q),
            g.passwords_view() == old(g).passwords_view(),
            forall|u: Seq<char>|
                old(g).photo_by_uid(u) is Some ==> g.photo_by_uid(u) == old(g).photo_by_uid(u),
        decreases i,
    {
        i = i - 1;
        let ghost ii = i as int;
        if !stopped {
            let is_parent = i + 1 < n;
            if is_parent && !stack[i].1.SHOW_PHOTOS_FROM_SUBDIRS {
                stopped = true;
                proof {
                    assert(!frame_receives(fv, ii));
                    assert(g.photos_at(stack@[ii].0@) == old(g).photos_at(stack@[ii].0@));
                }
            } else {
                proof {
                    assert(frame_receives(fv, ii));
                }
                if stack[i].1.PASSWORD.as_str().unicode_len() != 0 {
                    match g.get_passwords().get(stack[i].0.as_str()) {
                        Some(stored) => {
                            let pair = (stack[i].0.clone(), stored.clone());
                            passwords_acc.push(pair);
                        },
                        None => {},
                    }
                }
                let ghost g_pre = *g;
                let m = photos.len();
                let mut k: usize = 0;
                while k < m
                    invariant
                        g.wf(),
                        n == stack@.len(),
                        0 <= ii < n,
                        i as int == ii,
                        m == photos@.len(),
                        0 <= k <= m,
                        forall|kk: int|
                            0 <= kk < passwords_acc@.len() ==> g.passwords_view().contains_key(
                                (#[trigger] passwords_acc@[kk]).0@,
                            ) && g.passwords_view()[passwords_acc@[kk].0@]
                                == passwords_acc@[kk].1@,
                        forall|kk: int|
                            0 <= kk < k ==> crate::index::Gallery::listing_has_uid(
                                g.photos_at(stack@[ii].0@),
                                (#[trigger] photos@[kk]).uid@,
                            ),
                        forall|q: Seq<char>|
                            q != stack@[ii].0@ ==> g.photos_at(q) == g_pre.photos_at(q),
                        forall|q: Seq<char>| g_pre.has_path(q) ==> g.has_path(q),
                        forall|q: Seq<char>| g.subdirs_at(q) == g_pre.subdirs_at(q),
                        forall|q: Seq<char>| g.config_at(q) == g_pre.config_at(q),
                        g.passwords_view() == g_pre.passwords_view(),
                        forall|u: Seq<char>|
                            g_pre.photo_by_uid(u) is Some ==> g.photo_by_uid(u)
                                == g_pre.photo_by_uid(u),
                    decreases m - k,
                {
                    let ghost g_before = *g;
                    let pairs = crate::index::clone_pairs(&passwords_acc);
                    g.insert_photo(stack[i].0.as_str(), &photos[k], pairs);
                    proof {
                        let p0 = stack@[ii].0@;
                        let u0 = photos@[k as int].uid@;
                        if crate::index::Gallery::listing_has_uid(
                            g_before.photos_at(p0),
                            u0,
                        ) {
                            assert(g.photos_at(p0) == g_before.photos_at(p0));
                        } else {
                            let cps = g.photos_at(p0);
                            assert(cps.last().photo.uid@ == u0);
                            assert(crate::index::Gallery::listing_has_uid(cps, u0));
                        }
                        assert forall|kk: int|
                            0 <= kk < k + 1 implies crate::index::Gallery::listing_has_uid(
                            g.photos_at(p0),
                            (#[trigger] photos@[kk]).uid@,
                        ) by {
                            if kk < k as int {
                                let w = choose|w: int|
                                    0 <= w < g_before.photos_at(p0).len() && (
                                    #[trigger] g_before.photos_at(p0)[w]).photo.uid@
                                        == photos@[kk].uid@;
                                assert(g.photos_at(p0)[w].photo.uid@ == photos@[kk].uid@);
                            }
                        }
                    }
                    k = k + 1;
                }
                proof {
                    assert forall|t: int|
                        i < t < n && frame_receives(fv, t) && 0 <= t implies g.photos_at(
                        (#[trigger] stack@[t]).0@,
                    ) == g_pre.photos_at(stack@[t].0@) by {
                        assert(stack@[ii].0@ != stack@[t].0@);
                    }
                }
                if stack[i].1.HIDDEN {
                    stopped = true;
                }
            }
        } else {
            proof {
                assert(!frame_receives(fv, ii)) by {
                    if ii < n - 1 {
                        assert(frame_receives(fv, ii) ==> frame_receives(fv, ii + 1)
                            && !fv[ii + 1].1.HIDDEN);
                    }
                }
            }
        }
    }
}

/// Every registration of the first password map survives in the second,
/// with its value: rebuild walks only ever add registrations.
pub open spec fn passwords_monotone(
    a: Map<Seq<char>, Seq<char>>,
    b: Map<Seq<char>, Seq<char>>,
) -> bool {
    forall|q: Seq<char>|
        #[trigger] a.contains_key(q) ==> b.contains_key(q) && b[q] == a[q]
}

proof fn lemma_passwords_monotone_trans(
    a: Map<Seq<char>, Seq<char>>,
    b: Map<Seq<char>, Seq<char>>,
    c: Map<Seq<char>, Seq<char>>,
)
    requires
        passwords_monotone(a, b),
        passwords_monotone(b, c),
    ensures
        passwords_monotone(a, c),
{
}

/// Directory names in the tree are nonempty, as filesystem names are:
/// every child path is then strictly longer than its parent's, so the
/// paths of one root-to-leaf walk never collide.
pub open spec fn tree_names_ok(t: DirTree) -> bool
    decreases t,
{
    children_names_ok(t.subdirs@)
}

pub open spec fn children_names_ok(cs: Seq<DirTree>) -> bool
    decreases cs,
{
    if cs.len() == 0 {
        true
    } else {
        &&& cs[0].name@.len() > 0
        &&& tree_names_ok(cs[0])
        &&& children_names_ok(cs.drop_first())
    }
}

proof fn lemma_children_names_at(cs: Seq<DirTree>, j: int)
    requires
        children_names_ok(cs),
        0 <= j < cs.len(),
    ensures
        cs[j].name@.len() > 0,
        tree_names_ok(cs[j]),
    decreases j,
{
    if j > 0 {
        lemma_children_names_at(cs.drop_first(), j - 1);
    }
}

/// The sort-order value a directory resolves to: its own override when the
/// document defines one, the inherited value otherwise.
pub open spec fn spec_resolved_sort(t: DirTree, inherited: Seq<char>) -> Seq<char> {
    match t.config.SORT_ORDER {
        Some(ref s) => s@,
        None => inherited,
    }
}

/// Every directory the walk visits resolves to a sort order that parses:
/// the condition under which a rebuild succeeds.
pub open spec fn tree_sort_ok(t: DirTree, inherited: Seq<char>, recurse: bool) -> bool
    decreases t,
{
    &&& crate::sort::spec_sort_fields(
        crate::strutil::split_commas(spec_resolved_sort(t, inherited)),
    ) is Some
    &&& (recurse ==> children_sort_ok(t.subdirs@, spec_resolved_sort(t, inherited), recurse))
}

pub open spec fn children_sort_ok(cs: Seq<DirTree>, inherited: Seq<char>, recurse: bool) -> bool
    decreases cs,
{
    if cs.len() == 0 {
        true
    } else {
        &&& (included_child(cs[0]) ==> tree_sort_ok(cs[0], inherited, recurse))
        &&& children_sort_ok(cs.drop_first(), inherited, recurse)
    }
}

proof fn lemma_children_sort_ok_snoc(cs: Seq<DirTree>, inherited: Seq<char>, recurse: bool)
    requires
        cs.len() > 0,
    ensures
        children_sort_ok(cs, inherited, recurse) == (children_sort_ok(
            cs.drop_last(),
            inherited,
            recurse,
        ) && (included_child(cs.last()) ==> tree_sort_ok(cs.last(), inherited, recurse))),
    decreases cs.len(),
{
    if cs.len() == 1 {
        assert(cs.drop_first() =~= Seq::<DirTree>::empty());
        assert(cs.drop_last() =~= Seq::<DirTree>::empty());
        assert(cs[0] == cs.last());
    } else {
        lemma_children_sort_ok_snoc(cs.drop_first(), inherited, recurse);
        assert(cs.drop_first().drop_last() =~= cs.drop_last().drop_first());
        assert(cs.drop_first().last() == cs.last());
        assert(cs.drop_last()[0] == cs[0]);
    }
}

proof fn lemma_children_sort_ok_at(cs: Seq<DirTree>, inherited: Seq<char>, recurse: bool, j: int)
    requires
        children_sort_ok(cs, inherited, recurse),
        0 <= j < cs.len(),
        included_child(cs[j]),
    ensures
        tree_sort_ok(cs[j], inherited, recurse),
    decreases j,
{
    if j > 0 {
        lemma_children_sort_ok_at(cs.drop_first(), inherited, recurse, j - 1);
    }
}

/// The hidden flag a subdirectory's own override gives it.
pub open spec fn spec_child_hidden(c: DirTree) -> bool {
    match c.config.HIDDEN {
        Some(v) => v,
        None => false,
    }
}

/// The subdirectory entries a rebuild records for a directory, before
/// sorting: every indexed child with its hidden flag, in tree order.
pub open spec fn spec_child_entries(cs: Seq<DirTree>) -> Seq<(Seq<char>, bool)> {
    cs.filter(|c: DirTree| included_child(c)).map_values(
        |c: DirTree| (c.name@, spec_child_hidden(c)),
    )
}

/// Whether a directory's own resolution defines a password to register:
/// its override names a non-empty value, or an unusable one, which blocks
/// access with a random password; at the root alone, an inherited
/// password counts too, since it never propagates further down.
pub open spec fn spec_password_defined(
    t: DirTree,
    inherited_pw: Seq<char>,
    is_root: bool,
) -> bool {
    match t.config.PASSWORD {
        Some(crate::config::PasswordSetting::Value(ref s)) => s@.len() > 0,
        Some(crate::config::PasswordSetting::Invalid) => true,
        None => is_root && inherited_pw.len() > 0,
    }
}

/// The paths whose directories register a password during a rebuild walk.
pub open spec fn password_paths(
    t: DirTree,
    path: Seq<char>,
    inherited_pw: Seq<char>,
    is_root: bool,
    recurse: bool,
) -> Set<Seq<char>>
    decreases t,
{
    (if spec_password_defined(t, inherited_pw, is_root) {
        Set::<Seq<char>>::empty().insert(path)
    } else {
        Set::empty()
    }).union(
        if recurse {
            password_paths_children(t.subdirs@, path, recurse)
        } else {
            Set::empty()
        },
    )
}

pub open spec fn password_paths_children(cs: Seq<DirTree>, parent: Seq<char>, recurse: bool) -> Set<
    Seq<char>,
>
    decreases cs,
{
    if cs.len() == 0 {
        Set::empty()
    } else {
        (if included_child(cs[0]) {
            password_paths(cs[0], spec_join(parent, cs[0].name@), Seq::empty(), false, recurse)
        } else {
            Set::empty()
        }).union(password_paths_children(cs.drop_first(), parent, recurse))
    }
}

/// Below the root the inherited password never matters.
proof fn lemma_password_paths_inherited(
    t: DirTree,
    path: Seq<char>,
    a: Seq<char>,
    b: Seq<char>,
    recurse: bool,
)
    ensures
        password_paths(t, path, a, false, recurse) == password_paths(t, path, b, false, recurse),
{
    assert(spec_password_defined(t, a, false) == spec_password_defined(t, b, false));
    assert(password_paths(t, path, a, false, recurse) =~= password_paths(
        t,
        path,
        b,
        false,
        recurse,
    ));
}

proof fn lemma_password_children_snoc(cs: Seq<DirTree>, parent: Seq<char>, recurse: bool)
    requires
        cs.len() > 0,
    ensures
        password_paths_children(cs, parent, recurse) =~= password_paths_children(
            cs.drop_last(),
            parent,
            recurse,
        ).union(
            if included_child(cs.last()) {
                password_paths(
                    cs.last(),
                    spec_join(parent, cs.last().name@),
                    Seq::empty(),
                    false,
                    recurse,
                )
            } else {
                Set::empty()
            },
        ),
    decreases cs.len(),
{
    broadcast use vstd::set::group_set_axioms;

    if cs.len() == 1 {
        assert(cs.drop_first() =~= Seq::<DirTree>::empty());
        assert(cs.drop_last() =~= Seq::<DirTree>::empty());
        assert(cs[0] == cs.last());
    } else {
        lemma_password_children_snoc(cs.drop_first(), parent, recurse);
        assert(cs.drop_first().drop_last() =~= cs.drop_last().drop_first());
        assert(cs.drop_first().last() == cs.last());
        assert(cs.drop_last()[0] == cs[0]);
    }
}

/// Every subdirectory listing of the first index survives unchanged in
/// the second: rebuild walks record a listing at most once per path.
pub open spec fn subdirs_kept(a: crate::index::Gallery, b: crate::index::Gallery) -> bool {
    forall|q: Seq<char>|
        (#[trigger] a.subdirs_at(q)) is Some ==> b.subdirs_at(q) == a.subdirs_at(q)
}

proof fn lemma_subdirs_kept_trans(
    a: crate::index::Gallery,
    b: crate::index::Gallery,
    c: crate::index::Gallery,
)
    requires
        subdirs_kept(a, b),
        subdirs_kept(b, c),
    ensures
        subdirs_kept(a, c),
{
}

/// Rebuild the in-memory index from the tree and the store: walk the tree
/// with the configuration stack, record each directory's resolved
/// configuration, password and subdirectory listing, and list its photos,
/// ordered by the resolved sort fields, at its own path and at every
/// ancestor that still shows them.
///
/// `stack` carries the ancestor directories' frames, empty at the root,
/// and ends balanced on success; the main configuration stands in for a
/// parent at the root. The walk succeeds exactly when every visited
/// directory's resolved sort order parses; the store would reject any
/// other, so the rebuild aborts as the original pass would.
pub fn build_index(
    g: &mut crate::index::Gallery,
    tree: &DirTree,
    path: &str,
    store: &Vec<Photo>,
    main_config: &Config,
    stack: &mut Vec<(String, Config)>,
) -> (r: Result<(), crate::error::Error>)
    requires
        old(g).wf(),
        tree_names_ok(*tree),
        forall|i: int, j: int|
            0 <= i < j < old(stack)@.len() ==> (#[trigger] old(stack)@[i]).0@.len() < (
            #[trigger] old(stack)@[j]).0@.len(),
        forall|i: int| 0 <= i < old(stack)@.len() ==> (#[trigger] old(stack)@[i]).0@.len()
            < path@.len(),
    ensures
        final(g).wf(),
        forall|q: Seq<char>| old(g).has_path(q) ==> final(g).has_path(q),
        passwords_monotone(old(g).passwords_view(), final(g).passwords_view()),
        subdirs_kept(*old(g), *final(g)),
        r is Ok ==> final(g).passwords_view().dom() =~= old(g).passwords_view().dom().union(
            password_paths(
                *tree,
                path@,
                (if old(stack)@.len() == 0 {
                    main_config.PASSWORD@
                } else {
                    old(stack)@.last().1.PASSWORD@
                }),
                path@.len() == 0,
                main_config.INDEX_SUBDIRS,
            ),
        ),
        r is Ok ==> (match tree.config.PASSWORD {
            Some(crate::config::PasswordSetting::Value(ref s)) => ({
                let was = old(g).passwords_view();
                let now = final(g).passwords_view();
                (!was.contains_key(path@) && s@.len() > 0) ==> (now.contains_key(path@)
                    && now[path@] == s@)
            }),
            _ => true,
        }),
        r is Ok <==> tree_sort_ok(
            *tree,
            (if old(stack)@.len() == 0 {
                main_config.SORT_ORDER@
            } else {
                old(stack)@.last().1.SORT_ORDER@
            }),
            main_config.INDEX_SUBDIRS,
        ),
        r is Ok ==> forall|q: Seq<char>|
            visited_set(*tree, path@, main_config.INDEX_SUBDIRS).contains(q)
                ==> final(g).has_path(q),
        (r is Ok && main_config.INDEX_SUBDIRS && old(g).subdirs_at(path@) is None) ==> ({
            &&& final(g).subdirs_at(path@) matches Some(sd)
            &&& final(g).subdirs_at(path@)->0.to_multiset() == spec_child_entries(
                tree.subdirs@,
            ).to_multiset()
            &&& forall|k: int|
                0 <= k < final(g).subdirs_at(path@)->0.len() - 1
                    ==> #[trigger] crate::subdirs::natord_le(
                    final(g).subdirs_at(path@)->0[k].0,
                    final(g).subdirs_at(path@)->0[k + 1].0,
                )
        }),
        r is Ok ==> final(stack)@ == old(stack)@,
        r matches Err(e) ==> e is PersistenceError,
    decreases *tree,
{
    broadcast use vstd::set::group_set_axioms;

    let ghost inherited_sort = if old(stack)@.len() == 0 {
        main_config.SORT_ORDER@
    } else {
        old(stack)@.last().1.SORT_ORDER@
    };
    let ghost inherited_pw = if old(stack)@.len() == 0 {
        main_config.PASSWORD@
    } else {
        old(stack)@.last().1.PASSWORD@
    };
    let ghost local_pw_set = if spec_password_defined(*tree, inherited_pw, path@.len() == 0) {
        Set::<Seq<char>>::empty().insert(path@)
    } else {
        Set::<Seq<char>>::empty()
    };
    g.insert_path(path);
    let is_root = path.unicode_len() == 0;
    let parent_cfg = if stack.len() == 0 {
        main_config.clone()
    } else {
        stack[stack.len() - 1].1.clone()
    };
    let resolved = crate::config::apply_override(&parent_cfg, &tree.config, is_root);
    proof {
        assert(resolved.SORT_ORDER@ == spec_resolved_sort(*tree, inherited_sort));
        assert((resolved.PASSWORD@.len() > 0) == spec_password_defined(
            *tree,
            inherited_pw,
            path@.len() == 0,
        ));
    }
    if resolved.PASSWORD.as_str().unicode_len() != 0 {
        g.add_password(path, resolved.PASSWORD.clone());
    }
    proof {
        broadcast use vstd::map::group_map_axioms;

        assert(g.passwords_view().dom() =~= old(g).passwords_view().dom().union(local_pw_set));
    }
    g.set_config(path, resolved.clone());
    stack.push((path.to_owned(), resolved.clone()));
    let ghost stack_with_self = stack@;
    proof {
        assert(stack@.last().0@ == path@);
        assert forall|i: int, j: int|
            0 <= i < j < stack@.len() implies (#[trigger] stack@[i]).0@.len() < (
        #[trigger] stack@[j]).0@.len() by {
            if j < stack@.len() - 1 {
                assert(stack@[i] == old(stack)@[i] && stack@[j] == old(stack)@[j]);
            } else {
                assert(stack@[i] == old(stack)@[i]);
            }
        }
    }
    // The directory's own photos, in the resolved order.
    let mut records = records_at_exec(store, path);
    let fields = match crate::sort::parse_sort_fields(resolved.SORT_ORDER.as_str()) {
        Ok(fields) => fields,
        Err(e) => {
            return Err(e);
        },
    };
    crate::sort::sort_photos(&mut records, &fields);
    if records.len() > 0 {
        proof {
            // Strictly increasing path lengths keep the frames distinct.
            assert forall|i: int, j: int|
                0 <= i < j < stack@.len() implies (#[trigger] stack@[i]).0@ != (
            #[trigger] stack@[j]).0@ by {
                assert(stack@[i].0@.len() < stack@[j].0@.len());
            }
        }
        insert_dir_photos(g, stack, &records);
    }
    if main_config.INDEX_SUBDIRS {
        // Record the subdirectory listing: every indexed child, hidden
        // ones marked, in natural name order.
        let mut sd = crate::subdirs::Subdirs::new();
        let nc = tree.subdirs.len();
        let mut ci: usize = 0;
        proof {
            reveal(Seq::filter);
            assert(sd@ =~= spec_child_entries(tree.subdirs@.take(0)));
        }
        while ci < nc
            invariant
                nc == tree.subdirs@.len(),
                0 <= ci <= nc,
                sd@ == spec_child_entries(tree.subdirs@.take(ci as int)),
            decreases nc - ci,
        {
            let ghost taken = tree.subdirs@.take(ci as int);
            let ghost sd_old = sd@;
            let child = &tree.subdirs[ci];
            if child_included(child) {
                let hidden = match &child.config.HIDDEN {
                    Some(v) => *v,
                    None => false,
                };
                sd.push(crate::subdirs::Subdir::new(child.name.clone(), hidden));
            }
            proof {
                reveal(Seq::filter);
                assert(tree.subdirs@.take(ci + 1).drop_last() =~= taken);
                assert(tree.subdirs@.take(ci + 1).last() == tree.subdirs@[ci as int]);
                if included_child(tree.subdirs@[ci as int]) {
                    assert(sd@ =~= sd_old.push(
                        (
                            tree.subdirs@[ci as int].name@,
                            spec_child_hidden(tree.subdirs@[ci as int]),
                        ),
                    ));
                    assert(taken.filter(|c: DirTree| included_child(c)).push(
                        tree.subdirs@[ci as int],
                    ) =~= tree.subdirs@.take(ci + 1).filter(|c: DirTree| included_child(c)));
                }
                assert(sd@ =~= spec_child_entries(tree.subdirs@.take(ci + 1)));
            }
            ci = ci + 1;
        }
        proof {
            assert(tree.subdirs@.take(nc as int) =~= tree.subdirs@);
        }
        sd.sort();
        let ghost sd_sorted = sd@;
        g.set_subdirs(path, sd);
        let ghost g_mid = *g;
        proof {
            if old(g).subdirs_at(path@) is None {
                assert(g_mid.subdirs_at(path@) == Some(sd_sorted));
            }
        }
        // Recurse into the indexed children.
        let ghost rs = spec_resolved_sort(*tree, inherited_sort);
        let mut cj: usize = 0;
        while cj < nc
            invariant
                main_config.INDEX_SUBDIRS,
                g.wf(),
                tree_names_ok(*tree),
                nc == tree.subdirs@.len(),
                0 <= cj <= nc,
                stack@ == stack_with_self,
                stack@.len() > 0,
                stack@.last().0@ == path@,
                inherited_sort == (if old(stack)@.len() == 0 {
                    main_config.SORT_ORDER@
                } else {
                    old(stack)@.last().1.SORT_ORDER@
                }),
                rs == spec_resolved_sort(*tree, inherited_sort),
                rs == stack@.last().1.SORT_ORDER@,
                stack@.last().1.PASSWORD@ == resolved.PASSWORD@,
                forall|i: int, j: int|
                    0 <= i < j < stack@.len() ==> (#[trigger] stack@[i]).0@.len() < (
                    #[trigger] stack@[j]).0@.len(),
                forall|q: Seq<char>| old(g).has_path(q) ==> g.has_path(q),
                passwords_monotone(old(g).passwords_view(), g.passwords_view()),
                inherited_pw == (if old(stack)@.len() == 0 {
                    main_config.PASSWORD@
                } else {
                    old(stack)@.last().1.PASSWORD@
                }),
                local_pw_set == (if spec_password_defined(*tree, inherited_pw, path@.len() == 0) {
                    Set::<Seq<char>>::empty().insert(path@)
                } else {
                    Set::<Seq<char>>::empty()
                }),
                g.passwords_view().dom() =~= old(g).passwords_view().dom().union(
                    local_pw_set,
                ).union(password_paths_children(tree.subdirs@.take(cj as int), path@, true)),
                (!old(g).passwords_view().contains_key(path@) && resolved.PASSWORD@.len() > 0)
                    ==> g.passwords_view().contains_key(path@) && g.passwords_view()[path@]
                    == resolved.PASSWORD@,
                subdirs_kept(g_mid, *g),
                subdirs_kept(*old(g), g_mid),
                old(g).subdirs_at(path@) is None ==> g_mid.subdirs_at(path@) == Some(sd_sorted),
                g.has_path(path@),
                children_sort_ok(tree.subdirs@.take(cj as int), rs, true),
                forall|q: Seq<char>|
                    visited_children(tree.subdirs@.take(cj as int), path@, true).contains(q)
                        ==> g.has_path(q),
            decreases nc - cj,
        {
            proof {
                assert(decreases_to!(*tree => tree.subdirs@[cj as int])) by {
                    assert(decreases_to!(*tree => tree.subdirs));
                    assert(decreases_to!(tree.subdirs => tree.subdirs@));
                    assert(decreases_to!(tree.subdirs@ => tree.subdirs@[cj as int]));
                }
                lemma_children_names_at(tree.subdirs@, cj as int);
            }
            let ghost g_pre = *g;
            let child = &tree.subdirs[cj];
            if child_included(child) {
                let child_path = crate::strutil::join_path(path, child.name.as_str());
                proof {
                    assert(child_path@.len() > path@.len());
                }
                match build_index(g, child, child_path.as_str(), store, main_config, stack) {
                    Ok(()) => {
                        proof {
                            assert(tree_sort_ok(tree.subdirs@[cj as int], rs, true));
                            assert(child_path@.len() > 0);
                            assert(g.passwords_view().dom() =~= g_pre.passwords_view().dom().union(
                                password_paths(
                                    tree.subdirs@[cj as int],
                                    child_path@,
                                    resolved.PASSWORD@,
                                    false,
                                    true,
                                ),
                            ));
                        }
                    },
                    Err(e) => {
                        proof {
                            assert(!tree_sort_ok(tree.subdirs@[cj as int], rs, true));
                            if tree_sort_ok(*tree, inherited_sort, true) {
                                assert(children_sort_ok(tree.subdirs@, rs, true));
                                lemma_children_sort_ok_at(tree.subdirs@, rs, true, cj as int);
                                assert(false);
                            }
                            assert(!tree_sort_ok(*tree, inherited_sort, true));
                        }
                        return Err(e);
                    },
                }
            }
            proof {
                assert(tree.subdirs@.take(cj + 1).drop_last() =~= tree.subdirs@.take(cj as int));
                assert(tree.subdirs@.take(cj + 1).last() == tree.subdirs@[cj as int]);
                lemma_children_take_step(tree.subdirs@, path@, store@, cj as int);
                lemma_password_children_snoc(tree.subdirs@.take(cj + 1), path@, true);
                if included_child(tree.subdirs@[cj as int]) {
                    lemma_password_paths_inherited(
                        tree.subdirs@[cj as int],
                        spec_join(path@, tree.subdirs@[cj as int].name@),
                        resolved.PASSWORD@,
                        Seq::empty(),
                        true,
                    );
                }
                assert(g.passwords_view().dom() =~= old(g).passwords_view().dom().union(
                    local_pw_set,
                ).union(password_paths_children(tree.subdirs@.take(cj + 1), path@, true)));
                lemma_children_sort_ok_snoc(tree.subdirs@.take(cj + 1), rs, true);
                assert forall|q: Seq<char>|
                    visited_children(tree.subdirs@.take(cj + 1), path@, true).contains(
                        q,
                    ) implies g.has_path(q) by {
                    if visited_children(tree.subdirs@.take(cj as int), path@, true).contains(
                        q,
                    ) {
                        assert(g_pre.has_path(q));
                    }
                }
                lemma_passwords_monotone_trans(
                    old(g).passwords_view(),
                    g_pre.passwords_view(),
                    g.passwords_view(),
                );
                lemma_subdirs_kept_trans(g_mid, g_pre, *g);
            }
            cj = cj + 1;
        }
        proof {
            assert(tree.subdirs@.take(nc as int) =~= tree.subdirs@);
            lemma_subdirs_kept_trans(*old(g), g_mid, *g);
            if old(g).subdirs_at(path@) is None {
                assert(g.subdirs_at(path@) == Some(sd_sorted));
            }
            assert(g.passwords_view().dom() =~= old(g).passwords_view().dom().union(
                password_paths(*tree, path@, inherited_pw, path@.len() == 0, true),
            ));
        }
    } else {
        proof {
            assert(g.passwords_view().dom() =~= old(g).passwords_view().dom().union(
                password_paths(*tree, path@, inherited_pw, path@.len() == 0, false),
            ));
        }
    }
    stack.pop();
    proof {
        if main_config.INDEX_SUBDIRS {
            assert forall|q: Seq<char>|
                visited_set(*tree, path@, true).contains(q) implies g.has_path(q) by {}
        } else {
            assert forall|q: Seq<char>|
                visited_set(*tree, path@, false).contains(q) implies g.has_path(q) by {
                assert(q == path@);
            }
        }
    }
    Ok(())
}

/// Equality of all photo fields except the identifier.
pub open spec fn same_but_uid(a: Photo, b: Photo) -> bool {
    &&& a.id == b.id
    &&& a.filename == b.filename
    &&& a.path == b.path
    &&& a.full_path == b.full_path
    &&& a.md5 == b.md5
    &&& a.sort_order == b.sort_order
    &&& a.hidden == b.hidden
    &&& a.metadata_parsed == b.metadata_parsed
    &&& a.width == b.width
    &&& a.height == b.height
    &&& a.color == b.color
    &&& a.title == b.title
    &&& a.place == b.place
    &&& a.date_taken == b.date_taken
    &&& a.camera_model == b.camera_model
    &&& a.lens_model == b.lens_model
    &&& a.focal_length == b.focal_length
    &&& a.aperture == b.aperture
    &&& a.exposure_time == b.exposure_time
    &&& a.sensitivity == b.sensitivity
}

} // verus!
