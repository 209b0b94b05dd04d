//! Subdirectory listings: names in natural order, hidden entries kept but
//! marked, so navigation can skip them while indexing still sees them.

use vstd::prelude::*;

verus! {

/// Whether natural ordering places `a` at or before `b`, ignoring case.
/// The ordering compares runs of digits by value, so "img2" comes before
/// "img10".
pub uninterp spec fn natord_le(a: Seq<char>, b: Seq<char>) -> bool;

/// Sort names in natural order, ignoring case.
/// Relies on std's `sort_by` and natord's `compare_ignore_case`: the
/// result is a permutation of the input, ordered by the comparator, which
/// natord implements as a total order on strings.
#[verifier::external_body]
pub fn sort_strings_natural(v: &mut Vec<String>)
    ensures
        final(v)@.map_values(|s: String| s@).to_multiset() == old(v)@.map_values(
            |s: String| s@,
        ).to_multiset(),
        forall|i: int|
            0 <= i < final(v)@.len() - 1 ==> #[trigger] natord_le(
                final(v)@[i]@,
                final(v)@[i + 1]@,
            ),
{
    v.sort_by(|a, b| natord::compare_ignore_case(a, b));
}

/// One subdirectory of a gallery directory.
#[derive(Debug)]
pub struct Subdir {
    /// Directory name.
    pub name: String,
    /// Whether the directory is hidden from navigation.
    pub hidden: bool,
}

impl Subdir {
    pub fn new(name: String, hidden: bool) -> (r: Subdir)
        ensures
            r.name@ == name@,
            r.hidden == hidden,
    {
        Subdir { name, hidden }
    }
}

impl Clone for Subdir {
    fn clone(&self) -> (r: Self)
        ensures
            r == *self,
    {
        Subdir { name: self.name.clone(), hidden: self.hidden }
    }
}

/// Sort subdirectories by name in natural order, ignoring case.
/// Relies on std's `sort_by` and natord's `compare_ignore_case`, as
/// `sort_strings_natural` does; the closure only picks the name field.
#[verifier::external_body]
fn sort_subdirs_natural(v: &mut Vec<Subdir>)
    ensures
        final(v)@.map_values(|s: Subdir| (s.name@, s.hidden)).to_multiset() == old(
            v,
        )@.map_values(|s: Subdir| (s.name@, s.hidden)).to_multiset(),
        forall|i: int|
            0 <= i < final(v)@.len() - 1 ==> #[trigger] natord_le(
                final(v)@[i].name@,
                final(v)@[i + 1].name@,
            ),
{
    v.sort_by(|a, b| natord::compare_ignore_case(&a.name, &b.name));
}

/// The subdirectories of one gallery directory.
#[derive(Debug)]
pub struct Subdirs {
    subdirs: Vec<Subdir>,
}

impl View for Subdirs {
    type V = Seq<(Seq<char>, bool)>;

    closed spec fn view(&self) -> Seq<(Seq<char>, bool)> {
        self.subdirs@.map_values(|s: Subdir| (s.name@, s.hidden))
    }
}

impl Clone for Subdirs {
    fn clone(&self) -> (r: Self)
        ensures
            r@ == self@,
    {
        let r = Subdirs { subdirs: self.subdirs.clone() };
        proof {
            assert(r@ =~= self@);
        }
        r
    }
}

impl Subdirs {
    /// An empty listing.
    pub fn new() -> (r: Subdirs)
        ensures
            r@ =~= Seq::<(Seq<char>, bool)>::empty(),
    {
        Subdirs { subdirs: Vec::new() }
    }

    /// Number of entries.
    pub fn len(&self) -> (r: usize)
        ensures
            r == self@.len(),
    {
        self.subdirs.len()
    }

    /// True when no subdirectory is listed.
    pub fn is_empty(&self) -> (r: bool)
        ensures
            r == (self@.len() == 0),
    {
        self.subdirs.len() == 0
    }

    /// Append one entry.
    pub fn push(&mut self, subdir: Subdir)
        ensures
            final(self)@ =~= old(self)@.push((subdir.name@, subdir.hidden)),
    {
        self.subdirs.push(subdir);
        proof {
            assert(final(self)@ =~= old(self)@.push(
                (final(self).subdirs@.last().name@, final(self).subdirs@.last().hidden),
            ));
        }
    }

    /// The entry at a position.
    pub fn get(&self, i: usize) -> (r: &Subdir)
        requires
            i < self@.len(),
        ensures
            r.name@ == self@[i as int].0,
            r.hidden == self@[i as int].1,
    {
        &self.subdirs[i]
    }

    /// True when some entry has the given name.
    pub fn contains_name(&self, name: &str) -> (r: bool)
        ensures
            r == exists|i: int| 0 <= i < self@.len() && (#[trigger] self@[i]).0 == name@,
    {
        let n = self.subdirs.len();
        let mut i: usize = 0;
        while i < n
            invariant
                n == self@.len(),
                0 <= i <= n,
                forall|k: int| 0 <= k < i ==> (#[trigger] self@[k]).0 != name@,
            decreases n - i,
        {
            if crate::strutil::str_eq(self.subdirs[i].name.as_str(), name) {
                assert(self@[i as int].0 == name@);
                return true;
            }
            i = i + 1;
        }
        false
    }

    /// Sort the entries by name in natural order, ignoring case.
    pub fn sort(&mut self)
        ensures
            final(self)@.to_multiset() == old(self)@.to_multiset(),
            forall|i: int|
                0 <= i < final(self)@.len() - 1 ==> #[trigger] natord_le(
                    final(self)@[i].0,
                    final(self)@[i + 1].0,
                ),
    {
        sort_subdirs_natural(&mut self.subdirs);
    }

    /// The entries that are not hidden, in order.
    pub fn list_visible(&self) -> (r: Subdirs)
        ensures
            r@ =~= self@.filter(|e: (Seq<char>, bool)| !e.1),
    {
        let n = self.subdirs.len();
        let mut r = Subdirs::new();
        let mut i: usize = 0;
        while i < n
            invariant
                n == self@.len(),
                0 <= i <= n,
                r@ =~= self@.take(i as int).filter(|e: (Seq<char>, bool)| !e.1),
            decreases n - i,
        {
            let ghost taken = self@.take(i as int);
            if !self.subdirs[i].hidden {
                r.push(self.subdirs[i].clone());
            }
            proof {
                reveal(Seq::filter);
                assert(self@.take(i + 1).drop_last() =~= taken);
                assert(self@.take(i + 1).last() == self@[i as int]);
                assert(self@.take(i + 1).filter(|e: (Seq<char>, bool)| !e.1) =~= r@);
            }
            i = i + 1;
        }
        proof {
            assert(self@.take(n as int) =~= self@);
        }
        r
    }

    /// The names of all entries, hidden ones included, in order.
    pub fn list_names(&self) -> (r: Vec<String>)
        ensures
            r@.len() == self@.len(),
            forall|i: int| 0 <= i < r@.len() ==> (#[trigger] r@[i])@ == self@[i].0,
    {
        let n = self.subdirs.len();
        let mut r: Vec<String> = Vec::new();
        let mut i: usize = 0;
        while i < n
            invariant
                n == self@.len(),
                0 <= i <= n,
                r@.len() == i,
                forall|k: int| 0 <= k < i ==> (#[trigger] r@[k])@ == self@[k].0,
            decreases n - i,
        {
            r.push(self.subdirs[i].name.clone());
            i = i + 1;
        }
        r
    }

    /// The names of the entries that are not hidden, in order.
    pub fn list_names_visible(&self) -> (r: Vec<String>)
        ensures
            r@.map_values(|s: String| s@) =~= self@.filter(|e: (Seq<char>, bool)| !e.1).map_values(
                |e: (Seq<char>, bool)| e.0,
            ),
    {
        let visible = self.list_visible();
        let names = visible.list_names();
        proof {
            assert(names@.map_values(|s: String| s@) =~= visible@.map_values(
                |e: (Seq<char>, bool)| e.0,
            ));
        }
        names
    }

    /// The names of the entries that are not hidden, as owned strings.
    pub fn list_names_visible_owned(&self) -> (r: Vec<String>)
        ensures
            r@.map_values(|s: String| s@) =~= self@.filter(|e: (Seq<char>, bool)| !e.1).map_values(
                |e: (Seq<char>, bool)| e.0,
            ),
    {
        self.list_names_visible()
    }
}

} // verus!
