//! Small verified helpers on strings and characters, shared by the rest of
//! the crate: ASCII case folding, suffix tests and logical-path handling.

use vstd::prelude::*;

verus! {

/// ASCII lower-casing of a single character; everything outside 'A'..='Z'
/// is left unchanged.
pub open spec fn lower_char(c: char) -> char {
    if 65 <= c as u32 && c as u32 <= 90 {
        ((c as u32) + 32) as char
    } else {
        c
    }
}

/// ASCII lower-casing of a whole sequence of characters.
pub open spec fn lower_seq(s: Seq<char>) -> Seq<char> {
    s.map_values(|c: char| lower_char(c))
}

/// Executable ASCII lower-casing of one character.
pub fn lower_char_exec(c: char) -> (r: char)
    ensures
        r == lower_char(c),
{
    let cu = c as u32;
    if 65 <= cu && cu <= 90 {
        ((cu + 32) as u8) as char
    } else {
        c
    }
}

/// Appends one character to a string.
/// Relies on std's `String::push`.
#[verifier::external_body]
pub fn push_char(s: &mut String, c: char)
    ensures
        final(s)@ == old(s)@.push(c),
{
    s.push(c);
}

/// ASCII lower-casing of a whole string.
pub fn to_lower_ascii(s: &str) -> (r: String)
    ensures
        r@ == lower_seq(s@),
{
    let n = s.unicode_len();
    let mut r = String::new();
    let mut i: usize = 0;
    while i < n
        invariant
            n == s@.len(),
            0 <= i <= n,
            r@ == lower_seq(s@.take(i as int)),
        decreases n - i,
    {
        let c = s.get_char(i);
        push_char(&mut r, lower_char_exec(c));
        proof {
            assert(lower_seq(s@.take(i + 1)) =~= lower_seq(s@.take(i as int)).push(
                lower_char(s@[i as int]),
            ));
        }
        i = i + 1;
    }
    proof {
        assert(s@.take(n as int) =~= s@);
    }
    r
}

/// Character-by-character string equality.
pub fn str_eq(a: &str, b: &str) -> (r: bool)
    ensures
        r == (a@ == b@),
{
    let na = a.unicode_len();
    let nb = b.unicode_len();
    if na != nb {
        return false;
    }
    let mut i: usize = 0;
    while i < na
        invariant
            na == a@.len(),
            nb == b@.len(),
            na == nb,
            0 <= i <= na,
            forall|k: int| 0 <= k < i ==> a@[k] == b@[k],
        decreases na - i,
    {
        if a.get_char(i) != b.get_char(i) {
            return false;
        }
        i = i + 1;
    }
    proof {
        assert(a@ =~= b@);
    }
    true
}

/// The ASCII whitespace characters trimmed from configuration tokens.
pub open spec fn is_space(c: char) -> bool {
    c == ' ' || c == '\t' || c == '\r' || c == '\n'
}

/// `s` without leading whitespace.
pub open spec fn trim_front(s: Seq<char>) -> Seq<char>
    decreases s.len(),
{
    if s.len() > 0 && is_space(s[0]) {
        trim_front(s.drop_first())
    } else {
        s
    }
}

/// `s` without trailing whitespace.
pub open spec fn trim_back(s: Seq<char>) -> Seq<char>
    decreases s.len(),
{
    if s.len() > 0 && is_space(s[s.len() - 1]) {
        trim_back(s.drop_last())
    } else {
        s
    }
}

/// `s` without leading and trailing whitespace.
pub open spec fn spec_trim(s: Seq<char>) -> Seq<char> {
    trim_back(trim_front(s))
}

proof fn lemma_trim_front_cut(s: Seq<char>, a: int)
    requires
        0 <= a <= s.len(),
        forall|k: int| 0 <= k < a ==> is_space(s[k]),
        a < s.len() ==> !is_space(s[a]),
    ensures
        trim_front(s) == s.subrange(a, s.len() as int),
    decreases a,
{
    if a == 0 {
        assert(s.subrange(0, s.len() as int) =~= s);
    } else {
        lemma_trim_front_cut(s.drop_first(), a - 1);
        assert(s.drop_first().subrange(a - 1, s.drop_first().len() as int) =~= s.subrange(
            a,
            s.len() as int,
        ));
    }
}

proof fn lemma_trim_back_cut(s: Seq<char>, b: int)
    requires
        0 <= b <= s.len(),
        forall|k: int| b <= k < s.len() ==> is_space(s[k]),
        b > 0 ==> !is_space(s[b - 1]),
    ensures
        trim_back(s) == s.subrange(0, b),
    decreases s.len() - b,
{
    if b == s.len() {
        assert(s.subrange(0, s.len() as int) =~= s);
    } else {
        lemma_trim_back_cut(s.drop_last(), b);
        assert(s.drop_last().subrange(0, b) =~= s.subrange(0, b));
    }
}

/// `s` without leading and trailing whitespace.
pub fn trim_spaces(s: &str) -> (r: String)
    ensures
        r@ == spec_trim(s@),
{
    let n = s.unicode_len();
    let mut a: usize = 0;
    while a < n && is_space_exec(s.get_char(a))
        invariant
            n == s@.len(),
            0 <= a <= n,
            forall|k: int| 0 <= k < a ==> is_space(s@[k]),
        decreases n - a,
    {
        a = a + 1;
    }
    let mut b: usize = n;
    while b > a && is_space_exec(s.get_char(b - 1))
        invariant
            n == s@.len(),
            a <= b <= n,
            forall|k: int| b <= k < n ==> is_space(s@[k]),
            a < n ==> !is_space(s@[a as int]),
            forall|k: int| 0 <= k < a ==> is_space(s@[k]),
        decreases b,
    {
        b = b - 1;
    }
    let r = s.substring_char(a, b).to_owned();
    proof {
        lemma_trim_front_cut(s@, a as int);
        let t = s@.subrange(a as int, s@.len() as int);
        if b > a {
            lemma_trim_back_cut(t, b - a);
            assert(t.subrange(0, b - a) =~= s@.subrange(a as int, b as int));
        } else {
            assert(b == a);
            lemma_trim_back_cut(t, 0);
            assert(t.subrange(0, 0) =~= s@.subrange(a as int, b as int));
        }
    }
    r
}

/// Whitespace test on one character.
pub fn is_space_exec(c: char) -> (r: bool)
    ensures
        r == is_space(c),
{
    c == ' ' || c == '\t' || c == '\r' || c == '\n'
}

/// The pieces of `s` between its commas, in order. An empty input is one
/// empty piece; a trailing comma ends with one.
pub open spec fn split_commas(s: Seq<char>) -> Seq<Seq<char>>
    decreases s.len(),
{
    if s.len() == 0 {
        seq![Seq::<char>::empty()]
    } else if s[s.len() - 1] == ',' {
        split_commas(s.drop_last()).push(Seq::empty())
    } else {
        let r = split_commas(s.drop_last());
        r.update(r.len() - 1, r.last().push(s[s.len() - 1]))
    }
}

pub proof fn lemma_split_commas_len(s: Seq<char>)
    ensures
        split_commas(s).len() >= 1,
    decreases s.len(),
{
    if s.len() > 0 {
        lemma_split_commas_len(s.drop_last());
    }
}

/// Split `s` on commas.
pub fn split_commas_exec(s: &str) -> (r: Vec<String>)
    ensures
        r@.map_values(|t: String| t@) == split_commas(s@),
{
    let n = s.unicode_len();
    let mut tokens: Vec<String> = Vec::new();
    let mut cur = String::new();
    let mut i: usize = 0;
    proof {
        assert(s@.take(0) =~= Seq::<char>::empty());
        assert(tokens@.map_values(|t: String| t@).push(cur@) =~= split_commas(s@.take(0)));
    }
    while i < n
        invariant
            n == s@.len(),
            0 <= i <= n,
            tokens@.map_values(|t: String| t@).push(cur@) == split_commas(s@.take(i as int)),
        decreases n - i,
    {
        let ghost tokens_old = tokens@;
        let ghost cur_old = cur@;
        let c = s.get_char(i);
        if c == ',' {
            tokens.push(cur);
            cur = String::new();
        } else {
            push_char(&mut cur, c);
        }
        proof {
            let prev = s@.take(i as int);
            assert(s@.take(i + 1).drop_last() =~= prev);
            assert(s@.take(i + 1).last() == c);
            lemma_split_commas_len(prev);
            if c == ',' {
                assert(tokens@.map_values(|t: String| t@).push(cur@) =~= split_commas(
                    prev,
                ).push(Seq::<char>::empty()));
            } else {
                let r0 = split_commas(prev);
                assert(tokens@.map_values(|t: String| t@).push(cur@) =~= r0.update(
                    r0.len() - 1,
                    r0.last().push(c),
                ));
            }
        }
        i = i + 1;
    }
    let ghost tokens_before = tokens@;
    let ghost cur_final = cur@;
    tokens.push(cur);
    proof {
        assert(s@.take(n as int) =~= s@);
        assert(tokens@.map_values(|t: String| t@) =~= tokens_before.map_values(
            |t: String| t@,
        ).push(cur_final));
    }
    tokens
}

/// The pieces of `s` between its '/' separators, in order.
pub open spec fn split_slash(s: Seq<char>) -> Seq<Seq<char>>
    decreases s.len(),
{
    if s.len() == 0 {
        seq![Seq::<char>::empty()]
    } else if s[s.len() - 1] == '/' {
        split_slash(s.drop_last()).push(Seq::empty())
    } else {
        let r = split_slash(s.drop_last());
        r.update(r.len() - 1, r.last().push(s[s.len() - 1]))
    }
}

pub proof fn lemma_split_slash_len(s: Seq<char>)
    ensures
        split_slash(s).len() >= 1,
    decreases s.len(),
{
    if s.len() > 0 {
        lemma_split_slash_len(s.drop_last());
    }
}

/// The components of a logical path: empty for the root, otherwise the
/// names between the '/' separators.
pub open spec fn spec_split_path(s: Seq<char>) -> Seq<Seq<char>> {
    if s.len() == 0 {
        Seq::empty()
    } else {
        split_slash(s)
    }
}

/// Split a logical path into its components.
pub fn split_path(s: &str) -> (r: Vec<String>)
    ensures
        r@.map_values(|t: String| t@) == spec_split_path(s@),
{
    let n = s.unicode_len();
    let mut tokens: Vec<String> = Vec::new();
    if n == 0 {
        proof {
            assert(tokens@.map_values(|t: String| t@) =~= spec_split_path(s@));
        }
        return tokens;
    }
    let mut cur = String::new();
    let mut i: usize = 0;
    proof {
        assert(s@.take(0) =~= Seq::<char>::empty());
        assert(tokens@.map_values(|t: String| t@).push(cur@) =~= split_slash(s@.take(0)));
    }
    while i < n
        invariant
            n == s@.len(),
            0 <= i <= n,
            tokens@.map_values(|t: String| t@).push(cur@) == split_slash(s@.take(i as int)),
        decreases n - i,
    {
        let ghost tokens_old = tokens@;
        let ghost cur_old = cur@;
        let c = s.get_char(i);
        if c == '/' {
            tokens.push(cur);
            cur = String::new();
        } else {
            push_char(&mut cur, c);
        }
        proof {
            let prev = s@.take(i as int);
            assert(s@.take(i + 1).drop_last() =~= prev);
            assert(s@.take(i + 1).last() == c);
            lemma_split_slash_len(prev);
            if c == '/' {
                assert(tokens@.map_values(|t: String| t@).push(cur@) =~= split_slash(
                    prev,
                ).push(Seq::<char>::empty()));
            } else {
                let r0 = split_slash(prev);
                assert(tokens@.map_values(|t: String| t@).push(cur@) =~= r0.update(
                    r0.len() - 1,
                    r0.last().push(c),
                ));
            }
        }
        i = i + 1;
    }
    let ghost tokens_before = tokens@;
    let ghost cur_final = cur@;
    tokens.push(cur);
    proof {
        assert(s@.take(n as int) =~= s@);
        assert(tokens@.map_values(|t: String| t@) =~= tokens_before.map_values(
            |t: String| t@,
        ).push(cur_final));
    }
    tokens
}

/// True when `s` begins with `p`.
pub open spec fn spec_starts_with(s: Seq<char>, p: Seq<char>) -> bool {
    s.len() >= p.len() && s.subrange(0, p.len() as int) == p
}

/// True when `s` ends with `p`.
pub open spec fn spec_ends_with(s: Seq<char>, p: Seq<char>) -> bool {
    s.len() >= p.len() && s.subrange(s.len() - p.len(), s.len() as int) == p
}

/// Prefix test.
pub fn str_starts_with(s: &str, p: &str) -> (r: bool)
    ensures
        r == spec_starts_with(s@, p@),
{
    let ns = s.unicode_len();
    let np = p.unicode_len();
    if ns < np {
        return false;
    }
    let mut i: usize = 0;
    while i < np
        invariant
            ns == s@.len(),
            np == p@.len(),
            np <= ns,
            0 <= i <= np,
            forall|k: int| 0 <= k < i ==> s@[k] == p@[k],
        decreases np - i,
    {
        if s.get_char(i) != p.get_char(i) {
            assert(s@.subrange(0, np as int)[i as int] != p@[i as int]);
            return false;
        }
        i = i + 1;
    }
    proof {
        assert(s@.subrange(0, np as int) =~= p@);
    }
    true
}

/// Suffix test.
pub fn str_ends_with(s: &str, p: &str) -> (r: bool)
    ensures
        r == spec_ends_with(s@, p@),
{
    let ns = s.unicode_len();
    let np = p.unicode_len();
    if ns < np {
        return false;
    }
    let base = ns - np;
    let mut i: usize = 0;
    while i < np
        invariant
            ns == s@.len(),
            np == p@.len(),
            np <= ns,
            base == ns - np,
            0 <= i <= np,
            forall|k: int| 0 <= k < i ==> s@[base + k] == p@[k],
        decreases np - i,
    {
        if s.get_char(base + i) != p.get_char(i) {
            assert(s@.subrange(base as int, ns as int)[i as int] != p@[i as int]);
            return false;
        }
        i = i + 1;
    }
    proof {
        assert(s@.subrange(base as int, ns as int) =~= p@);
    }
    true
}

/// A directory entry is listed as a photo when it is not a dotfile and its
/// extension, ignoring case, is one of the accepted image extensions.
pub open spec fn is_image_name(s: Seq<char>) -> bool {
    &&& s.len() > 0
    &&& s[0] != '.'
    &&& (spec_ends_with(lower_seq(s), ".jpg"@) || spec_ends_with(lower_seq(s), ".jpeg"@))
}

/// Accepts exactly the file names the gallery treats as photos.
pub fn is_image_filename(name: &str) -> (r: bool)
    ensures
        r == is_image_name(name@),
{
    let n = name.unicode_len();
    if n == 0 {
        return false;
    }
    if name.get_char(0) == '.' {
        return false;
    }
    let lower = to_lower_ascii(name);
    str_ends_with(lower.as_str(), ".jpg") || str_ends_with(lower.as_str(), ".jpeg")
}

/// The parent of a logical path: everything before the last '/' separator,
/// or the root (the empty path) when there is no separator.
pub open spec fn spec_parent(s: Seq<char>) -> Seq<char>
    decreases s.len(),
{
    if s.len() == 0 {
        Seq::empty()
    } else if s[s.len() - 1] == '/' {
        s.subrange(0, s.len() - 1)
    } else {
        spec_parent(s.drop_last())
    }
}

pub proof fn lemma_spec_parent_len(s: Seq<char>)
    requires
        s.len() > 0,
    ensures
        spec_parent(s).len() < s.len(),
    decreases s.len(),
{
    if s[s.len() - 1] != '/' {
        if s.len() > 1 {
            lemma_spec_parent_len(s.drop_last());
        } else {
            assert(spec_parent(s.drop_last()).len() == 0);
        }
    }
}

proof fn lemma_spec_parent_cut(s: Seq<char>, idx: int)
    requires
        0 <= idx < s.len(),
        s[idx] == '/',
        forall|k: int| idx < k < s.len() ==> s[k] != '/',
    ensures
        spec_parent(s) == s.subrange(0, idx),
    decreases s.len(),
{
    if idx == s.len() - 1 {
    } else {
        lemma_spec_parent_cut(s.drop_last(), idx);
        assert(s.drop_last().subrange(0, idx) =~= s.subrange(0, idx));
    }
}

proof fn lemma_spec_parent_no_sep(s: Seq<char>)
    requires
        forall|k: int| 0 <= k < s.len() ==> s[k] != '/',
    ensures
        spec_parent(s) == Seq::<char>::empty(),
    decreases s.len(),
{
    if s.len() > 0 {
        lemma_spec_parent_no_sep(s.drop_last());
    }
}

/// The parent of a logical path.
pub fn parent_path(s: &str) -> (r: String)
    ensures
        r@ == spec_parent(s@),
{
    let n = s.unicode_len();
    // Find the position after the last '/' in the string, if any.
    let mut cut: usize = 0;
    let mut found = false;
    let mut i: usize = 0;
    while i < n
        invariant
            n == s@.len(),
            0 <= i <= n,
            found ==> cut < i && s@[cut as int] == '/' && forall|k: int|
                cut < k < i ==> s@[k] != '/',
            !found ==> forall|k: int| 0 <= k < i ==> s@[k] != '/',
        decreases n - i,
    {
        if s.get_char(i) == '/' {
            cut = i;
            found = true;
        }
        i = i + 1;
    }
    if found {
        let r = s.substring_char(0, cut).to_owned();
        proof {
            lemma_spec_parent_cut(s@, cut as int);
        }
        r
    } else {
        proof {
            lemma_spec_parent_no_sep(s@);
        }
        String::new()
    }
}

/// The chain of ancestors of a logical path, from the root (the empty path)
/// down to the path itself.
pub open spec fn ancestor_chain(p: Seq<char>) -> Seq<Seq<char>>
    decreases p.len() via ancestor_chain_dec
{
    if p.len() == 0 {
        seq![Seq::<char>::empty()]
    } else {
        ancestor_chain(spec_parent(p)).push(p)
    }
}

#[via_fn]
proof fn ancestor_chain_dec(p: Seq<char>) {
    if p.len() > 0 {
        lemma_spec_parent_len(p);
    }
}

/// Joins a child name onto a logical path: the root joins to the bare name,
/// any other path gains a '/' separator.
pub open spec fn spec_join(parent: Seq<char>, name: Seq<char>) -> Seq<char> {
    if parent.len() == 0 {
        name
    } else {
        parent + seq!['/'] + name
    }
}

/// Joins a child name onto a logical path.
pub fn join_path(parent: &str, name: &str) -> (r: String)
    ensures
        r@ == spec_join(parent@, name@),
{
    if parent.unicode_len() == 0 {
        name.to_owned()
    } else {
        let mut r = parent.to_owned();
        push_char(&mut r, '/');
        let r2 = r.concat(name);
        proof {
            assert(r2@ =~= parent@ + seq!['/'] + name@);
        }
        r2
    }
}

} // verus!
