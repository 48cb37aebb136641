//! Text primitives: names for the unicode-dependent results of outside text
//! functions, thin trusted wrappers around them, and verified helpers over
//! character sequences.

use unicode_segmentation::UnicodeSegmentation;
use unicode_width::UnicodeWidthChar;
use unicode_width::UnicodeWidthStr;
use vstd::prelude::*;
use vstd::string::*;

verus! {

/// What `str::to_lowercase` returns for a string with these characters.
pub uninterp spec fn lower_of(s: Seq<char>) -> Seq<char>;

/// The first character `char::to_lowercase` yields for this character.
pub uninterp spec fn lower_char(c: char) -> char;

/// The grapheme clusters `unicode_segmentation` splits these characters into.
pub uninterp spec fn graphemes_of(s: Seq<char>) -> Seq<Seq<char>>;

/// What `char::is_uppercase` returns for this character.
pub uninterp spec fn is_upper(c: char) -> bool;

/// What `char::is_lowercase` returns for this character.
pub uninterp spec fn is_lower(c: char) -> bool;

/// What `char::is_whitespace` returns for this character.
pub uninterp spec fn is_space(c: char) -> bool;

/// What `char::is_alphanumeric` returns for this character.
pub uninterp spec fn is_alnum(c: char) -> bool;

/// The column width `unicode_width` assigns to this character.
pub uninterp spec fn char_width(c: char) -> Option<usize>;

/// The column width `unicode_width` assigns to a string with these characters.
pub uninterp spec fn str_width(s: Seq<char>) -> usize;

/// The character sequences of a sequence of strings.
pub open spec fn views_of_strings(v: Seq<String>) -> Seq<Seq<char>> {
    v.map_values(|s: String| s@)
}

/// Relies on `str::to_lowercase`: the result depends on the characters alone,
/// and it is empty exactly when the input is empty.
#[verifier::external_body]
pub fn lowercase_str(s: &str) -> (r: String)
    ensures
        r@ == lower_of(s@),
        (s@.len() == 0) <==> (r@.len() == 0),
{
    s.to_lowercase()
}

/// Relies on `char::to_lowercase`: the mapping depends on the character alone,
/// and the iterator always yields at least one character, so `next` succeeds.
#[verifier::external_body]
pub fn lowercase_char(c: char) -> (r: char)
    ensures
        r == lower_char(c),
{
    c.to_lowercase().next().unwrap()
}

/// Relies on `char::is_uppercase`: a fixed unicode property lookup.
pub assume_specification[ char::is_uppercase ](c: char) -> (r: bool)
    ensures
        r == is_upper(c),
;

/// Relies on `char::is_lowercase`: a fixed unicode property lookup.
pub assume_specification[ char::is_lowercase ](c: char) -> (r: bool)
    ensures
        r == is_lower(c),
;

/// Relies on `char::is_whitespace`: a fixed unicode property lookup.
pub assume_specification[ char::is_whitespace ](c: char) -> (r: bool)
    ensures
        r == is_space(c),
;

/// Relies on `char::is_alphanumeric`: a fixed unicode property lookup.
pub assume_specification[ char::is_alphanumeric ](c: char) -> (r: bool)
    ensures
        r == is_alnum(c),
;

/// Relies on `unicode_segmentation`'s `graphemes`: the split depends on the
/// characters alone, and every grapheme cluster is nonempty.
#[verifier::external_body]
pub fn grapheme_clusters(s: &str) -> (r: Vec<String>)
    ensures
        views_of_strings(r@) == graphemes_of(s@),
        forall|i: int| 0 <= i < r@.len() ==> r@[i]@.len() > 0,
{
    s.graphemes(true).map(|g| g.to_string()).collect()
}

/// Relies on `unicode_width`'s `UnicodeWidthChar::width`: a fixed table lookup.
#[verifier::external_body]
pub fn width_of_char(c: char) -> (r: Option<usize>)
    ensures
        r == char_width(c),
{
    UnicodeWidthChar::width(c)
}

/// Relies on `unicode_width`'s `UnicodeWidthStr::width`: a fixed table lookup.
#[verifier::external_body]
pub fn width_of_str(s: &str) -> (r: usize)
    ensures
        r == str_width(s@),
{
    UnicodeWidthStr::width(s)
}

/// Relies on `String: FromIterator<char>`: collecting characters yields a
/// string with exactly those characters.
#[verifier::external_body]
pub fn string_from_chars(v: &Vec<char>) -> (s: String)
    ensures
        s@ == v@,
{
    v.iter().collect()
}

/// The characters of a string, as a vector.
pub fn chars_vec(s: &str) -> (v: Vec<char>)
    ensures
        v@ == s@,
{
    let n = s.unicode_len();
    let mut v: Vec<char> = Vec::new();
    let mut i: usize = 0;
    while i < n
        invariant
            n == s@.len(),
            i <= n,
            v@ == s@.take(i as int),
        decreases n - i,
    {
        v.push(s.get_char(i));
        i = i + 1;
        proof {
            assert(v@ =~= s@.take(i as int));
        }
    }
    proof {
        assert(v@ =~= s@);
    }
    v
}

/// Appends the characters of `s` to `out`.
pub fn extend_chars(out: &mut Vec<char>, s: &str)
    ensures
        final(out)@ == old(out)@ + s@,
{
    let n = s.unicode_len();
    let mut i: usize = 0;
    while i < n
        invariant
            n == s@.len(),
            i <= n,
            out@ == old(out)@ + s@.take(i as int),
        decreases n - i,
    {
        out.push(s.get_char(i));
        i = i + 1;
        proof {
            assert(out@ =~= old(out)@ + s@.take(i as int));
        }
    }
    proof {
        assert(out@ =~= old(out)@ + s@);
    }
}

/// Whether `c` occurs in `s`.
pub open spec fn has_char(s: Seq<char>, c: char) -> bool {
    exists|i: int| 0 <= i < s.len() && s[i] == c
}

/// The pieces of `s` between occurrences of `sep`: always one more piece than
/// there are separators, in order.
pub open spec fn split_on(s: Seq<char>, sep: char) -> Seq<Seq<char>>
    decreases s.len(),
{
    if s.len() == 0 {
        seq![Seq::<char>::empty()]
    } else if s[0] == sep {
        seq![Seq::<char>::empty()] + split_on(s.drop_first(), sep)
    } else {
        let rest = split_on(s.drop_first(), sep);
        seq![seq![s[0]] + rest[0]] + rest.drop_first()
    }
}

/// `pieces` with `pre` prepended to its first piece.
pub open spec fn prepend_first(pre: Seq<char>, pieces: Seq<Seq<char>>) -> Seq<Seq<char>> {
    seq![pre + pieces[0]] + pieces.drop_first()
}

/// Splitting always yields at least one piece.
pub proof fn lemma_split_nonempty(s: Seq<char>, sep: char)
    ensures
        split_on(s, sep).len() >= 1,
    decreases s.len(),
{
    if s.len() > 0 {
        lemma_split_nonempty(s.drop_first(), sep)
    }
}

/// A text without the separator is a single piece.
pub proof fn lemma_split_no_sep(s: Seq<char>, sep: char)
    requires
        !has_char(s, sep),
    ensures
        split_on(s, sep) == seq![s],
    decreases s.len(),
{
    if s.len() == 0 {
        assert(s =~= Seq::<char>::empty());
    } else {
        assert(s[0] != sep);
        assert(!has_char(s.drop_first(), sep)) by {
            assert(forall|i: int|
                0 <= i < s.drop_first().len() ==> #[trigger] s.drop_first()[i] == s[i + 1]);
        }
        lemma_split_no_sep(s.drop_first(), sep);
        assert(seq![s[0]] + s.drop_first() =~= s);
        assert(seq![seq![s[0]] + s.drop_first()] + split_on(s.drop_first(), sep).drop_first()
            =~= seq![s]);
    }
}

/// Splitting at a separator between a clean prefix and a remainder splits the
/// prefix off as the first piece.
pub proof fn lemma_split_concat_sep(a: Seq<char>, b: Seq<char>, sep: char)
    requires
        !has_char(a, sep),
    ensures
        split_on(a + seq![sep] + b, sep) == seq![a] + split_on(b, sep),
    decreases a.len(),
{
    let s = a + seq![sep] + b;
    if a.len() == 0 {
        assert(a =~= Seq::<char>::empty());
        assert(s =~= seq![sep] + b);
        assert(s[0] == sep);
        assert(s.drop_first() =~= b);
        assert(seq![Seq::<char>::empty()] + split_on(b, sep) =~= seq![a] + split_on(b, sep));
    } else {
        assert(s[0] == a[0]);
        assert(a[0] != sep);
        assert(!has_char(a.drop_first(), sep)) by {
            assert(forall|i: int|
                0 <= i < a.drop_first().len() ==> #[trigger] a.drop_first()[i] == a[i + 1]);
        }
        lemma_split_concat_sep(a.drop_first(), b, sep);
        assert(s.drop_first() =~= a.drop_first() + seq![sep] + b);
        let rest = split_on(s.drop_first(), sep);
        assert(rest == seq![a.drop_first()] + split_on(b, sep));
        assert(rest[0] == a.drop_first());
        assert(seq![a[0]] + rest[0] =~= a);
        assert(rest.drop_first() =~= split_on(b, sep));
        assert(seq![seq![a[0]] + rest[0]] + rest.drop_first() =~= seq![a] + split_on(b, sep));
    }
}

/// The character sequences of a vector of character vectors.
pub open spec fn views_of_vecs(v: Seq<Vec<char>>) -> Seq<Seq<char>> {
    v.map_values(|p: Vec<char>| p@)
}

/// Splits `v` on `sep` into its pieces.
pub fn split_chars(v: &Vec<char>, sep: char) -> (r: Vec<Vec<char>>)
    ensures
        views_of_vecs(r@) == split_on(v@, sep),
{
    let n = v.len();
    let mut out: Vec<Vec<char>> = Vec::new();
    let mut cur: Vec<char> = Vec::new();
    let mut i: usize = 0;
    proof {
        assert(v@.skip(0) =~= v@);
        lemma_split_nonempty(v@, sep);
        assert(Seq::<char>::empty() + split_on(v@, sep)[0] =~= split_on(v@, sep)[0]);
        assert(views_of_vecs(out@) + prepend_first(cur@, split_on(v@.skip(0), sep)) =~= split_on(
            v@,
            sep,
        ));
    }
    while i < n
        invariant
            i <= n,
            n == v@.len(),
            views_of_vecs(out@) + prepend_first(cur@, split_on(v@.skip(i as int), sep)) == split_on(
                v@,
                sep,
            ),
        decreases n - i,
    {
        let ghost tail = v@.skip(i as int);
        proof {
            assert(tail.len() > 0);
            assert(tail[0] == v@[i as int]);
            assert(tail.drop_first() =~= v@.skip(i as int + 1));
            lemma_split_nonempty(tail.drop_first(), sep);
        }
        let c = v[i];
        if c == sep {
            let ghost old_out = out@;
            let ghost old_cur = cur@;
            out.push(cur);
            cur = Vec::new();
            proof {
                let rest = split_on(tail.drop_first(), sep);
                assert(old_cur + Seq::<char>::empty() =~= old_cur);
                assert(views_of_vecs(out@) =~= views_of_vecs(old_out).push(old_cur));
                assert(views_of_vecs(old_out) + prepend_first(old_cur, split_on(tail, sep))
                    =~= views_of_vecs(out@) + prepend_first(cur@, rest));
            }
        } else {
            let ghost old_cur = cur@;
            cur.push(c);
            proof {
                let rest = split_on(tail.drop_first(), sep);
                assert(old_cur + (seq![c] + rest[0]) =~= cur@ + rest[0]);
                assert(prepend_first(old_cur, split_on(tail, sep)) =~= prepend_first(cur@, rest));
            }
        }
        i = i + 1;
    }
    proof {
        assert(v@.skip(n as int).len() == 0);
        assert(cur@ + Seq::<char>::empty() =~= cur@);
        assert(prepend_first(cur@, split_on(v@.skip(n as int), sep)) =~= seq![cur@]);
    }
    let ghost old_out = out@;
    out.push(cur);
    proof {
        assert(views_of_vecs(out@) =~= views_of_vecs(old_out) + seq![out@[out@.len() - 1]@]);
        assert(views_of_vecs(out@) =~= split_on(v@, sep));
    }
    out
}

/// Whether a string holds exactly these characters.
pub fn string_eq_chars(s: &String, v: &Vec<char>) -> (r: bool)
    ensures
        r == (s@ == v@),
{
    let n = s.as_str().unicode_len();
    if n != v.len() {
        return false;
    }
    let mut i: usize = 0;
    while i < n
        invariant
            i <= n,
            n == s@.len(),
            n == v@.len(),
            forall|k: int| 0 <= k < i ==> s@[k] == v@[k],
        decreases n - i,
    {
        if s.as_str().get_char(i) != v[i] {
            return false;
        }
        i = i + 1;
    }
    proof {
        assert(s@ =~= v@);
    }
    true
}

/// Whether two strings hold the same characters.
pub fn str_eq(a: &str, b: &str) -> (r: bool)
    ensures
        r == (a@ == b@),
{
    let na = a.unicode_len();
    let nb = b.unicode_len();
    if na != nb {
        return false;
    }
    let mut i: usize = 0;
    while i < na
        invariant
            na == a@.len(),
            na == b@.len(),
            i <= na,
            forall|k: int| 0 <= k < i ==> a@[k] == b@[k],
        decreases na - i,
    {
        if a.get_char(i) != b.get_char(i) {
            return false;
        }
        i = i + 1;
    }
    proof {
        assert(a@ =~= b@);
    }
    true
}

} // verus!
