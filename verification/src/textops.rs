use vstd::prelude::*;

verus! {

/// True when `needle` occurs as a contiguous run of characters inside `hay`.
pub open spec fn is_substring(needle: Seq<char>, hay: Seq<char>) -> bool {
    exists|i: int|
        0 <= i && i + needle.len() <= hay.len() && #[trigger] hay.subrange(
            i,
            i + needle.len(),
        ) == needle
}

/// True when `hay` ends with `suffix`.
pub open spec fn ends_with_spec(hay: Seq<char>, suffix: Seq<char>) -> bool {
    hay.len() >= suffix.len() && hay.subrange(hay.len() - suffix.len(), hay.len() as int)
        == suffix
}

/// The lower-cased form of a character sequence, as `str::to_lowercase`
/// computes it; the result depends on the characters alone.
pub uninterp spec fn lower_of(s: Seq<char>) -> Seq<char>;

/// Relies on `str::to_lowercase`: returns the lower-cased text, which is a
/// function of the characters alone, and the empty string stays empty.
#[verifier::external_body]
pub(crate) fn to_lowercase(s: &str) -> (r: String)
    ensures
        r@ == lower_of(s@),
        s@.len() == 0 ==> r@.len() == 0,
{
    s.to_lowercase()
}

/// Relies on `str::contains`: true exactly when the pattern occurs as a
/// contiguous substring of the receiver.
#[verifier::external_body]
pub(crate) fn str_contains(hay: &str, needle: &str) -> (r: bool)
    ensures
        r == is_substring(needle@, hay@),
{
    hay.contains(needle)
}

/// Relies on `str::ends_with`: true exactly when the pattern is a suffix of
/// the receiver.
#[verifier::external_body]
pub(crate) fn str_ends_with(hay: &str, suffix: &str) -> (r: bool)
    ensures
        r == ends_with_spec(hay@, suffix@),
{
    hay.ends_with(suffix)
}

/// Relies on `str::chars`: the iterator yields exactly the characters of the
/// slice, which are the slice's view.
#[verifier::external_body]
pub(crate) fn str_chars(s: &str) -> (r: Vec<char>)
    ensures
        r@ == s@,
{
    s.chars().collect()
}

/// Relies on `String: FromIterator<char>`: collecting characters builds the
/// string made of exactly those characters.
#[verifier::external_body]
pub(crate) fn string_from_chars(v: Vec<char>) -> (r: String)
    ensures
        r@ == v@,
{
    v.into_iter().collect()
}

/// Lexicographic order on character sequences by code point; this is the
/// order in which snapshot entries are sorted by name.
pub open spec fn lex_le(a: Seq<char>, b: Seq<char>) -> bool
    decreases a.len(),
{
    if a.len() == 0 {
        true
    } else if b.len() == 0 {
        false
    } else if (a[0] as u32) < (b[0] as u32) {
        true
    } else if (a[0] as u32) > (b[0] as u32) {
        false
    } else {
        lex_le(a.drop_first(), b.drop_first())
    }
}

fn lex_le_from(a: &Vec<char>, b: &Vec<char>, i: usize) -> (r: bool)
    requires
        i <= a.len(),
        i <= b.len(),
    ensures
        r == lex_le(a@.skip(i as int), b@.skip(i as int)),
    decreases a.len() - i,
{
    if i == a.len() {
        assert(a@.skip(i as int).len() == 0);
        true
    } else if i == b.len() {
        assert(b@.skip(i as int).len() == 0);
        assert(a@.skip(i as int).len() > 0);
        false
    } else {
        let ca = a[i];
        let cb = b[i];
        assert(a@.skip(i as int)[0] == a@[i as int]);
        assert(b@.skip(i as int)[0] == b@[i as int]);
        if (ca as u32) < (cb as u32) {
            true
        } else if (ca as u32) > (cb as u32) {
            false
        } else {
            assert(a@.skip(i as int).drop_first() =~= a@.skip(i + 1));
            assert(b@.skip(i as int).drop_first() =~= b@.skip(i + 1));
            lex_le_from(a, b, i + 1)
        }
    }
}

/// Decides the sort order of two names.
pub fn name_le(a: &str, b: &str) -> (r: bool)
    ensures
        r == lex_le(a@, b@),
{
    let av = str_chars(a);
    let bv = str_chars(b);
    assert(av@.skip(0) =~= av@);
    assert(bv@.skip(0) =~= bv@);
    lex_le_from(&av, &bv, 0)
}

} // verus!
