//! Field-name normalization.
//!
//! Schema field names arrive in the modeling language's native convention
//! (kebab-case); the compiled model stores one canonical convention
//! (camelCase). Lookups later try a document key exactly first and then its
//! normalized form, so both conversions are needed at binding time as well.

use vstd::prelude::*;

verus! {

/// The camelCase rendering of a character sequence, as the conversion
/// library computes it.
pub uninterp spec fn camel_of(s: Seq<char>) -> Seq<char>;

/// The kebab-case rendering of a character sequence, as the conversion
/// library computes it.
pub uninterp spec fn kebab_of(s: Seq<char>) -> Seq<char>;

/// Relies on inflector's `to_camel_case`: the result is a function of the
/// input characters alone.
#[verifier::external_body]
pub(crate) fn to_camel_case(s: &str) -> (r: String)
    ensures
        r@ == camel_of(s@),
{
    inflector::cases::camelcase::to_camel_case(s)
}

/// Relies on inflector's `to_kebab_case`: the result is a function of the
/// input characters alone.
#[verifier::external_body]
pub(crate) fn to_kebab_case(s: &str) -> (r: String)
    ensures
        r@ == kebab_of(s@),
{
    inflector::cases::kebabcase::to_kebab_case(s)
}

/// The element-wise view of a sequence of strings.
pub open spec fn strs_view(v: Seq<String>) -> Seq<Seq<char>> {
    Seq::new(v.len(), |i: int| v[i]@)
}

/// Character-wise equality of two string slices.
pub(crate) fn str_eq(a: &str, b: &str) -> (r: bool)
    ensures
        r == (a@ == b@),
{
    let x: String = a.to_owned();
    let y: String = b.to_owned();
    x == y
}

pub open spec fn split_acc(s: Seq<char>, cur: Seq<char>) -> Seq<Seq<char>>
    decreases s.len(),
{
    if s.len() == 0 {
        seq![cur]
    } else if s[0] == ' ' {
        seq![cur] + split_acc(s.drop_first(), Seq::empty())
    } else {
        split_acc(s.drop_first(), cur.push(s[0]))
    }
}

/// The space-separated tokens of a character sequence. Consecutive, leading
/// or trailing separators yield empty tokens, as the standard splitter does.
pub open spec fn split_spaces(s: Seq<char>) -> Seq<Seq<char>> {
    split_acc(s, Seq::empty())
}

/// Split a string at single spaces.
pub(crate) fn split_spaces_exec(s: &str) -> (r: Vec<String>)
    ensures
        strs_view(r@) == split_spaces(s@),
{
    let n: usize = s.unicode_len();
    let mut toks: Vec<String> = Vec::new();
    let mut start: usize = 0;
    let mut i: usize = 0;
    assert(s@.skip(0) =~= s@);
    assert(s@.subrange(0, 0) =~= Seq::<char>::empty());
    while i < n
        invariant
            n == s@.len(),
            start <= i <= n,
            strs_view(toks@) + split_acc(s@.skip(i as int), s@.subrange(start as int, i as int))
                =~= split_spaces(s@),
        decreases n - i,
    {
        let c = s.get_char(i);
        assert(s@.skip(i as int)[0] == s@[i as int]);
        if c == ' ' {
            let tok: &str = s.substring_char(start, i);
            let ghost old_toks = toks@;
            toks.push(tok.to_owned());
            assert(strs_view(toks@) =~= strs_view(old_toks).push(tok@));
            assert(s@.skip(i as int).drop_first() =~= s@.skip(i + 1));
            assert(s@.subrange(i + 1, i + 1) =~= Seq::<char>::empty());
            start = i + 1;
        } else {
            assert(s@.skip(i as int).drop_first() =~= s@.skip(i + 1));
            assert(s@.subrange(start as int, i as int).push(s@[i as int]) =~= s@.subrange(
                start as int,
                i + 1,
            ));
        }
        i = i + 1;
    }
    let tok: &str = s.substring_char(start, n);
    let ghost old_toks = toks@;
    toks.push(tok.to_owned());
    assert(s@.skip(n as int) =~= Seq::<char>::empty());
    assert(strs_view(toks@) =~= strs_view(old_toks).push(tok@));
    toks
}

} // verus!
