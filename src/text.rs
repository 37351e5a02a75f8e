use vstd::prelude::*;
use vstd::string::*;

verus! {

/// The uppercase mapping of a character, as the standard library gives it.
pub uninterp spec fn upper_of(c: char) -> Seq<char>;

/// The lowercase mapping of a character, as the standard library gives it.
pub uninterp spec fn lower_of(c: char) -> Seq<char>;

/// Relies on `char::to_uppercase`: the uppercase mapping of `c` depends on `c`
/// alone.
#[verifier::external_body]
fn char_to_upper(c: char) -> (r: String)
    ensures
        r@ == upper_of(c),
{
    c.to_uppercase().collect()
}

/// Relies on `char::to_lowercase`: the lowercase mapping of `c` depends on `c`
/// alone.
#[verifier::external_body]
fn char_to_lower(c: char) -> (r: String)
    ensures
        r@ == lower_of(c),
{
    c.to_lowercase().collect()
}

/// `s` with its first character replaced by its uppercase mapping.
pub open spec fn upper_first(s: Seq<char>) -> Seq<char> {
    if s.len() == 0 {
        Seq::empty()
    } else {
        upper_of(s[0]) + s.drop_first()
    }
}

/// `s` with its first character replaced by its lowercase mapping.
pub open spec fn lower_first(s: Seq<char>) -> Seq<char> {
    if s.len() == 0 {
        Seq::empty()
    } else {
        lower_of(s[0]) + s.drop_first()
    }
}

/// Uppercases the first character of `s` and keeps the rest as it is.
pub fn uppercase_first_char(s: &str) -> (r: String)
    ensures
        r@ == upper_first(s@),
        s@.len() == 0 ==> r@.len() == 0,
        s@.len() == 1 ==> r@ == upper_of(s@[0]),
{
    let n = s.unicode_len();
    if n == 0 {
        return String::new();
    }
    let rest = s.substring_char(1, n);
    let head = char_to_upper(s.get_char(0));
    assert(rest@ =~= s@.drop_first());
    assert(n == 1 ==> s@.drop_first() =~= Seq::<char>::empty());
    head.concat(rest)
}

/// Lowercases the first character of `s` and keeps the rest as it is.
pub fn lowercase_first_char(s: &str) -> (r: String)
    ensures
        r@ == lower_first(s@),
        s@.len() == 0 ==> r@.len() == 0,
        s@.len() == 1 ==> r@ == lower_of(s@[0]),
{
    let n = s.unicode_len();
    if n == 0 {
        return String::new();
    }
    let rest = s.substring_char(1, n);
    let head = char_to_lower(s.get_char(0));
    assert(rest@ =~= s@.drop_first());
    assert(n == 1 ==> s@.drop_first() =~= Seq::<char>::empty());
    head.concat(rest)
}

} // verus!
