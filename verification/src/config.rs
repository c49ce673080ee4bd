//! Settings read from the configuration: the default locale, the exclude list and the tax flag.

use vstd::prelude::*;
use crate::text::{chars_of, clean, clean_pieces, split, split_chars, string_of, string_views, views};

verus! {

/// The locale used when the configuration names none.
pub fn default_locale() -> (r: String)
    ensures
        r@ == "ko"@,
{
    String::from_str("ko")
}

/// The item names that a comma-separated filter lists: split at `,`, trimmed, the empty ones
/// left out.
pub open spec fn spec_exclude_list(filter: Seq<char>) -> Seq<Seq<char>> {
    clean_pieces(split(filter, ','))
}

/// The exclude list that a comma-separated filter setting gives.
pub fn parse_exclude_list(filter: &str) -> (r: Vec<String>)
    ensures
        string_views(r@) == spec_exclude_list(filter@),
{
    let names = clean(&split_chars(&chars_of(filter), ','));
    let mut r: Vec<String> = Vec::new();
    let n = names.len();
    for i in 0..n
        invariant
            n == names.len(),
            string_views(r@) == views(names@).take(i as int),
            r@.len() == i,
    {
        let s = string_of(&names[i]);
        let ghost old_r = r@;
        r.push(s);
        assert(r@ == old_r.push(s));
        assert(string_views(r@) =~= string_views(old_r).push(s@));
        assert(views(names@)[i as int] == names@[i as int]@);
        assert(string_views(r@) =~= views(names@).take(i + 1));
    }
    assert(views(names@).take(n as int) =~= views(names@));
    r
}

/// Tax is on exactly when the `tax` setting is the number 1.
pub fn tax_enabled_setting(tax: Option<u64>) -> (r: bool)
    ensures
        r == (tax == Some(1u64)),
{
    match tax {
        Some(t) => t == 1,
        None => false,
    }
}

} // verus!
