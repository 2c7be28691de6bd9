//! Re-rooting `crate::` paths of a crate printed as an inner module.

use vstd::prelude::*;

verus! {

/// The text with each match of `pattern` replaced by `replacement`, as
/// regex's `replace_all` does.
pub uninterp spec fn regex_replaced(pattern: Seq<char>, text: Seq<char>, replacement: Seq<char>) -> Seq<
    char,
>;

/// `pattern` is a regular expression that regex compiles.
pub uninterp spec fn regex_compiles(pattern: Seq<char>) -> bool;

/// Relies on regex's `Regex::new` and `Regex::replace_all`: every
/// non-overlapping match of `pattern` in `text` replaced by `replacement`
/// (with its `$` references expanded). `None` exactly where `pattern` does
/// not compile.
#[verifier::external_body]
fn regex_replace_all(pattern: &str, text: &str, replacement: &str) -> (r: Option<String>)
    ensures
        r is Some <==> regex_compiles(pattern@),
        r matches Some(s) ==> s@ == regex_replaced(pattern@, text@, replacement@),
{
    let re = regex::Regex::new(pattern).ok()?;
    Some(re.replace_all(text, replacement).into_owned())
}

/// `crate::\b`: `crate::` followed by a word character.
pub open spec fn crate_path_pattern() -> Seq<char> {
    "crate::\\b"@
}

/// `crate::<crate_name>::`
pub open spec fn rerooted_prefix(crate_name: Seq<char>) -> Seq<char> {
    "crate::"@ + crate_name + "::"@
}

/// Re-roots the `crate::` paths of the printed crate `crate_name`, which is
/// bundled as a module of that name: each `crate::` that a word character
/// follows becomes `crate::<crate_name>::`. `None` only where the pattern
/// fails to compile.
pub fn post_process_output_string(crate_name: &str, content: &str) -> (r: Option<String>)
    ensures
        r is Some <==> regex_compiles(crate_path_pattern()),
        r matches Some(s) ==> s@ == regex_replaced(
            crate_path_pattern(),
            content@,
            rerooted_prefix(crate_name@),
        ),
{
    proof {
        reveal_strlit("crate::\\b");
    }
    let mut replacement = String::from_str("crate::");
    replacement.append(crate_name);
    replacement.append("::");
    let pattern = "crate::\\b";
    assert(pattern@ == crate_path_pattern());
    regex_replace_all(pattern, content, replacement.as_str())
}

} // verus!
