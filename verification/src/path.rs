use vstd::prelude::*;

verus! {

/// A compiled pattern of the `regex` crate.
#[verifier::external_type_specification]
#[verifier::external_body]
pub struct ExRegex(regex::Regex);

/// The error that the `regex` crate reports for a pattern it cannot compile.
#[verifier::external_type_specification]
#[verifier::external_body]
pub struct ExRegexError(regex::Error);

/// The pattern text that a compiled pattern was built from.
pub uninterp spec fn pattern_of(re: regex::Regex) -> Seq<char>;

/// The compiled pattern was built with the options that `regex::Regex::new`
/// uses, and no others.
pub uninterp spec fn default_options(re: regex::Regex) -> bool;

/// The `regex` crate accepts the pattern text under its default options.
pub uninterp spec fn compiles(pattern: Seq<char>) -> bool;

/// The haystack with the first match of a pattern replaced, for a pattern
/// compiled with the default options.
pub uninterp spec fn first_replaced(
    pattern: Seq<char>,
    haystack: Seq<char>,
    rep: Seq<char>,
) -> Seq<char>;

/// The pattern that finds the source extension: a dot, `bf`, and the end of
/// the text.
pub open spec fn extension_pattern() -> Seq<char> {
    "\\.bf$"@
}

/// The source extension.
pub open spec fn source_extension() -> Seq<char> {
    ".bf"@
}

/// The extension of an assembly file.
pub open spec fn assembly_extension() -> Seq<char> {
    ".asm"@
}

/// The path ends with the source extension.
pub open spec fn has_source_extension(path: Seq<char>) -> bool {
    path.len() >= 3 && path.subrange(path.len() - 3, path.len() as int) == source_extension()
}

/// The path of the assembly file that belongs to a source file: a trailing
/// source extension gives way to the assembly extension; any other path
/// stays as it is.
pub open spec fn with_assembly_extension(path: Seq<char>) -> Seq<char> {
    if has_source_extension(path) {
        path.take(path.len() - 3) + assembly_extension()
    } else {
        path
    }
}

/// `regex::Regex::new`: compiles `pattern` with the default options.
/// Trusted: whether the pattern is accepted depends on its text alone; a
/// compiled pattern remembers the text it was compiled from and carries the
/// default options. Nothing is claimed about which patterns are accepted.
#[verifier::external_body]
fn compile_pattern(pattern: &str) -> (r: Result<regex::Regex, regex::Error>)
    ensures
        r is Ok <==> compiles(pattern@),
        r matches Ok(re) ==> pattern_of(re) == pattern@ && default_options(re),
{
    regex::Regex::new(pattern)
}

/// `regex::Regex::replace` with a string as the replacement: a copy of
/// `haystack` in which the leftmost match is replaced. Trusted, and only of
/// a pattern compiled with the default options: the result depends on the
/// pattern text, the haystack and the replacement alone; and for the
/// pattern that stands for a literal dot, `bf` and the end of the text,
/// with a replacement that refers to no capture group, a haystack that ends
/// in `.bf` has these three characters replaced and any other is unchanged.
/// Nothing is claimed of a pattern compiled with other options.
#[verifier::external_body]
fn replace_first(re: &regex::Regex, haystack: &str, rep: &str) -> (r: String)
    ensures
        default_options(*re) ==> r@ == first_replaced(pattern_of(*re), haystack@, rep@),
        default_options(*re) && pattern_of(*re) == extension_pattern() && rep@
            == assembly_extension() ==> r@ == with_assembly_extension(haystack@),
{
    re.replace(haystack, rep).into_owned()
}

/// Derives the output path with a matcher that was compiled beforehand.
/// Without a matcher there is no path. With a matcher that carries the
/// default options the path is the file path with the matcher's first match
/// replaced by the assembly extension; where that matcher is the one for
/// the source extension, it is the path that `with_assembly_extension`
/// describes.
pub fn output_path_with(matcher: Result<regex::Regex, regex::Error>, file_path: &String) -> (r:
    Option<String>)
    ensures
        matcher is Err ==> r is None,
        matcher is Ok ==> r is Some,
        matcher is Ok && default_options(matcher->Ok_0) ==> r->Some_0@ == first_replaced(
            pattern_of(matcher->Ok_0),
            file_path@,
            assembly_extension(),
        ),
        matcher is Ok && default_options(matcher->Ok_0) && pattern_of(matcher->Ok_0)
            == extension_pattern() ==> r->Some_0@ == with_assembly_extension(file_path@),
{
    match matcher {
        Ok(re) => Some(replace_first(&re, file_path.as_str(), ".asm")),
        Err(_) => None,
    }
}

/// The path of the assembly file for the source file at `file_path`: there
/// is one exactly when the `regex` crate accepts the pattern for the source
/// extension.
pub fn output_path(file_path: &String) -> (r: Option<String>)
    ensures
        compiles(extension_pattern()) ==> (r matches Some(p) && p@ == with_assembly_extension(
            file_path@,
        )),
        !compiles(extension_pattern()) ==> r is None,
{
    output_path_with(compile_pattern("\\.bf$"), file_path)
}

} // verus!
