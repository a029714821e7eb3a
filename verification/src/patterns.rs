//! The regular expressions that pick apart Angular sources, and the calls
//! into the regular-expression engines that run them.
use vstd::prelude::*;

verus! {

/// The route list of a routing module: `Routes = [ ... ];`.
pub const ROUTES: &'static str = r"(?m)Routes\s?=\s?(\[\s[^;]*);";

/// The `path:` entry of a route.
pub const PATH: &'static str = r#"(?m)path:\s['"`](.*?)['"`]"#;

/// The `component:` entry of a route.
pub const COMPONENT: &'static str = r"(?m)component:\s?(\w+)";

/// The module file named by a `loadChildren` entry of a route.
pub const LOAD: &'static str = r"(?mis)(?:\schildren.*#)|(\w+\.\w+)#";

/// The nested route list of a `children:` entry.
pub const CHILDREN: &'static str = r"(?ms)children: \[(.*?)^[[:blank:]]{8}]";

/// The `app-...` selectors used in a template.
pub const COMPONENTS: &'static str = r"(?m)<(app-(?:\w+-?)*)";

/// The `entryComponents: [...]` list of a module.
pub const ENTRY: &'static str = r"(?sm)entryComponents: \[\s*(.*)]";

/// Translation keys looked up in TypeScript code.
pub const TS: &'static str = r#"(?m)this\.translate\.instant\(['"`]([\w.${}]*)['"`]"#;

/// Translation keys looked up in a template.
pub const HTML: &'static str = r#"(?m)\{\{\s?['|"]([\w|\.]*)['|"]\s?\|\s?translate\s?}}"#;

/// The class name (group 1) or routes constant (group 2) a file declares.
pub const C_NAME: &'static str = r"(?m)export\sclass\s(.*?)[\s<]|const\s(.*):\s?Routes";

/// A block of balanced braces, nested blocks included. It needs recursion
/// (`(?R)`) and a possessive repeat, so it runs on the PCRE2 engine.
pub const BLOCK: &'static str = r"(?m)(\{[^}\{]*(?:(?R)[^}{]*)*+\})";

/// All matches of a regular expression, each as the list of its capture
/// groups (group 0 is the whole match; a group that did not take part is
/// `None`).
pub type Captures = Vec<Vec<Option<String>>>;

/// What `regex::Regex::new(pattern)` followed by `captures_iter(text)`
/// yields: `None` when the pattern is refused, else every successive
/// non-overlapping match with its groups.
pub uninterp spec fn regex_captures(pattern: Seq<char>, text: Seq<char>) -> Option<Seq<Seq<Option<Seq<char>>>>>;

/// What `regex::RegexSet::new(patterns)` followed by `matches(text)` yields:
/// `None` when a pattern is refused, else the indices of the patterns that
/// match somewhere in `text`.
pub uninterp spec fn regex_set_matches(patterns: Seq<Seq<char>>, text: Seq<char>) -> Option<Seq<usize>>;

/// What `pcre2::bytes::Regex::new(pattern)` followed by
/// `captures_iter(text)` yields, up to the first match error: `None` when
/// the pattern is refused, else the successive matches with their groups.
pub uninterp spec fn pcre_captures(pattern: Seq<char>, text: Seq<char>) -> Option<Seq<Seq<Option<Seq<char>>>>>;

/// Runs `regex::Regex::captures_iter` of `pattern` on `text`. The result is
/// named by `regex_captures`; as the crate documents, every match has group
/// 0 (the whole match) and as many groups as the pattern has.
#[verifier::external_body]
pub fn regex_captures_of(pattern: &str, text: &str) -> (r: Option<Captures>)
    ensures
        r.deep_view() == regex_captures(pattern@, text@),
        r matches Some(caps) ==> forall|i: int| 0 <= i < caps.len() ==> caps[i].len() >= 1 && caps[i][0] is Some,
        r matches Some(caps) ==> forall|i: int, j: int|
            0 <= i < caps.len() && 0 <= j < caps.len() ==> caps[i].len() == caps[j].len(),
{
    let re = regex::Regex::new(pattern).ok()?;
    let mut all: Captures = Vec::new();
    for caps in re.captures_iter(text) {
        let mut groups: Vec<Option<String>> = Vec::new();
        for i in 0..caps.len() {
            groups.push(caps.get(i).map(|m| m.as_str().to_string()));
        }
        all.push(groups);
    }
    Some(all)
}

/// Runs `regex::RegexSet::matches` of `patterns` on `text`. The result is
/// named by `regex_set_matches`; as the crate documents, the indices come in
/// ascending order and each names one of the patterns.
#[verifier::external_body]
pub fn regex_set_matches_of(patterns: &Vec<&str>, text: &str) -> (r: Option<Vec<usize>>)
    ensures
        r.deep_view() == regex_set_matches(patterns.deep_view(), text@),
        r matches Some(v) ==> forall|i: int, j: int| 0 <= i < j < v.len() ==> v[i] < v[j],
        r matches Some(v) ==> forall|i: int| 0 <= i < v.len() ==> v[i] < patterns.len(),
{
    let set = regex::RegexSet::new(patterns).ok()?;
    Some(set.matches(text).into_iter().collect())
}

/// Runs `pcre2::bytes::Regex::captures_iter` of `pattern` on the bytes of
/// `text`, stopping at the first match error. The result is named by
/// `pcre_captures`; as the crate documents, every match has group 0 (the
/// whole match) and as many groups as the pattern has.
#[verifier::external_body]
pub fn pcre_captures_of(pattern: &str, text: &str) -> (r: Option<Captures>)
    ensures
        r.deep_view() == pcre_captures(pattern@, text@),
        r matches Some(caps) ==> forall|i: int| 0 <= i < caps.len() ==> caps[i].len() >= 1 && caps[i][0] is Some,
        r matches Some(caps) ==> forall|i: int, j: int|
            0 <= i < caps.len() && 0 <= j < caps.len() ==> caps[i].len() == caps[j].len(),
{
    let re = pcre2::bytes::Regex::new(pattern).ok()?;
    let mut all: Captures = Vec::new();
    for found in re.captures_iter(text.as_bytes()) {
        let caps = match found {
            Ok(caps) => caps,
            Err(_) => break,
        };
        let mut groups: Vec<Option<String>> = Vec::new();
        for i in 0..caps.len() {
            groups.push(caps.get(i).map(|m| String::from_utf8_lossy(m.as_bytes()).into_owned()));
        }
        all.push(groups);
    }
    Some(all)
}

} // verus!
