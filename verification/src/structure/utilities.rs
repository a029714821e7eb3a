//! Small text helpers of the structure: file-name extensions, first capture
//! groups and selector names.
use vstd::prelude::*;
use vstd::string::StringExecFns;
use crate::patterns::{regex_captures, regex_captures_of, Captures};
use crate::strings::{
    join_strings, join_with, lemma_join_split, lemma_split_nonempty, split_on, split_on_char,
    uppercase_char, uppercase_of,
};

verus! {

broadcast use vstd::string::group_string_axioms;

/// `file_name` with the text after its last `.` replaced by `replace`; a
/// name without a `.` is replaced as a whole.
pub open spec fn replace_extension_spec(file_name: Seq<char>, replace: Seq<char>) -> Seq<char> {
    join_with(split_on(file_name, '.').drop_last().push(replace), seq!['.'])
}

/// Group 1 of the first match, when there is a match and that group took
/// part in it.
pub open spec fn first_group(caps: Seq<Seq<Option<Seq<char>>>>) -> Option<Seq<char>> {
    if caps.len() > 0 && caps[0].len() > 1 {
        caps[0][1]
    } else {
        None
    }
}

/// Group 1 of the first match of `pattern` in `text` (`None` also when the
/// pattern is refused).
pub open spec fn first_capture(pattern: Seq<char>, text: Seq<char>) -> Option<Seq<char>> {
    match regex_captures(pattern, text) {
        Some(caps) => first_group(caps),
        None => None,
    }
}

/// A word with its first character in upper case.
pub open spec fn upper_first(s: Seq<char>) -> Seq<char> {
    if s.len() == 0 {
        s
    } else {
        uppercase_of(s[0]) + s.drop_first()
    }
}

/// The text `Component`.
pub open spec fn component_suffix() -> Seq<char> {
    seq!['C', 'o', 'm', 'p', 'o', 'n', 'e', 'n', 't']
}

/// The class name of a component selector: the words after the prefix
/// (`app-foo-bar` gives `foo`, `bar`), each capitalised, then `Component`.
pub open spec fn component_name_of(selector: Seq<char>) -> Seq<char> {
    join_with(split_on(selector, '-').drop_first().map_values(|w: Seq<char>| upper_first(w)), Seq::<char>::empty())
        + component_suffix()
}

/// Replaces the extension of a file name: the text after the last `.`.
pub fn replace_extension(file_name: &String, replace: &str) -> (r: String)
    ensures
        r@ == replace_extension_spec(file_name@, replace@),
{
    let mut parts = split_on_char(file_name.as_str(), '.');
    proof {
        lemma_split_nonempty(file_name@, '.');
    }
    let ghost whole = parts.deep_view();
    parts.pop();
    assert(parts.deep_view() =~= whole.drop_last());
    parts.push(String::from_str(replace));
    proof {
        reveal_strlit(".");
        assert(".".view() =~= seq!['.']);
    }
    let r = join_strings(&parts, ".");
    assert(parts.deep_view() =~= split_on(file_name@, '.').drop_last().push(replace@));
    r
}

/// Group 1 of the first capture, if that group took part in it.
pub fn capture_group(captures: &Captures) -> (r: Option<String>)
    ensures
        r.deep_view() == first_group(captures.deep_view()),
{
    if captures.len() > 0 && captures[0].len() > 1 {
        match &captures[0][1] {
            Some(g) => Some(g.clone()),
            None => None,
        }
    } else {
        None
    }
}

/// Group 1 of the first match of `pattern` in `text`.
pub fn capture_first(pattern: &str, text: &str) -> (r: Option<String>)
    ensures
        r.deep_view() == first_capture(pattern@, text@),
{
    match regex_captures_of(pattern, text) {
        Some(caps) => capture_group(&caps),
        None => None,
    }
}

/// Makes the first character of `s` upper case.
pub fn uppercase_first_letter(s: &str) -> (r: String)
    ensures
        r@ == upper_first(s@),
{
    let cs = crate::strings::chars_of(s);
    if cs.len() == 0 {
        String::new()
    } else {
        let mut r = uppercase_char(cs[0]);
        let rest = crate::strings::string_of(&cs, 1, cs.len());
        r.append(rest.as_str());
        assert(cs@.subrange(1, cs@.len() as int) =~= s@.drop_first());
        r
    }
}

/// Turns a selector such as `app-user-list` into its class name
/// `UserListComponent`.
pub fn selector_to_component_name(name: &str) -> (r: String)
    ensures
        r@ == component_name_of(name@),
{
    let mut words = split_on_char(name, '-');
    proof {
        lemma_split_nonempty(name@, '-');
    }
    words.remove(0);
    let ghost ws = words.deep_view();
    assert(ws =~= split_on(name@, '-').drop_first());
    let mut r = String::new();
    let mut i: usize = 0;
    while i < words.len()
        invariant
            i <= words.len(),
            ws == words.deep_view(),
            r@ == join_with(ws.take(i as int).map_values(|w: Seq<char>| upper_first(w)), Seq::<char>::empty()),
        decreases words.len() - i,
    {
        let up = uppercase_first_letter(words[i].as_str());
        let ghost before = ws.take(i as int).map_values(|w: Seq<char>| upper_first(w));
        let ghost after = ws.take(i + 1).map_values(|w: Seq<char>| upper_first(w));
        assert(after.drop_last() =~= before);
        r.append(up.as_str());
        if i == 0 {
            assert(r@ =~= after[0]);
        } else {
            assert(r@ =~= join_with(before, Seq::<char>::empty()) + Seq::<char>::empty() + after.last());
        }
        i = i + 1;
    }
    assert(ws.take(words.len() as int) =~= ws);
    proof {
        reveal_strlit("Component");
    }
    r.append("Component");
    assert("Component"@ =~= component_suffix());
    r
}

// ---------------------------------------------------------------------------
// Laws
// ---------------------------------------------------------------------------

proof fn lemma_split_append_piece(a: Seq<char>, b: Seq<char>, sep: char)
    requires
        !b.contains(sep),
    ensures
        split_on(a + seq![sep] + b, sep) == split_on(a, sep).push(b),
    decreases b.len(),
{
    if b.len() == 0 {
        assert(a + seq![sep] + b =~= a.push(sep));
        assert((a + seq![sep] + b).drop_last() =~= a);
        assert(b =~= Seq::<char>::empty());
    } else {
        let b0 = b.drop_last();
        assert(!b0.contains(sep)) by {
            if b0.contains(sep) {
                let k = choose|k: int| 0 <= k < b0.len() && b0[k] == sep;
                assert(b[k] == sep);
            }
        }
        assert(b.last() != sep) by {
            assert(b[b.len() - 1] == b.last());
        }
        lemma_split_append_piece(a, b0, sep);
        assert((a + seq![sep] + b).drop_last() =~= a + seq![sep] + b0);
        let p = split_on(a, sep).push(b0);
        assert(b0.push(b.last()) =~= b);
        assert(p.update(p.len() - 1, p.last().push(b.last())) =~= split_on(a, sep).push(b));
        assert(b0.push(b.last()) =~= b);
    }
}

proof fn lemma_split_without_sep(s: Seq<char>, sep: char)
    requires
        !s.contains(sep),
    ensures
        split_on(s, sep) == seq![s],
    decreases s.len(),
{
    if s.len() == 0 {
        assert(s =~= Seq::<char>::empty());
        assert(split_on(s, sep) =~= seq![s]);
    } else {
        let s0 = s.drop_last();
        assert(!s0.contains(sep)) by {
            if s0.contains(sep) {
                let k = choose|k: int| 0 <= k < s0.len() && s0[k] == sep;
                assert(s[k] == sep);
            }
        }
        assert(s.last() != sep) by {
            assert(s[s.len() - 1] == s.last());
        }
        lemma_split_without_sep(s0, sep);
        assert(s0.push(s.last()) =~= s);
        let r = split_on(s0, sep);
        assert(split_on(s, sep) == r.update(0, r[0].push(s.last())));
        assert(r[0] == s0);
        assert(r.update(0, s) =~= seq![s]);
    }
}

/// Replacing the extension keeps everything up to and including the last
/// `.` and puts `replace` after it.
pub proof fn lemma_replace_extension_after_last_dot(stem: Seq<char>, ext: Seq<char>, replace: Seq<char>)
    requires
        !ext.contains('.'),
    ensures
        replace_extension_spec(stem + seq!['.'] + ext, replace) == stem + seq!['.'] + replace,
{
    lemma_split_append_piece(stem, ext, '.');
    lemma_split_nonempty(stem, '.');
    lemma_join_split(stem, '.');
    let parts = split_on(stem, '.').push(ext);
    let q = parts.drop_last().push(replace);
    assert(parts.drop_last() =~= split_on(stem, '.'));
    assert(q.drop_last() =~= split_on(stem, '.'));
}

/// A file name without a `.` is replaced as a whole.
pub proof fn lemma_replace_extension_without_dot(file_name: Seq<char>, replace: Seq<char>)
    requires
        !file_name.contains('.'),
    ensures
        replace_extension_spec(file_name, replace) == replace,
{
    lemma_split_without_sep(file_name, '.');
    assert(split_on(file_name, '.').drop_last().push(replace) =~= seq![replace]);
}

/// Every class name derived from a selector ends in `Component`.
pub proof fn lemma_component_name_suffix(selector: Seq<char>)
    ensures
        component_name_of(selector).len() >= 9,
        component_name_of(selector).subrange(
            component_name_of(selector).len() - 9,
            component_name_of(selector).len() as int,
        ) == component_suffix(),
{
    let n = component_name_of(selector);
    let head = join_with(split_on(selector, '-').drop_first().map_values(|w: Seq<char>| upper_first(w)), Seq::<char>::empty());
    assert(n.subrange(head.len() as int, n.len() as int) =~= component_suffix());
}

} // verus!
