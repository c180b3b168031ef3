//! Exclusion patterns: globs and regular expressions matched against single
//! path components.
use vstd::prelude::*;
use regex::Regex;

verus! {

/// The separator between path components.
pub const SEPARATOR: char = '/';

#[verifier::external_type_specification]
#[verifier::external_body]
pub struct ExRegex(Regex);

/// Whether the regex engine accepts `pattern` as a regular expression.
pub uninterp spec fn regex_accepts(pattern: Seq<char>) -> bool;

/// Whether the regular expression `pattern` matches somewhere inside `text`.
pub uninterp spec fn regex_finds(pattern: Seq<char>, text: Seq<char>) -> bool;

/// Relies on regex's `Regex::new`: it compiles `pattern` or refuses it, which
/// depends on the pattern alone.
#[verifier::external_body]
fn compile_regex(pattern: &str) -> (r: Option<Regex>)
    ensures
        (r is Some) <==> regex_accepts(pattern@),
{
    Regex::new(pattern).ok()
}

/// A compiled exclusion pattern. Its view is the regular expression it was
/// compiled from.
pub struct ExclusionPattern {
    source: String,
    regex: Regex,
}

impl View for ExclusionPattern {
    type V = Seq<char>;

    closed spec fn view(&self) -> Seq<char> {
        self.source@
    }
}

/// Relies on regex's `Regex::is_match`: whether the expression, compiled from
/// the pattern's source, matches anywhere in `text` (unanchored search).
#[verifier::external_body]
fn regex_is_match(pattern: &ExclusionPattern, text: &str) -> (r: bool)
    ensures
        r == regex_finds(pattern@, text@),
{
    pattern.regex.is_match(text)
}

/// The regular expression for a user pattern: every `*` becomes `.*`, every
/// other character stays as it is.
pub open spec fn glob_to_regex_text(p: Seq<char>) -> Seq<char>
    decreases p.len(),
{
    if p.len() == 0 {
        Seq::empty()
    } else if p.last() == '*' {
        glob_to_regex_text(p.drop_last()) + seq!['.', '*']
    } else {
        glob_to_regex_text(p.drop_last()).push(p.last())
    }
}

/// Turns a user pattern into a regular expression.
pub fn glob_to_regex(pattern: &str) -> (r: String)
    ensures
        r@ == glob_to_regex_text(pattern@),
{
    let n = pattern.unicode_len();
    let mut out = String::new();
    let mut i: usize = 0;
    proof { reveal_strlit(".*"); }
    while i < n
        invariant
            n == pattern@.len(),
            i <= n,
            out@ == glob_to_regex_text(pattern@.subrange(0, i as int)),
        decreases n - i,
    {
        let c = pattern.get_char(i);
        let ghost s = pattern@.subrange(0, i + 1);
        assert(s.drop_last() == pattern@.subrange(0, i as int));
        assert(s.last() == c);
        if c == '*' {
            out.append(".*");
            proof { reveal_strlit(".*"); }
            assert(".*"@ =~= seq!['.', '*']);
            assert(out@ == glob_to_regex_text(s));
        } else {
            out.append(pattern.substring_char(i, i + 1));
            assert(pattern@.subrange(i as int, i + 1) =~= seq![c]);
            assert(out@ =~= glob_to_regex_text(s));
        }
        i = i + 1;
    }
    assert(pattern@.subrange(0, n as int) == pattern@);
    out
}

/// The views of a sequence of strings.
pub open spec fn texts(v: Seq<String>) -> Seq<Seq<char>> {
    v.map_values(|s: String| s@)
}

/// The views of a sequence of compiled patterns.
pub open spec fn pattern_texts(v: Seq<ExclusionPattern>) -> Seq<Seq<char>> {
    v.map_values(|p: ExclusionPattern| p@)
}

/// A pattern that could not be compiled.
pub struct PatternError {
    pub pattern: String,
}

/// `k` is the first of `patterns` whose regular expression the regex engine refuses.
pub open spec fn first_rejected(patterns: Seq<Seq<char>>, k: int) -> bool {
    &&& 0 <= k < patterns.len()
    &&& !regex_accepts(glob_to_regex_text(patterns[k]))
    &&& forall|j: int| 0 <= j < k ==> regex_accepts(glob_to_regex_text(#[trigger] patterns[j]))
}

/// Compiles one user pattern.
pub fn compile_pattern(pattern: &str) -> (r: Option<ExclusionPattern>)
    ensures
        (r is Some) <==> regex_accepts(glob_to_regex_text(pattern@)),
        r matches Some(p) ==> p@ == glob_to_regex_text(pattern@),
{
    let source = glob_to_regex(pattern);
    match compile_regex(source.as_str()) {
        Some(regex) => Some(ExclusionPattern { source, regex }),
        None => None,
    }
}

/// Compiles all user patterns, failing on the first one that is refused.
pub fn compile_patterns(patterns: &Vec<String>) -> (r: Result<Vec<ExclusionPattern>, PatternError>)
    ensures
        r is Ok <==> forall|j: int| 0 <= j < patterns@.len()
            ==> regex_accepts(glob_to_regex_text(#[trigger] texts(patterns@)[j])),
        r matches Ok(v) ==> pattern_texts(v@) == texts(patterns@).map_values(
            |p: Seq<char>| glob_to_regex_text(p),
        ),
        r matches Err(e) ==> exists|k: int| first_rejected(texts(patterns@), k)
            && e.pattern@ == patterns@[k]@,
{
    let mut out: Vec<ExclusionPattern> = Vec::new();
    let mut i: usize = 0;
    while i < patterns.len()
        invariant
            i <= patterns@.len(),
            out@.len() == i,
            forall|j: int| 0 <= j < i ==> regex_accepts(glob_to_regex_text(#[trigger] texts(patterns@)[j])),
            forall|j: int| 0 <= j < i ==> (#[trigger] out@[j])@ == glob_to_regex_text(patterns@[j]@),
        decreases patterns@.len() - i,
    {
        match compile_pattern(patterns[i].as_str()) {
            Some(p) => {
                out.push(p);
            },
            None => {
                let e = PatternError { pattern: patterns[i].clone() };
                assert(first_rejected(texts(patterns@), i as int));
                return Err(e);
            },
        }
        i = i + 1;
    }
    assert(pattern_texts(out@) =~= texts(patterns@).map_values(|p: Seq<char>| glob_to_regex_text(p)));
    Ok(out)
}

/// Some pattern matches inside the component `c`.
pub open spec fn component_excluded(c: Seq<char>, patterns: Seq<Seq<char>>) -> bool {
    exists|j: int| 0 <= j < patterns.len() && regex_finds(#[trigger] patterns[j], c)
}

/// Some component of the path matches some pattern.
pub open spec fn path_excluded(components: Seq<Seq<char>>, patterns: Seq<Seq<char>>) -> bool {
    exists|i: int| 0 <= i < components.len() && component_excluded(#[trigger] components[i], patterns)
}

/// The components of a path written as text, split at every separator.
pub open spec fn split_path(s: Seq<char>) -> Seq<Seq<char>>
    decreases s.len(),
{
    if s.len() == 0 {
        seq![Seq::empty()]
    } else {
        let prev = split_path(s.drop_last());
        if s.last() == SEPARATOR {
            prev.push(Seq::empty())
        } else {
            prev.update(prev.len() - 1, prev.last().push(s.last()))
        }
    }
}

proof fn lemma_split_path_nonempty(s: Seq<char>)
    ensures
        split_path(s).len() >= 1,
    decreases s.len(),
{
    if s.len() > 0 {
        lemma_split_path_nonempty(s.drop_last());
    }
}

/// Splits a path written as text into its components.
pub fn split_components(path: &str) -> (r: Vec<String>)
    ensures
        texts(r@) == split_path(path@),
{
    let n = path.unicode_len();
    let mut out: Vec<String> = Vec::new();
    let mut start: usize = 0;
    let mut i: usize = 0;
    assert(texts(out@) =~= Seq::<Seq<char>>::empty());
    assert(path@.subrange(0, 0) =~= Seq::<char>::empty());
    assert(texts(out@).push(path@.subrange(0, 0)) =~= split_path(path@.subrange(0, 0)));
    while i < n
        invariant
            n == path@.len(),
            start <= i <= n,
            texts(out@).push(path@.subrange(start as int, i as int)) == split_path(path@.subrange(0, i as int)),
        decreases n - i,
    {
        let c = path.get_char(i);
        let ghost s = path@.subrange(0, i + 1);
        assert(s.drop_last() == path@.subrange(0, i as int));
        assert(s.last() == c);
        if c == SEPARATOR {
            let ghost before = out@;
            out.push(String::from_str(path.substring_char(start, i)));
            assert(texts(out@) =~= texts(before).push(path@.subrange(start as int, i as int)));
            start = i + 1;
            assert(path@.subrange(start as int, i + 1) =~= Seq::<char>::empty());
            assert(texts(out@).push(path@.subrange(start as int, i + 1)) =~= split_path(s));
        } else {
            assert(path@.subrange(start as int, i + 1) =~= path@.subrange(start as int, i as int).push(c));
            assert(texts(out@).push(path@.subrange(start as int, i + 1)) =~= split_path(s));
        }
        i = i + 1;
    }
    out.push(String::from_str(path.substring_char(start, n)));
    assert(path@.subrange(0, n as int) == path@);
    assert(texts(out@) =~= split_path(path@));
    out
}

/// Whether some pattern matches inside the component `c`.
pub fn is_component_excluded(c: &str, patterns: &Vec<ExclusionPattern>) -> (r: bool)
    ensures
        r == component_excluded(c@, pattern_texts(patterns@)),
{
    let mut j: usize = 0;
    while j < patterns.len()
        invariant
            j <= patterns@.len(),
            forall|k: int| 0 <= k < j ==> !regex_finds(#[trigger] pattern_texts(patterns@)[k], c@),
        decreases patterns@.len() - j,
    {
        if regex_is_match(&patterns[j], c) {
            assert(regex_finds(pattern_texts(patterns@)[j as int], c@));
            return true;
        }
        j = j + 1;
    }
    false
}

/// Whether some component of `components` is matched by some pattern.
pub fn are_components_excluded(components: &Vec<String>, patterns: &Vec<ExclusionPattern>) -> (r: bool)
    ensures
        r == path_excluded(texts(components@), pattern_texts(patterns@)),
{
    let mut i: usize = 0;
    while i < components.len()
        invariant
            i <= components@.len(),
            forall|k: int| 0 <= k < i ==> !component_excluded(#[trigger] texts(components@)[k], pattern_texts(patterns@)),
        decreases components@.len() - i,
    {
        if is_component_excluded(components[i].as_str(), patterns) {
            assert(component_excluded(texts(components@)[i as int], pattern_texts(patterns@)));
            return true;
        }
        i = i + 1;
    }
    false
}

/// Whether some component of the path, split at the separator, is matched by
/// some pattern.
pub fn is_excluded(path: &str, patterns: &Vec<ExclusionPattern>) -> (r: bool)
    ensures
        r == path_excluded(split_path(path@), pattern_texts(patterns@)),
{
    let components = split_components(path);
    are_components_excluded(&components, patterns)
}

} // verus!
