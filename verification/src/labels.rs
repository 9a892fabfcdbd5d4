//! Normalization of build-system labels into repository-relative paths.
//!
//! A source-file label either references an external repository (it begins
//! with the remote marker `@`), or it is a local label of the form
//! `//<package-path>:<file-name>`.  A local label resolves to the path
//! `<package-path>/<file-name>`; anything else is malformed and is rejected
//! loudly rather than guessed at.

use vstd::prelude::*;

verus! {

use crate::errors::ScoreError;

/// What a source-file label denotes once parsed.
pub ghost enum LabelForm {
    /// References an external repository; change history is never consulted.
    External,
    /// Resolves to this repository-relative file path.
    Local(Seq<char>),
    /// Cannot be parsed into the expected `//<package>:<file>` form.
    Malformed,
}

/// Index of the first `:` at or after position `from`, or -1 if there is none.
pub open spec fn first_colon_from(s: Seq<char>, from: int) -> int
    decreases s.len() - from,
{
    if from < 0 || from >= s.len() {
        -1
    } else if s[from] == ':' {
        from
    } else {
        first_colon_from(s, from + 1)
    }
}

/// A local label starts with the 2-character local-repository prefix `//`
/// and carries a `:` separator after it.
pub open spec fn is_local_label(s: Seq<char>) -> bool {
    &&& s.len() >= 2
    &&& s[0] == '/'
    &&& s[1] == '/'
    &&& first_colon_from(s, 2) >= 0
}

/// The resolved repository-relative path of a local label: the package path
/// without its `//` prefix, a `/`, and the file name.
pub open spec fn local_path(s: Seq<char>) -> Seq<char> {
    let k = first_colon_from(s, 2);
    s.subrange(2, k) + seq!['/'] + s.subrange(k + 1, s.len() as int)
}

/// Classifies a source-file label.
pub open spec fn label_form(s: Seq<char>) -> LabelForm {
    if s.len() > 0 && s[0] == '@' {
        LabelForm::External
    } else if is_local_label(s) {
        LabelForm::Local(local_path(s))
    } else {
        LabelForm::Malformed
    }
}

/// Decides whether `label` is local, external, or malformed; for a local
/// label produces the repository-relative path.
pub fn resolve_source_file(label: &String) -> (r: Result<Option<String>, ScoreError>)
    ensures
        match r {
            Ok(opt) => match opt {
                Option::None => label_form(label@) is External,
                Option::Some(p) => label_form(label@) matches LabelForm::Local(q) && p@ == q,
            },
            Err(e) => {
                &&& label_form(label@) is Malformed
                &&& e matches ScoreError::MalformedLabel(m) && m@ == label@
            },
        },
{
    let s: &str = label.as_str();
    let n = s.unicode_len();
    if n > 0 && s.get_char(0) == '@' {
        return Ok(None);
    }
    if n < 2 || s.get_char(0) != '/' || s.get_char(1) != '/' {
        return Err(ScoreError::MalformedLabel(label.clone()));
    }
    let mut i: usize = 2;
    while i < n && s.get_char(i) != ':'
        invariant
            2 <= i <= n,
            n == s@.len(),
            s@ == label@,
            n >= 2 && s@[0] == '/' && s@[1] == '/',
            !(n > 0 && s@[0] == '@'),
            first_colon_from(s@, 2) == first_colon_from(s@, i as int),
        decreases n - i,
    {
        i = i + 1;
    }
    if i == n {
        proof {
            assert(first_colon_from(s@, n as int) == -1);
        }
        return Err(ScoreError::MalformedLabel(label.clone()));
    }
    proof {
        assert(first_colon_from(s@, i as int) == i);
    }
    let package = s.substring_char(2, i);
    let file = s.substring_char(i + 1, n);
    let path = String::from_str(package).concat("/").concat(file);
    proof {
        reveal_strlit("/");
        assert(("/")@ =~= seq!['/']);
        assert(path@ =~= local_path(label@));
    }
    Ok(Some(path))
}

/// `p` is a prefix of `s`.
pub open spec fn is_prefix_of(p: Seq<char>, s: Seq<char>) -> bool {
    p.len() <= s.len() && forall|i: int| 0 <= i < p.len() ==> s[i] == p[i]
}

/// Whether `s` names a set of roots: a trailing `...` marker after a
/// non-empty path prefix.
pub open spec fn is_wildcard(s: Seq<char>) -> bool {
    &&& s.len() >= 4
    &&& s[s.len() - 3] == '.'
    &&& s[s.len() - 2] == '.'
    &&& s[s.len() - 1] == '.'
}

/// The prefix that a wildcard matches: everything before the final four
/// characters (the marker and the separator character before it).
pub open spec fn wildcard_prefix(s: Seq<char>) -> Seq<char> {
    s.subrange(0, s.len() - 4)
}

/// Detects the wildcard marker and, when present, returns the match prefix.
pub fn parse_wildcard(target: &String) -> (r: Option<String>)
    ensures
        match r {
            Option::Some(p) => is_wildcard(target@) && p@ == wildcard_prefix(target@),
            Option::None => !is_wildcard(target@),
        },
{
    let s: &str = target.as_str();
    let n = s.unicode_len();
    if n >= 4 && s.get_char(n - 3) == '.' && s.get_char(n - 2) == '.' && s.get_char(n - 1) == '.' {
        let p = s.substring_char(0, n - 4);
        Some(String::from_str(p))
    } else {
        None
    }
}

/// `s` starts with the prefix `p`.
pub fn str_starts_with(s: &String, p: &String) -> (r: bool)
    ensures
        r == is_prefix_of(p@, s@),
{
    let ss: &str = s.as_str();
    let ps: &str = p.as_str();
    let n = ss.unicode_len();
    let m = ps.unicode_len();
    if m > n {
        return false;
    }
    let mut i: usize = 0;
    while i < m
        invariant
            0 <= i <= m <= n,
            n == ss@.len(),
            m == ps@.len(),
            ss@ == s@,
            ps@ == p@,
            forall|j: int| 0 <= j < i ==> ss@[j] == ps@[j],
        decreases m - i,
    {
        if ss.get_char(i) != ps.get_char(i) {
            return false;
        }
        i = i + 1;
    }
    true
}

} // verus!
