//! Policy checks applied before anything is persisted: sensitive-content
//! patterns matched against textual captures, and excluded-application
//! patterns (exact string, `^exact$`, or `*`-wildcard) matched against
//! the focused application's name.

use vstd::prelude::*;

use crate::model::has_substring;
use crate::text::str_chars;

verus! {

/// Find `needle` within `hay`, byte by byte.
pub fn bytes_contain(hay: &[u8], needle: &[u8]) -> (r: bool)
    ensures
        r == has_substring(hay@, needle@),
{
    let n = needle.len();
    let hl = hay.len();
    if n == 0 {
        proof {
            assert(has_substring(hay@, needle@)) by {
                assert(hay@.subrange(0, 0 + needle@.len() as int) =~= needle@);
            }
        }
        return true;
    }
    if n > hl {
        proof {
            assert(!has_substring(hay@, needle@));
        }
        return false;
    }
    let mut i: usize = 0;
    while i <= hl - n
        invariant
            1 <= n == needle@.len() <= hay@.len() == hl,
            0 <= i <= hl - n + 1,
            forall|k: int|
                0 <= k < i ==> #[trigger] hay@.subrange(k, k + needle@.len()) != needle@,
        decreases hl - i,
    {
        let mut j: usize = 0;
        while j < n
            invariant_except_break
                1 <= n == needle@.len() <= hay@.len() == hl,
                0 <= i <= hl - n,
                0 <= j <= n,
                forall|k: int| 0 <= k < j ==> hay@[i + k] == needle@[k],
            ensures
                0 <= j <= n,
                j == n ==> forall|k: int| 0 <= k < j ==> hay@[i + k] == needle@[k],
                j < n ==> hay@.subrange(i as int, i + needle@.len()) != needle@,
            decreases n - j,
        {
            if hay[i + j] != needle[j] {
                proof {
                    let jj = j as int;
                    assert(hay@.subrange(i as int, i + needle@.len())[jj] != needle@[jj]);
                }
                break;
            }
            j = j + 1;
        }
        if j == n {
            proof {
                assert(hay@.subrange(i as int, i + needle@.len()) =~= needle@);
            }
            return true;
        }
        proof {
            assert(hay@.subrange(i as int, i + needle@.len()) != needle@);
        }
        i = i + 1;
    }
    proof {
        assert forall|k: int| 0 <= k && k + needle@.len() <= hay@.len() implies #[trigger] hay@
            .subrange(k, k + needle@.len()) != needle@ by {
            assert(k < hl - n + 1);
        }
    }
    false
}

/// Some configured pattern occurs within the capture.
pub open spec fn sensitive_match(data: Seq<u8>, pats: Seq<Seq<u8>>) -> bool {
    exists|i: int| 0 <= i < pats.len() && has_substring(data, #[trigger] pats[i])
}

/// Whether a sensitive-content pattern matches the capture.
pub fn any_sensitive(data: &[u8], pats: &Vec<Vec<u8>>) -> (r: bool)
    ensures
        r == sensitive_match(data@, pats.deep_view()),
{
    let mut i: usize = 0;
    while i < pats.len()
        invariant
            0 <= i <= pats@.len(),
            forall|k: int| 0 <= k < i ==> !has_substring(data@, #[trigger] pats.deep_view()[k]),
        decreases pats@.len() - i,
    {
        proof {
            assert(pats.deep_view()[i as int] =~= pats@[i as int]@);
        }
        if bytes_contain(data, pats[i].as_slice()) {
            proof {
                assert(has_substring(data@, pats.deep_view()[i as int]));
            }
            return true;
        }
        i = i + 1;
    }
    false
}

/// `*`-wildcard matching: a star matches any run of characters.
pub open spec fn glob_match(p: Seq<char>, s: Seq<char>) -> bool
    decreases p.len(), s.len(),
{
    if p.len() == 0 {
        s.len() == 0
    } else if p[0] == '*' {
        glob_match(p.skip(1), s) || (s.len() > 0 && glob_match(p, s.skip(1)))
    } else {
        s.len() > 0 && p[0] == s[0] && glob_match(p.skip(1), s.skip(1))
    }
}

/// An excluded-application pattern matches a name: `^exact$` anchors an
/// exact comparison; otherwise `*` acts as a wildcard (a pattern without
/// one is an exact string).
pub open spec fn pattern_matches(p: Seq<char>, s: Seq<char>) -> bool {
    if p.len() >= 2 && p[0] == '^' && p.last() == '$' {
        s == p.subrange(1, p.len() - 1)
    } else {
        glob_match(p, s)
    }
}

/// Some excluded-application pattern matches the name.
pub open spec fn app_excluded(name: Seq<char>, pats: Seq<Seq<char>>) -> bool {
    exists|i: int| 0 <= i < pats.len() && pattern_matches(#[trigger] pats[i], name)
}

fn glob_match_at(p: &Vec<char>, s: &Vec<char>, i: usize, j: usize) -> (r: bool)
    requires
        i <= p@.len(),
        j <= s@.len(),
    ensures
        r == glob_match(p@.skip(i as int), s@.skip(j as int)),
    decreases p@.len() - i, s@.len() - j,
{
    let ghost ps = p@.skip(i as int);
    let ghost ss = s@.skip(j as int);
    if i == p.len() {
        proof {
            assert(ps.len() == 0);
        }
        j == s.len()
    } else if p[i] == '*' {
        proof {
            assert(ps[0] == p@[i as int]);
            assert(ps.skip(1) =~= p@.skip(i + 1));
        }
        if glob_match_at(p, s, i + 1, j) {
            true
        } else if j < s.len() {
            proof {
                assert(ss.skip(1) =~= s@.skip(j + 1));
            }
            glob_match_at(p, s, i, j + 1)
        } else {
            false
        }
    } else {
        proof {
            assert(ps[0] == p@[i as int]);
            assert(ps.skip(1) =~= p@.skip(i + 1));
        }
        if j < s.len() && p[i] == s[j] {
            proof {
                assert(ss[0] == s@[j as int]);
                assert(ss.skip(1) =~= s@.skip(j + 1));
            }
            glob_match_at(p, s, i + 1, j + 1)
        } else {
            false
        }
    }
}

/// Whether one pattern matches the application name.
pub fn app_pattern_matches(pattern: &str, name: &str) -> (r: bool)
    ensures
        r == pattern_matches(pattern@, name@),
{
    let p = str_chars(pattern);
    let s = str_chars(name);
    if p.len() >= 2 && p[0] == '^' && p[p.len() - 1] == '$' {
        if p.len() - 2 != s.len() {
            proof {
                assert(pattern@.subrange(1, pattern@.len() - 1).len() != name@.len());
            }
            return false;
        }
        let mut k: usize = 0;
        while k < s.len()
            invariant
                p@.len() >= 2,
                p@ == pattern@,
                s@ == name@,
                p@[0] == '^' && p@[p@.len() - 1] == '$',
                p@.len() - 2 == s@.len(),
                0 <= k <= s@.len(),
                forall|t: int| 0 <= t < k ==> s@[t] == p@[t + 1],
            decreases s@.len() - k,
        {
            if p[k + 1] != s[k] {
                proof {
                    assert(pattern@.subrange(1, pattern@.len() - 1)[k as int] == p@[k + 1]);
                }
                return false;
            }
            k = k + 1;
        }
        proof {
            assert(name@ =~= pattern@.subrange(1, pattern@.len() - 1));
        }
        true
    } else {
        proof {
            assert(p@.skip(0) =~= pattern@);
            assert(s@.skip(0) =~= name@);
        }
        glob_match_at(&p, &s, 0, 0)
    }
}

/// A character a shell treats specially; command names carrying one are
/// rejected to keep injection out of watch-command execution.
pub open spec fn is_shell_meta(c: char) -> bool {
    c == '|' || c == '&' || c == ';' || c == '$' || c == '`' || c == '(' || c == ')' || c == '<'
        || c == '>' || c == '"' || c == '\'' || c == '\\'
}

/// A safe command name: non-empty, no shell metacharacters, no absolute
/// path, no parent-directory traversal.
pub open spec fn command_name_ok(s: Seq<char>) -> bool {
    &&& s.len() > 0
    &&& forall|i: int| 0 <= i < s.len() ==> !is_shell_meta(#[trigger] s[i])
    &&& s[0] != '/'
    &&& forall|i: int| 0 <= i < s.len() - 1 ==> !((#[trigger] s[i]) == '.' && s[i + 1] == '.')
}

/// Validate a command name before running it on clipboard changes.
pub fn validate_command_name(cmd: &str) -> (r: bool)
    ensures
        r == command_name_ok(cmd@),
{
    let v = str_chars(cmd);
    if v.len() == 0 {
        return false;
    }
    if v[0] == '/' {
        return false;
    }
    let mut i: usize = 0;
    while i < v.len()
        invariant
            0 <= i <= v@.len(),
            v@ == cmd@,
            forall|k: int| 0 <= k < i ==> !is_shell_meta(#[trigger] cmd@[k]),
            forall|k: int|
                0 <= k < i && k < v@.len() - 1 ==> !((#[trigger] cmd@[k]) == '.' && cmd@[k + 1]
                    == '.'),
        decreases v@.len() - i,
    {
        let c = v[i];
        if c == '|' || c == '&' || c == ';' || c == '$' || c == '`' || c == '(' || c == ')' || c
            == '<' || c == '>' || c == '"' || c == '\'' || c == '\\' {
            return false;
        }
        if i + 1 < v.len() && c == '.' && v[i + 1] == '.' {
            return false;
        }
        i = i + 1;
    }
    true
}

/// Whether the focused application is excluded by configuration.
pub fn is_app_excluded(name: &str, pats: &Vec<String>) -> (r: bool)
    ensures
        r == app_excluded(name@, pats.deep_view()),
{
    let mut i: usize = 0;
    while i < pats.len()
        invariant
            0 <= i <= pats@.len(),
            forall|k: int| 0 <= k < i ==> !pattern_matches(#[trigger] pats.deep_view()[k], name@),
        decreases pats@.len() - i,
    {
        if app_pattern_matches(pats[i].as_str(), name) {
            proof {
                assert(pattern_matches(pats.deep_view()[i as int], name@));
            }
            return true;
        }
        i = i + 1;
    }
    false
}

} // verus!
