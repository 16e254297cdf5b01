//! The command-line shapes of the build tool's processes and the parsing of
//! a job tag `[category/package-version]`.
use vstd::prelude::*;
use vstd::slice::slice_subrange;
use crate::text::{char_views, chars_of, ends_with, has_suffix, same_chars, split_words, string_of, words};

verus! {

/// The phase-runner script's file name, `ebuild.sh`.
pub open spec fn runner_script() -> Seq<char> {
    seq!['e', 'b', 'u', 'i', 'l', 'd', '.', 's', 'h']
}

/// The sandbox marker token, `sandbox`.
pub open spec fn sandbox_marker() -> Seq<char> {
    seq!['s', 'a', 'n', 'd', 'b', 'o', 'x']
}

/// The path suffix of the build tool's executable, `/emerge`.
pub open spec fn tool_suffix() -> Seq<char> {
    seq!['/', 'e', 'm', 'e', 'r', 'g', 'e']
}

/// A phase-runner worker: exactly three arguments, the second a path to the
/// phase-runner script.
pub open spec fn is_worker_args(args: Seq<Seq<char>>) -> bool {
    args.len() == 3 && has_suffix(args[1], runner_script())
}

/// The words of a job-defining process:
/// `[category/package-version] sandbox <path>/ebuild.sh <phase>`.
pub open spec fn is_job_words(w: Seq<Seq<char>>) -> bool {
    &&& w.len() == 4
    &&& w[0].len() > 0
    &&& w[0][0] == '['
    &&& w[0].last() == ']'
    &&& w[1] == sandbox_marker()
    &&& has_suffix(w[2], runner_script())
}

/// The words of a top-level build-tool invocation: at least two, the second a
/// path ending in `/emerge`.
pub open spec fn is_invocation_words(w: Seq<Seq<char>>) -> bool {
    w.len() >= 2 && has_suffix(w[1], tool_suffix())
}

pub open spec fn is_bracket(c: char) -> bool {
    c == '[' || c == ']'
}

pub open spec fn is_digit(c: char) -> bool {
    '0' <= c <= '9'
}

/// `s` without its leading brackets.
pub open spec fn strip_front_brackets(s: Seq<char>) -> Seq<char>
    decreases s.len(),
{
    if s.len() > 0 && is_bracket(s[0]) {
        strip_front_brackets(s.drop_first())
    } else {
        s
    }
}

/// `s` without its trailing brackets.
pub open spec fn strip_back_brackets(s: Seq<char>) -> Seq<char>
    decreases s.len(),
{
    if s.len() > 0 && is_bracket(s.last()) {
        strip_back_brackets(s.drop_last())
    } else {
        s
    }
}

/// `s` without its leading dashes.
pub open spec fn strip_front_dashes(s: Seq<char>) -> Seq<char>
    decreases s.len(),
{
    if s.len() > 0 && s[0] == '-' {
        strip_front_dashes(s.drop_first())
    } else {
        s
    }
}

/// The content of a tag: brackets removed from both ends.
pub open spec fn tag_body(s: Seq<char>) -> Seq<char> {
    strip_back_brackets(strip_front_brackets(s))
}

/// `k` is the first position of `c` in `t`.
pub open spec fn is_first_of(t: Seq<char>, c: char, k: int) -> bool {
    0 <= k < t.len() && t[k] == c && forall|j: int| 0 <= j < k ==> t[j] != c
}

/// A `-`-separated component of `pv` begins at `k` with a decimal digit.
pub open spec fn version_starts_at(pv: Seq<char>, k: int) -> bool {
    0 <= k < pv.len() && is_digit(pv[k]) && (k == 0 || pv[k - 1] == '-')
}

/// `k` is the first position at which a version component begins.
pub open spec fn is_version_start(pv: Seq<char>, k: int) -> bool {
    version_starts_at(pv, k) && forall|j: int| 0 <= j < k ==> !version_starts_at(pv, j)
}

/// Splits `package-version` at its first component that begins with a digit.
/// The version is that component and everything after it; the package is
/// what comes before the separating `-`, where empty leading components
/// contribute nothing. Without such a component all of it is the package.
pub open spec fn split_package_version(pv: Seq<char>) -> (Seq<char>, Seq<char>) {
    if exists|k: int| is_version_start(pv, k) {
        let k = choose|k: int| is_version_start(pv, k);
        if k == 0 {
            (seq![], pv)
        } else {
            (strip_front_dashes(pv.take(k - 1)), pv.skip(k))
        }
    } else {
        (strip_front_dashes(pv), seq![])
    }
}

/// The category, package and version named by a tag such as
/// `[sys-kernel/cachyos-kernel-6.15.1]`; none where its content holds no `/`.
pub open spec fn parse_tag(s: Seq<char>) -> Option<(Seq<char>, Seq<char>, Seq<char>)> {
    let t = tag_body(s);
    if exists|k: int| is_first_of(t, '/', k) {
        let k = choose|k: int| is_first_of(t, '/', k);
        let (p, v) = split_package_version(t.skip(k + 1));
        Some((t.take(k), p, v))
    } else {
        None
    }
}

/// Category, package, version and phase named by the command line of a
/// job-defining process; none where the line has another shape or its tag
/// holds no `/`.
pub open spec fn parse_job_line(s: Seq<char>) -> Option<(Seq<char>, Seq<char>, Seq<char>, Seq<char>)> {
    let w = words(s);
    if is_job_words(w) {
        match parse_tag(w[0]) {
            Some((c, p, v)) => Some((c, p, v, w[3])),
            None => None,
        }
    } else {
        None
    }
}

proof fn lemma_strip_front_brackets(s: Seq<char>, i: int)
    requires
        0 <= i <= s.len(),
        forall|j: int| 0 <= j < i ==> is_bracket(s[j]),
    ensures
        strip_front_brackets(s) == strip_front_brackets(s.skip(i)),
    decreases i,
{
    if i > 0 {
        lemma_strip_front_brackets(s.drop_first(), i - 1);
        assert(s.drop_first().skip(i - 1) =~= s.skip(i));
    } else {
        assert(s.skip(0) =~= s);
    }
}

proof fn lemma_strip_back_brackets(s: Seq<char>, i: int)
    requires
        0 <= i <= s.len(),
        forall|j: int| i <= j < s.len() ==> is_bracket(s[j]),
    ensures
        strip_back_brackets(s) == strip_back_brackets(s.take(i)),
    decreases s.len() - i,
{
    if i < s.len() {
        lemma_strip_back_brackets(s.drop_last(), i);
        assert(s.drop_last().take(i) =~= s.take(i));
    } else {
        assert(s.take(i) =~= s);
    }
}

proof fn lemma_strip_front_dashes(s: Seq<char>, i: int)
    requires
        0 <= i <= s.len(),
        forall|j: int| 0 <= j < i ==> s[j] == '-',
    ensures
        strip_front_dashes(s) == strip_front_dashes(s.skip(i)),
    decreases i,
{
    if i > 0 {
        lemma_strip_front_dashes(s.drop_first(), i - 1);
        assert(s.drop_first().skip(i - 1) =~= s.skip(i));
    } else {
        assert(s.skip(0) =~= s);
    }
}

/// `ebuild.sh` as characters.
fn runner_script_chars() -> (r: Vec<char>)
    ensures
        r@ == runner_script(),
{
    let r = vec!['e', 'b', 'u', 'i', 'l', 'd', '.', 's', 'h'];
    assert(r@ =~= runner_script());
    r
}

/// `sandbox` as characters.
fn sandbox_marker_chars() -> (r: Vec<char>)
    ensures
        r@ == sandbox_marker(),
{
    let r = vec!['s', 'a', 'n', 'd', 'b', 'o', 'x'];
    assert(r@ =~= sandbox_marker());
    r
}

/// `/emerge` as characters.
fn tool_suffix_chars() -> (r: Vec<char>)
    ensures
        r@ == tool_suffix(),
{
    let r = vec!['/', 'e', 'm', 'e', 'r', 'g', 'e'];
    assert(r@ =~= tool_suffix());
    r
}

/// Whether `path` ends with the phase-runner script's name.
pub fn names_runner_script(path: &[char]) -> (r: bool)
    ensures
        r == has_suffix(path@, runner_script()),
{
    let suf = runner_script_chars();
    ends_with(path, suf.as_slice())
}

/// Whether an argument vector is that of a phase-runner worker.
pub fn is_worker(args: &Vec<Vec<char>>) -> (r: bool)
    ensures
        r == is_worker_args(char_views(args@)),
{
    args.len() == 3 && names_runner_script(args[1].as_slice())
}

/// Whether the words of a command line are those of a job-defining process.
pub fn is_job_process(w: &Vec<Vec<char>>) -> (r: bool)
    ensures
        r == is_job_words(char_views(w@)),
{
    if w.len() != 4 {
        return false;
    }
    let tag = w[0].as_slice();
    if tag.len() == 0 || tag[0] != '[' || tag[tag.len() - 1] != ']' {
        return false;
    }
    let marker = sandbox_marker_chars();
    same_chars(w[1].as_slice(), marker.as_slice()) && names_runner_script(w[2].as_slice())
}

/// Whether the words of a command line are those of a build-tool invocation.
pub fn is_invocation(w: &Vec<Vec<char>>) -> (r: bool)
    ensures
        r == is_invocation_words(char_views(w@)),
{
    if w.len() < 2 {
        return false;
    }
    let suf = tool_suffix_chars();
    ends_with(w[1].as_slice(), suf.as_slice())
}

/// The bounds `(a, b)` of a tag's content within it.
fn tag_bounds(s: &[char]) -> (r: (usize, usize))
    ensures
        r.0 <= r.1 <= s@.len(),
        s@.subrange(r.0 as int, r.1 as int) == tag_body(s@),
{
    let n = s.len();
    let mut a: usize = 0;
    while a < n && (s[a] == '[' || s[a] == ']')
        invariant
            a <= n == s@.len(),
            forall|j: int| 0 <= j < a ==> is_bracket(s@[j]),
        decreases n - a,
    {
        a = a + 1;
    }
    proof {
        lemma_strip_front_brackets(s@, a as int);
    }
    let ghost front = s@.skip(a as int);
    assert(strip_front_brackets(front) == front);
    let mut b: usize = n;
    while b > a && (s[b - 1] == '[' || s[b - 1] == ']')
        invariant
            a <= b <= n == s@.len(),
            front == s@.skip(a as int),
            forall|j: int| b <= j < n ==> is_bracket(s@[j]),
        decreases b - a,
    {
        b = b - 1;
    }
    proof {
        lemma_strip_back_brackets(front, b - a);
        assert(front.take(b - a) =~= s@.subrange(a as int, b as int));
    }
    (a, b)
}

/// The position of the first `/` in `t`, if any.
fn find_slash(t: &[char]) -> (r: Option<usize>)
    ensures
        match r {
            Some(k) => is_first_of(t@, '/', k as int),
            None => !exists|k: int| is_first_of(t@, '/', k),
        },
{
    let mut i: usize = 0;
    while i < t.len()
        invariant
            i <= t@.len(),
            forall|j: int| 0 <= j < i ==> t@[j] != '/',
        decreases t.len() - i,
    {
        if t[i] == '/' {
            return Some(i);
        }
        i = i + 1;
    }
    None
}

/// The position of the first version component of `pv`, if any.
fn find_version(pv: &[char]) -> (r: Option<usize>)
    ensures
        match r {
            Some(k) => is_version_start(pv@, k as int),
            None => !exists|k: int| is_version_start(pv@, k),
        },
{
    let mut i: usize = 0;
    while i < pv.len()
        invariant
            i <= pv@.len(),
            forall|j: int| 0 <= j < i ==> !version_starts_at(pv@, j),
        decreases pv.len() - i,
    {
        if '0' <= pv[i] && pv[i] <= '9' && (i == 0 || pv[i - 1] == '-') {
            return Some(i);
        }
        i = i + 1;
    }
    None
}

/// The position of the first character of `s[..end]` that is not a dash.
fn skip_dashes(s: &[char], end: usize) -> (r: usize)
    requires
        end <= s@.len(),
    ensures
        r <= end,
        s@.subrange(r as int, end as int) == strip_front_dashes(s@.take(end as int)),
{
    let mut i: usize = 0;
    while i < end && s[i] == '-'
        invariant
            i <= end <= s@.len(),
            forall|j: int| 0 <= j < i ==> s@[j] == '-',
        decreases end - i,
    {
        i = i + 1;
    }
    proof {
        let t = s@.take(end as int);
        lemma_strip_front_dashes(t, i as int);
        assert(t.skip(i as int) =~= s@.subrange(i as int, end as int));
    }
    i
}

/// Splits `package-version` into package and version.
pub fn split_package(pv: &[char]) -> (r: (String, String))
    ensures
        (r.0@, r.1@) == split_package_version(pv@),
{
    match find_version(pv) {
        Some(k) => {
            let ghost kk = choose|k: int| is_version_start(pv@, k);
            assert(kk == k as int) by {
                if kk < k {
                    assert(!version_starts_at(pv@, kk));
                } else if k < kk {
                    assert(!version_starts_at(pv@, k as int));
                }
            }
            let version = string_of(slice_subrange(pv, k, pv.len()));
            assert(pv@.subrange(k as int, pv@.len() as int) =~= pv@.skip(k as int));
            if k == 0 {
                (String::new(), version)
            } else {
                let a = skip_dashes(pv, k - 1);
                (string_of(slice_subrange(pv, a, k - 1)), version)
            }
        },
        None => {
            let a = skip_dashes(pv, pv.len());
            assert(pv@.take(pv@.len() as int) =~= pv@);
            (string_of(slice_subrange(pv, a, pv.len())), String::new())
        },
    }
}

/// Parses a job tag `[category/package-version]` into category, package and
/// version; none where its content holds no `/`.
pub fn parse_job_tag(tag: &[char]) -> (r: Option<(String, String, String)>)
    ensures
        match r {
            Some((c, p, v)) => parse_tag(tag@) == Some((c@, p@, v@)),
            None => parse_tag(tag@) is None,
        },
{
    let (a, b) = tag_bounds(tag);
    let body = slice_subrange(tag, a, b);
    match find_slash(body) {
        Some(k) => {
            let ghost kk = choose|k: int| is_first_of(body@, '/', k);
            assert(kk == k as int) by {
                if kk < k {
                    assert(body@[kk] != '/');
                } else if k < kk {
                    assert(body@[k as int] != '/');
                }
            }
            let category = string_of(slice_subrange(body, 0, k));
            assert(body@.subrange(0, k as int) =~= body@.take(k as int));
            let rest = slice_subrange(body, k + 1, body.len());
            assert(rest@ =~= body@.skip(k + 1));
            let (package, version) = split_package(rest);
            Some((category, package, version))
        },
        None => None,
    }
}

/// Parses the command line of a job-defining process, such as
/// `[sys-kernel/cachyos-kernel-6.15.1] sandbox /usr/lib/portage/x/ebuild.sh compile`,
/// into category, package, version and phase.
pub fn parse_job_command(line: &String) -> (r: Option<(String, String, String, String)>)
    ensures
        match r {
            Some((c, p, v, ph)) => parse_job_line(line@) == Some((c@, p@, v@, ph@)),
            None => parse_job_line(line@) is None,
        },
{
    let cs = chars_of(line);
    let w = split_words(cs.as_slice());
    if !is_job_process(&w) {
        return None;
    }
    assert(char_views(w@)[0] == w@[0]@);
    assert(char_views(w@)[3] == w@[3]@);
    match parse_job_tag(w[0].as_slice()) {
        Some((c, p, v)) => Some((c, p, v, string_of(w[3].as_slice()))),
        None => None,
    }
}

} // verus!
