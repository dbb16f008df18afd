//! Source-quality analysis of Python files: a keyword-count complexity
//! measure, line-based issue detection, and cache keys for analysis results.
use vstd::prelude::*;
use vstd::string::*;
use vstd::utf8::encode_utf8;

verus! {

/// One finding in a source file.
#[derive(Debug, Clone)]
pub struct Issue {
    pub line: usize,
    pub column: usize,
    pub severity: String,
    pub message: String,
    pub rule_id: String,
}

impl Issue {
    pub fn new(line: usize, column: usize, severity: String, message: String, rule_id: String) -> (r:
        Issue)
        ensures
            r.line == line,
            r.column == column,
            r.severity@ == severity@,
            r.message@ == message@,
            r.rule_id@ == rule_id@,
    {
        Issue { line, column, severity, message, rule_id }
    }
}

/// The analysis of one source file.
#[derive(Debug, Clone)]
pub struct AnalysisResult {
    pub file: String,
    pub issues: Vec<Issue>,
    pub complexity: u32,
    pub duration_ms: u64,
}

impl AnalysisResult {
    pub fn new(file: String, issues: Vec<Issue>, complexity: u32, duration_ms: u64) -> (r:
        AnalysisResult)
        ensures
            r.file@ == file@,
            r.issues@ == issues@,
            r.complexity == complexity,
            r.duration_ms == duration_ms,
    {
        AnalysisResult { file, issues, complexity, duration_ms }
    }
}

/// Relies on str::chars: the characters of `s`, in order.
#[verifier::external_body]
fn chars_of(s: &str) -> (r: Vec<char>)
    ensures
        r@ == s@,
{
    s.chars().collect()
}

/// The number of non-overlapping occurrences of a nonempty `pat` in `s`,
/// found left to right, each search resuming after the previous match.
pub open spec fn count_matches(s: Seq<char>, pat: Seq<char>) -> nat
    decreases s.len(),
{
    if pat.len() == 0 || s.len() < pat.len() {
        0
    } else if s.take(pat.len() as int) == pat {
        1 + count_matches(s.skip(pat.len() as int), pat)
    } else {
        count_matches(s.skip(1), pat)
    }
}

/// The control-flow keywords that the complexity measure counts.
pub open spec fn complexity_keyword(k: int) -> Seq<char> {
    if k == 0 {
        seq!['i', 'f']
    } else if k == 1 {
        seq!['e', 'l', 'i', 'f']
    } else if k == 2 {
        seq!['e', 'l', 's', 'e']
    } else if k == 3 {
        seq!['f', 'o', 'r']
    } else if k == 4 {
        seq!['w', 'h', 'i', 'l', 'e']
    } else if k == 5 {
        seq!['t', 'r', 'y']
    } else if k == 6 {
        seq!['e', 'x', 'c', 'e', 'p', 't']
    } else if k == 7 {
        seq!['f', 'i', 'n', 'a', 'l', 'l', 'y']
    } else if k == 8 {
        seq!['w', 'i', 't', 'h']
    } else if k == 9 {
        seq!['m', 'a', 't', 'c', 'h']
    } else {
        seq!['c', 'a', 's', 'e']
    }
}

/// How many keywords the complexity measure counts.
pub const N_COMPLEXITY_KEYWORDS: usize = 11;

/// Occurrences in `s` of the first `k` keywords, added up.
pub open spec fn keyword_occurrences(s: Seq<char>, k: int) -> nat
    decreases k,
{
    if k <= 0 {
        0
    } else {
        keyword_occurrences(s, k - 1) + count_matches(s, complexity_keyword(k - 1))
    }
}

/// The complexity of `s`: one, plus one for each occurrence of a keyword.
pub open spec fn complexity_of(s: Seq<char>) -> nat {
    1 + keyword_occurrences(s, N_COMPLEXITY_KEYWORDS as int)
}

fn keyword_chars(k: usize) -> (r: Vec<char>)
    requires
        k < N_COMPLEXITY_KEYWORDS,
    ensures
        r@ == complexity_keyword(k as int),
{
    let r = if k == 0 {
        vec!['i', 'f']
    } else if k == 1 {
        vec!['e', 'l', 'i', 'f']
    } else if k == 2 {
        vec!['e', 'l', 's', 'e']
    } else if k == 3 {
        vec!['f', 'o', 'r']
    } else if k == 4 {
        vec!['w', 'h', 'i', 'l', 'e']
    } else if k == 5 {
        vec!['t', 'r', 'y']
    } else if k == 6 {
        vec!['e', 'x', 'c', 'e', 'p', 't']
    } else if k == 7 {
        vec!['f', 'i', 'n', 'a', 'l', 'l', 'y']
    } else if k == 8 {
        vec!['w', 'i', 't', 'h']
    } else if k == 9 {
        vec!['m', 'a', 't', 'c', 'h']
    } else {
        vec!['c', 'a', 's', 'e']
    };
    assert(r@ =~= complexity_keyword(k as int));
    r
}

/// Whether `pat` occurs in `s` at position `i`.
fn matches_at(s: &Vec<char>, i: usize, pat: &Vec<char>) -> (r: bool)
    requires
        i <= s@.len(),
    ensures
        r == (i + pat@.len() <= s@.len() && s@.subrange(i as int, i + pat@.len()) == pat@),
{
    let n = s.len();
    if pat.len() > n - i {
        return false;
    }
    let mut j: usize = 0;
    while j < pat.len()
        invariant
            n == s@.len(),
            i + pat@.len() <= s@.len(),
            j <= pat@.len(),
            forall|m: int| 0 <= m < j ==> s@[i + m] == pat@[m],
        decreases pat.len() - j,
    {
        if s[i + j] != pat[j] {
            assert(s@.subrange(i as int, i + pat@.len())[j as int] != pat@[j as int]);
            return false;
        }
        j += 1;
    }
    assert(s@.subrange(i as int, i + pat@.len()) =~= pat@);
    true
}

/// The number of non-overlapping occurrences of `pat` in `s`.
fn count_occurrences(s: &Vec<char>, pat: &Vec<char>) -> (n: usize)
    requires
        pat@.len() > 0,
    ensures
        n == count_matches(s@, pat@),
{
    let mut i: usize = 0;
    let mut n: usize = 0;
    assert(s@.skip(0) =~= s@);
    while i < s.len()
        invariant
            pat@.len() > 0,
            i <= s@.len(),
            n <= i,
            n + count_matches(s@.skip(i as int), pat@) == count_matches(s@, pat@),
        decreases s.len() - i,
    {
        let rest = Ghost(s@.skip(i as int));
        if matches_at(s, i, pat) {
            proof {
                assert(rest@.take(pat@.len() as int) =~= s@.subrange(i as int, i + pat@.len()));
                assert(rest@.skip(pat@.len() as int) =~= s@.skip(i + pat@.len()));
            }
            n += 1;
            i += pat.len();
        } else {
            proof {
                if rest@.len() >= pat@.len() {
                    assert(rest@.take(pat@.len() as int) =~= s@.subrange(
                        i as int,
                        i + pat@.len(),
                    ));
                }
                assert(rest@.skip(1) =~= s@.skip(i + 1));
            }
            i += 1;
        }
    }
    n
}

/// The complexity of a Python source: one, plus one for each non-overlapping
/// occurrence of each control-flow keyword (`if`, `elif`, `else`, `for`,
/// `while`, `try`, `except`, `finally`, `with`, `match`, `case`), counted
/// wherever it occurs in the text. `None` when that exceeds `u32::MAX`.
pub fn analyze_complexity(source: String) -> (r: Option<u32>)
    ensures
        r == (if complexity_of(source@) <= u32::MAX {
            Some(complexity_of(source@) as u32)
        } else {
            None::<u32>
        }),
{
    let s = chars_of(source.as_str());
    let mut total: u64 = 1;
    let mut k: usize = 0;
    while k < N_COMPLEXITY_KEYWORDS
        invariant
            s@ == source@,
            k <= N_COMPLEXITY_KEYWORDS,
            total == 1 + keyword_occurrences(s@, k as int),
            total <= 1 + k * (u32::MAX as int + 1),
        decreases N_COMPLEXITY_KEYWORDS - k,
    {
        let pat = keyword_chars(k);
        let n = count_occurrences(&s, &pat);
        if n > u32::MAX as usize {
            proof {
                lemma_keyword_occurrences_grow(s@, k as int + 1, N_COMPLEXITY_KEYWORDS as int);
            }
            return None;
        }
        total = total + n as u64;
        k += 1;
    }
    if total > u32::MAX as u64 {
        None
    } else {
        Some(total as u32)
    }
}

/// The SHA-256 digest of `data`, written as lowercase hexadecimal.
pub uninterp spec fn sha256_hex(data: Seq<u8>) -> Seq<char>;

/// Relies on sha2's `Digest::digest` for `Sha256`, formatted with `{:x}`:
/// the 32-byte digest as 64 lowercase hex digits.
#[verifier::external_body]
fn sha256_hex_digest(data: &[u8]) -> (r: String)
    ensures
        r@ == sha256_hex(data@),
        r@.len() == 64,
{
    format!("{:x}", <sha2::Sha256 as sha2::Digest>::digest(data))
}

/// The SHA-256 digest of a file's content, as 64 lowercase hex digits.
pub fn hash_content(content: &[u8]) -> (digest: String)
    ensures
        digest@ == sha256_hex(content@),
        digest@.len() == 64,
{
    sha256_hex_digest(content)
}

/// Whether `path` holds any of `exclude_patterns` as a substring (an empty
/// pattern is held by every path).
pub fn path_is_excluded(path: &str, exclude_patterns: &Vec<String>) -> (r: bool)
    ensures
        r == exists|k: int|
            0 <= k < exclude_patterns@.len() && #[trigger] contains(
                path@,
                exclude_patterns@[k]@,
            ),
{
    let chars = chars_of(path);
    let mut k: usize = 0;
    while k < exclude_patterns.len()
        invariant
            chars@ == path@,
            k <= exclude_patterns@.len(),
            forall|m: int| 0 <= m < k ==> !#[trigger] contains(path@, exclude_patterns@[m]@),
        decreases exclude_patterns.len() - k,
    {
        let pat = chars_of(exclude_patterns[k].as_str());
        if pat.len() == 0 {
            assert(contains(path@, exclude_patterns@[k as int]@));
            return true;
        }
        if find_chars(&chars, &pat).is_some() {
            assert(contains(path@, exclude_patterns@[k as int]@));
            return true;
        }
        k += 1;
    }
    false
}

/// The cache key of a file's analysis under a configuration: the first 16
/// hex digits of the SHA-256 digest of `file_path`, a colon, and
/// `config_hash`, all as UTF-8.
pub fn generate_cache_key(file_path: String, config_hash: String) -> (key: String)
    ensures
        key@ == sha256_hex(
            encode_utf8(file_path@) + seq![58u8] + encode_utf8(config_hash@),
        ).take(16),
{
    let path_bytes = file_path.as_str().as_bytes();
    let config_bytes = config_hash.as_str().as_bytes();
    let mut input: Vec<u8> = Vec::new();
    let mut i: usize = 0;
    while i < path_bytes.len()
        invariant
            i <= path_bytes@.len(),
            input@ == path_bytes@.subrange(0, i as int),
        decreases path_bytes.len() - i,
    {
        input.push(path_bytes[i]);
        i += 1;
        assert(input@ =~= path_bytes@.subrange(0, i as int));
    }
    input.push(58u8);
    let ghost head = path_bytes@ + seq![58u8];
    assert(input@ =~= head);
    let mut j: usize = 0;
    while j < config_bytes.len()
        invariant
            j <= config_bytes@.len(),
            input@ == head + config_bytes@.subrange(0, j as int),
        decreases config_bytes.len() - j,
    {
        input.push(config_bytes[j]);
        j += 1;
        assert(input@ =~= head + config_bytes@.subrange(0, j as int));
    }
    assert(input@ =~= head + config_bytes@);
    let hash = sha256_hex_digest(input.as_slice());
    let prefix = hash.as_str().substring_char(0, 16);
    prefix.to_owned()
}

/// Whether `c` is white space in the Unicode sense (the `White_Space`
/// property), as `char::is_whitespace` decides it.
pub open spec fn is_white_space(c: char) -> bool {
    let u = c as u32;
    (0x09 <= u && u <= 0x0d) || u == 0x20 || u == 0x85 || u == 0xa0 || u == 0x1680 || (0x2000
        <= u && u <= 0x200a) || u == 0x2028 || u == 0x2029 || u == 0x202f || u == 0x205f || u
        == 0x3000
}

/// `s` without its leading white space.
pub open spec fn trim_start(s: Seq<char>) -> Seq<char>
    decreases s.len(),
{
    if s.len() > 0 && is_white_space(s[0]) {
        trim_start(s.drop_first())
    } else {
        s
    }
}

/// `s` without its trailing white space.
pub open spec fn trim_end(s: Seq<char>) -> Seq<char>
    decreases s.len(),
{
    if s.len() > 0 && is_white_space(s.last()) {
        trim_end(s.drop_last())
    } else {
        s
    }
}

/// `s` without its leading and trailing white space.
pub open spec fn trim(s: Seq<char>) -> Seq<char> {
    trim_end(trim_start(s))
}

/// The position of the first occurrence of `pat` in `s`, or -1 if none.
pub open spec fn first_match(s: Seq<char>, pat: Seq<char>) -> int
    decreases s.len(),
{
    if pat.len() == 0 {
        0
    } else if s.len() < pat.len() {
        -1
    } else if s.take(pat.len() as int) == pat {
        0
    } else if first_match(s.skip(1), pat) < 0 {
        -1
    } else {
        first_match(s.skip(1), pat) + 1
    }
}

/// Whether `pat` occurs in `s`.
pub open spec fn contains(s: Seq<char>, pat: Seq<char>) -> bool {
    first_match(s, pat) >= 0
}

/// The byte offset, in UTF-8, of the first occurrence of `pat` in `s`; zero
/// when there is none.
pub open spec fn byte_column(s: Seq<char>, pat: Seq<char>) -> nat {
    if contains(s, pat) {
        encode_utf8(s.take(first_match(s, pat))).len()
    } else {
        0
    }
}

/// The length of the first line of `s`: the position of its first newline,
/// or its whole length.
pub open spec fn line_end(s: Seq<char>) -> nat
    decreases s.len(),
{
    if s.len() == 0 || s[0] == '\n' {
        0
    } else {
        1 + line_end(s.drop_first())
    }
}

/// The lines of `s`: the text between newlines, without a carriage return
/// that precedes a newline; no line follows a final newline.
pub open spec fn split_lines(s: Seq<char>) -> Seq<Seq<char>>
    decreases s.len(),
{
    if s.len() == 0 {
        Seq::empty()
    } else {
        let k = line_end(s);
        if k >= s.len() {
            seq![s]
        } else {
            let line = if k > 0 && s[k - 1] == '\r' {
                s.take(k - 1)
            } else {
                s.take(k as int)
            };
            seq![line] + split_lines(s.skip(k as int + 1))
        }
    }
}

/// An issue as plain values: line, column, severity, message and rule.
pub open spec fn issue_view(i: Issue) -> (nat, nat, Seq<char>, Seq<char>, Seq<char>) {
    (i.line as nat, i.column as nat, i.severity@, i.message@, i.rule_id@)
}

/// The issues of one line, numbered `n`: a bare `except:` (the whole line
/// once trimmed), a mutable default argument (`def ` and `=[]` on one line),
/// and a call to `print(` on a line that is not a comment.
pub open spec fn line_issues(line: Seq<char>, n: nat) -> Seq<
    (nat, nat, Seq<char>, Seq<char>, Seq<char>),
> {
    let bare = if trim(line) == "except:"@ {
        seq![
            (
                n,
                byte_column(line, "except:"@),
                "warning"@,
                "Bare 'except:' clause - specify exception type"@,
                "E722"@,
            ),
        ]
    } else {
        Seq::empty()
    };
    let mutable = if contains(line, "def "@) && contains(line, "=[]"@) {
        seq![(n, byte_column(line, "=[]"@), "error"@, "Mutable default argument"@, "B006"@)]
    } else {
        Seq::empty()
    };
    let ts = trim_start(line);
    let printing = if contains(line, "print("@) && !(ts.len() > 0 && ts[0] == '#') {
        seq![(n, byte_column(line, "print("@), "info"@, "Use logging instead of print()"@, "T201"@)]
    } else {
        Seq::empty()
    };
    bare + mutable + printing
}

/// The issues of `lines`, numbered from `n`, line by line.
pub open spec fn lines_issues(lines: Seq<Seq<char>>, n: nat) -> Seq<
    (nat, nat, Seq<char>, Seq<char>, Seq<char>),
>
    decreases lines.len(),
{
    if lines.len() == 0 {
        Seq::empty()
    } else {
        line_issues(lines[0], n) + lines_issues(lines.drop_first(), n + 1)
    }
}

fn is_white_space_char(c: char) -> (r: bool)
    ensures
        r == is_white_space(c),
{
    let u = c as u32;
    (0x09 <= u && u <= 0x0d) || u == 0x20 || u == 0x85 || u == 0xa0 || u == 0x1680 || (0x2000
        <= u && u <= 0x200a) || u == 0x2028 || u == 0x2029 || u == 0x202f || u == 0x205f || u
        == 0x3000
}

/// Where the text of `s` starts once its leading white space is dropped.
fn trim_start_index(s: &Vec<char>) -> (lo: usize)
    ensures
        lo <= s@.len(),
        trim_start(s@) == s@.skip(lo as int),
{
    let mut lo: usize = 0;
    assert(s@.skip(0) =~= s@);
    while lo < s.len() && is_white_space_char(s[lo])
        invariant
            lo <= s@.len(),
            trim_start(s@) == trim_start(s@.skip(lo as int)),
        decreases s.len() - lo,
    {
        assert(s@.skip(lo as int).drop_first() =~= s@.skip(lo + 1));
        lo += 1;
    }
    lo
}

/// Where the text of `s` from `lo` ends once its trailing white space is
/// dropped.
fn trim_end_index(s: &Vec<char>, lo: usize) -> (hi: usize)
    requires
        lo <= s@.len(),
    ensures
        lo <= hi <= s@.len(),
        trim_end(s@.skip(lo as int)) == s@.subrange(lo as int, hi as int),
{
    let mut hi: usize = s.len();
    assert(s@.skip(lo as int) =~= s@.subrange(lo as int, hi as int));
    while hi > lo && is_white_space_char(s[hi - 1])
        invariant
            lo <= hi <= s@.len(),
            trim_end(s@.skip(lo as int)) == trim_end(s@.subrange(lo as int, hi as int)),
        decreases hi,
    {
        assert(s@.subrange(lo as int, hi as int).drop_last() =~= s@.subrange(
            lo as int,
            hi - 1,
        ));
        hi -= 1;
    }
    hi
}

/// The position of the first occurrence of a nonempty `pat` in `s`.
fn find_chars(s: &Vec<char>, pat: &Vec<char>) -> (r: Option<usize>)
    requires
        pat@.len() > 0,
    ensures
        match r {
            Some(i) => first_match(s@, pat@) == i,
            None => first_match(s@, pat@) < 0,
        },
{
    let mut i: usize = 0;
    assert(s@.skip(0) =~= s@);
    while i < s.len()
        invariant
            pat@.len() > 0,
            i <= s@.len(),
            first_match(s@, pat@) == (if first_match(s@.skip(i as int), pat@) < 0 {
                -1
            } else {
                i + first_match(s@.skip(i as int), pat@)
            }),
        decreases s.len() - i,
    {
        let ghost rest = s@.skip(i as int);
        if matches_at(s, i, pat) {
            assert(rest.take(pat@.len() as int) =~= pat@);
            return Some(i);
        }
        proof {
            if rest.len() >= pat@.len() {
                assert(rest.take(pat@.len() as int) =~= s@.subrange(i as int, i + pat@.len()));
            }
            assert(rest.skip(1) =~= s@.skip(i + 1));
        }
        i += 1;
    }
    None
}

/// Whether `s` from `lo` to `hi` holds exactly `pat`.
fn same_chars(s: &Vec<char>, lo: usize, hi: usize, pat: &Vec<char>) -> (r: bool)
    requires
        lo <= hi <= s@.len(),
    ensures
        r == (s@.subrange(lo as int, hi as int) == pat@),
{
    if hi - lo != pat.len() {
        assert(s@.subrange(lo as int, hi as int).len() != pat@.len());
        return false;
    }
    matches_at(s, lo, pat)
}

/// The UTF-8 byte offset in `source` of the first occurrence of `pat` in its
/// line `line`, which starts at character `start`; zero when there is none.
fn column_of(source: &str, start: usize, line: &Vec<char>, pat: &Vec<char>) -> (col: usize)
    requires
        pat@.len() > 0,
        start + line@.len() <= usize::MAX,
        encode_utf8(source@).len() <= usize::MAX,
        start + line@.len() <= source@.len(),
        line@ == source@.subrange(start as int, start + line@.len()),
    ensures
        col == byte_column(line@, pat@),
{
    match find_chars(line, pat) {
        Some(pos) => {
            proof {
                lemma_first_match_bound(line@, pat@);
            }
            let prefix = source.substring_char(start, start + pos);
            assert(prefix@ =~= line@.take(pos as int));
            proof {
                let whole = source@;
                let a = whole.take(start as int);
                let c = whole.skip(start + pos);
                assert(whole =~= a + prefix@ + c);
                lemma_encode_utf8_append(a + prefix@, c);
                lemma_encode_utf8_append(a, prefix@);
            }
            prefix.len()
        },
        None => 0,
    }
}

/// The UTF-8 encoding of a concatenation is the concatenation of the
/// encodings.
proof fn lemma_encode_utf8_append(a: Seq<char>, b: Seq<char>)
    ensures
        encode_utf8(a + b) == encode_utf8(a) + encode_utf8(b),
    decreases a.len(),
{
    if a.len() == 0 {
        assert(a + b =~= b);
        assert(encode_utf8(a) + encode_utf8(b) =~= encode_utf8(b));
    } else {
        lemma_encode_utf8_append(a.drop_first(), b);
        assert((a + b).drop_first() =~= a.drop_first() + b);
        assert((a + b)[0] == a[0]);
        assert(encode_utf8(a + b) =~= encode_utf8(a) + encode_utf8(b));
    }
}

proof fn lemma_first_match_bound(s: Seq<char>, pat: Seq<char>)
    ensures
        first_match(s, pat) <= s.len(),
    decreases s.len(),
{
    if pat.len() > 0 && s.len() >= pat.len() && s.take(pat.len() as int) != pat {
        lemma_first_match_bound(s.skip(1), pat);
    }
}

/// The issues of the line `line` of `source`, which starts at character
/// `start`, numbered `n`.
fn issues_of_line(source: &str, start: usize, line: &Vec<char>, n: usize) -> (r: Vec<Issue>)
    requires
        start + line@.len() <= usize::MAX,
        encode_utf8(source@).len() <= usize::MAX,
        start + line@.len() <= source@.len(),
        line@ == source@.subrange(start as int, start + line@.len()),
    ensures
        r@.map_values(|i: Issue| issue_view(i)) == line_issues(line@, n as nat),
{
    let except_pat = chars_of("except:");
    let def_pat = chars_of("def ");
    let default_pat = chars_of("=[]");
    let print_pat = chars_of("print(");
    proof {
        reveal_strlit("except:");
        reveal_strlit("def ");
        reveal_strlit("=[]");
        reveal_strlit("print(");
    }
    let mut issues: Vec<Issue> = Vec::new();
    let lo = trim_start_index(line);
    let hi = trim_end_index(line, lo);
    let ghost bare: Seq<(nat, nat, Seq<char>, Seq<char>, Seq<char>)> = Seq::empty();
    if same_chars(line, lo, hi, &except_pat) {
        let column = column_of(source, start, line, &except_pat);
        issues.push(
            Issue {
                line: n,
                column,
                severity: "warning".to_owned(),
                message: "Bare 'except:' clause - specify exception type".to_owned(),
                rule_id: "E722".to_owned(),
            },
        );
        proof {
            bare = seq![
                (
                    n as nat,
                    byte_column(line@, "except:"@),
                    "warning"@,
                    "Bare 'except:' clause - specify exception type"@,
                    "E722"@,
                ),
            ];
        }
    }
    assert(issues@.map_values(|i: Issue| issue_view(i)) =~= bare);
    let ghost mutable: Seq<(nat, nat, Seq<char>, Seq<char>, Seq<char>)> = Seq::empty();
    let has_def = find_chars(line, &def_pat).is_some();
    if has_def && find_chars(line, &default_pat).is_some() {
        let column = column_of(source, start, line, &default_pat);
        issues.push(
            Issue {
                line: n,
                column,
                severity: "error".to_owned(),
                message: "Mutable default argument".to_owned(),
                rule_id: "B006".to_owned(),
            },
        );
        proof {
            mutable = seq![
                (n as nat, byte_column(line@, "=[]"@), "error"@, "Mutable default argument"@, "B006"@),
            ];
        }
    }
    assert(issues@.map_values(|i: Issue| issue_view(i)) =~= bare + mutable);
    let ghost printing: Seq<(nat, nat, Seq<char>, Seq<char>, Seq<char>)> = Seq::empty();
    let comment = lo < line.len() && line[lo] == '#';
    if find_chars(line, &print_pat).is_some() && !comment {
        let column = column_of(source, start, line, &print_pat);
        issues.push(
            Issue {
                line: n,
                column,
                severity: "info".to_owned(),
                message: "Use logging instead of print()".to_owned(),
                rule_id: "T201".to_owned(),
            },
        );
        proof {
            printing = seq![
                (
                    n as nat,
                    byte_column(line@, "print("@),
                    "info"@,
                    "Use logging instead of print()"@,
                    "T201"@,
                ),
            ];
        }
    }
    assert(issues@.map_values(|i: Issue| issue_view(i)) =~= bare + mutable + printing);
    issues
}

/// The issues of a Python source, line by line (lines numbered from one):
/// a bare `except:` clause, a mutable default argument, and a `print(` call
/// outside a comment, each with the UTF-8 byte column where its text starts.
/// `file_path` names the source and does not change the result.
pub fn detect_issues(source: &str, file_path: &str) -> (issues: Vec<Issue>)
    requires
        encode_utf8(source@).len() <= usize::MAX,
    ensures
        issues@.map_values(|i: Issue| issue_view(i)) == lines_issues(split_lines(source@), 1),
{
    let s = chars_of(source);
    let n = s.len();
    let mut issues: Vec<Issue> = Vec::new();
    let mut start: usize = 0;
    let mut count: usize = 0;
    assert(s@.skip(0) =~= s@);
    assert(issues@.map_values(|i: Issue| issue_view(i)) =~= Seq::empty());
    while start < n
        invariant
            s@ == source@,
            n == s@.len(),
            encode_utf8(source@).len() <= usize::MAX,
            start <= n,
            count <= start,
            lines_issues(split_lines(source@), 1) == issues@.map_values(|i: Issue| issue_view(i))
                + lines_issues(split_lines(s@.skip(start as int)), count as nat + 1),
        decreases n - start,
    {
        let ghost rest = s@.skip(start as int);
        let mut j: usize = start;
        while j < n && s[j] != '\n'
            invariant
                n == s@.len(),
                start <= j <= n,
                rest == s@.skip(start as int),
                line_end(rest) == (j - start) + line_end(s@.skip(j as int)),
            decreases n - j,
        {
            assert(s@.skip(j as int).drop_first() =~= s@.skip(j + 1));
            j += 1;
        }
        let end: usize = if j < n && j > start && s[j - 1] == '\r' {
            j - 1
        } else {
            j
        };
        let mut line: Vec<char> = Vec::new();
        let mut m: usize = start;
        while m < end
            invariant
                start <= m <= end <= n,
                n == s@.len(),
                line@ == s@.subrange(start as int, m as int),
            decreases end - m,
        {
            line.push(s[m]);
            m += 1;
            assert(line@ =~= s@.subrange(start as int, m as int));
        }
        let ghost done = issues@.map_values(|i: Issue| issue_view(i));
        let mut found = issues_of_line(source, start, &line, count + 1);
        let ghost this_line = found@.map_values(|i: Issue| issue_view(i));
        issues.append(&mut found);
        proof {
            assert(issues@.map_values(|i: Issue| issue_view(i)) =~= done + this_line);
            let k = line_end(rest);
            assert(k == j - start) by {
                if j < n {
                    assert(s@.skip(j as int)[0] == '\n');
                } else {
                    assert(s@.skip(j as int).len() == 0);
                }
            }
            let lines = split_lines(rest);
            if j < n {
                assert(rest.take(end - start) =~= line@);
                assert(rest.skip(k as int + 1) =~= s@.skip(j + 1));
                assert(lines.drop_first() =~= split_lines(s@.skip(j + 1)));
            } else {
                assert(rest =~= line@);
                assert(lines.drop_first() =~= Seq::<Seq<char>>::empty());
                assert(s@.skip(n as int) =~= Seq::<char>::empty());
            }
            assert(lines[0] == line@);
            assert(lines_issues(lines, count as nat + 1) == this_line + lines_issues(
                lines.drop_first(),
                count as nat + 2,
            ));
        }
        start = if j < n {
            j + 1
        } else {
            n
        };
        count += 1;
    }
    assert(s@.skip(n as int) =~= Seq::<char>::empty());
    assert(issues@.map_values(|i: Issue| issue_view(i)) + Seq::empty() =~= issues@.map_values(
        |i: Issue| issue_view(i),
    ));
    issues
}

proof fn lemma_keyword_occurrences_grow(s: Seq<char>, k: int, m: int)
    requires
        0 <= k <= m,
    ensures
        keyword_occurrences(s, k) <= keyword_occurrences(s, m),
    decreases m - k,
{
    if k < m {
        lemma_keyword_occurrences_grow(s, k, m - 1);
    }
}

} // verus!
