//! The search engine: split text into lines and keep the lines that contain
//! a literal pattern, either matched exactly or after lowercasing both sides.

use vstd::prelude::*;
use vstd::string::StrSliceExecFns;
use crate::config::Config;

verus! {

/// `pattern` occurs somewhere in `text` as a contiguous run of characters.
pub open spec fn contains_substring(text: Seq<char>, pattern: Seq<char>) -> bool {
    exists|i: int|
        0 <= i && i + pattern.len() <= text.len() && #[trigger] text.subrange(
            i,
            i + pattern.len(),
        ) == pattern
}

/// Whether `pattern` matches `text` starting at character position `start`.
fn matches_at(text: &str, pattern: &str, start: usize) -> (r: bool)
    requires
        start + pattern@.len() <= text@.len(),
        start + pattern@.len() <= usize::MAX,
    ensures
        r == (text@.subrange(start as int, start + pattern@.len()) == pattern@),
{
    let m = pattern.unicode_len();
    let mut j: usize = 0;
    while j < m
        invariant
            j <= m,
            m == pattern@.len(),
            start + m <= text@.len(),
            start + m <= usize::MAX,
            forall|k: int| 0 <= k < j ==> text@[start + k] == pattern@[k],
        decreases m - j,
    {
        if text.get_char(start + j) != pattern.get_char(j) {
            proof {
                assert(text@.subrange(start as int, start + m as int)[j as int] == text@[start
                    + j]);
            }
            return false;
        }
        j += 1;
    }
    proof {
        assert(text@.subrange(start as int, start + m as int) =~= pattern@);
    }
    true
}

/// Character position of the first newline in `s`, or `s.len()` if there is
/// none.
pub open spec fn first_newline(s: Seq<char>) -> int
    decreases s.len(),
{
    if s.len() == 0 {
        0
    } else if s[0] == '\n' {
        0
    } else {
        1 + first_newline(s.subrange(1, s.len() as int))
    }
}

/// A terminated line also sheds one carriage return just before the newline,
/// so that both `\n` and `\r\n` end a line.
pub open spec fn strip_carriage_return(line: Seq<char>) -> Seq<char> {
    if line.len() > 0 && line.last() == '\r' {
        line.drop_last()
    } else {
        line
    }
}

/// The lines of `s`: the pieces between newlines, without the terminators,
/// and with no empty final piece when `s` ends with a terminator.
pub open spec fn spec_lines(s: Seq<char>) -> Seq<Seq<char>>
    decreases s.len(),
{
    if s.len() == 0 {
        seq![]
    } else {
        let i = first_newline(s);
        if 0 <= i < s.len() {
            seq![strip_carriage_return(s.subrange(0, i))] + spec_lines(
                s.subrange(i + 1, s.len() as int),
            )
        } else {
            seq![s]
        }
    }
}

proof fn lemma_first_newline(s: Seq<char>)
    ensures
        0 <= first_newline(s) <= s.len(),
        forall|j: int| 0 <= j < first_newline(s) ==> s[j] != '\n',
        first_newline(s) < s.len() ==> s[first_newline(s)] == '\n',
    decreases s.len(),
{
    if s.len() == 0 {
    } else if s[0] == '\n' {
    } else {
        let t = s.subrange(1, s.len() as int);
        lemma_first_newline(t);
        assert forall|j: int| 0 <= j < first_newline(s) implies s[j] != '\n' by {
            if j > 0 {
                assert(t[j - 1] == s[j]);
            }
        }
        if first_newline(s) < s.len() {
            assert(t[first_newline(t)] == s[first_newline(s)]);
        }
    }
}

/// The first newline stands exactly where a scan that saw no earlier newline
/// stopped.
proof fn lemma_first_newline_at(s: Seq<char>, k: int)
    requires
        0 <= k <= s.len(),
        forall|j: int| 0 <= j < k ==> s[j] != '\n',
        k < s.len() ==> s[k] == '\n',
    ensures
        first_newline(s) == k,
{
    lemma_first_newline(s);
    let f = first_newline(s);
    if f < k {
        assert(s[f] != '\n');
    } else if k < f {
        assert(s[k] != '\n');
    }
}

/// Splitting off one terminated line peels one element off `spec_lines`.
proof fn lemma_lines_step(s: Seq<char>, start: int, i: int)
    requires
        0 <= start <= i < s.len(),
        forall|j: int| start <= j < i ==> s[j] != '\n',
        s[i] == '\n',
    ensures
        spec_lines(s.subrange(start, s.len() as int)) == seq![
            strip_carriage_return(s.subrange(start, i)),
        ] + spec_lines(s.subrange(i + 1, s.len() as int)),
{
    let suffix = s.subrange(start, s.len() as int);
    assert forall|j: int| 0 <= j < i - start implies suffix[j] != '\n' by {
        assert(suffix[j] == s[start + j]);
    }
    lemma_first_newline_at(suffix, i - start);
    assert(suffix.subrange(0, i - start) =~= s.subrange(start, i));
    assert(suffix.subrange(i - start + 1, suffix.len() as int) =~= s.subrange(
        i + 1,
        s.len() as int,
    ));
}

/// A remainder with no newline is a single line of its own.
proof fn lemma_lines_last(s: Seq<char>, start: int)
    requires
        0 <= start < s.len(),
        forall|j: int| start <= j < s.len() ==> s[j] != '\n',
    ensures
        spec_lines(s.subrange(start, s.len() as int)) == seq![s.subrange(start, s.len() as int)],
{
    let suffix = s.subrange(start, s.len() as int);
    assert forall|j: int| 0 <= j < suffix.len() implies suffix[j] != '\n' by {
        assert(suffix[j] == s[start + j]);
    }
    lemma_first_newline_at(suffix, suffix.len() as int);
}

/// Splits `contents` into its lines, each line a slice of `contents` with
/// the terminator (`\n` or `\r\n`) removed, in their original order.
pub fn split_lines<'a>(contents: &'a str) -> (result: Vec<&'a str>)
    ensures
        result.deep_view() == spec_lines(contents@),
{
    let n = contents.unicode_len();
    let mut result: Vec<&'a str> = Vec::new();
    let mut start: usize = 0;
    let mut i: usize = 0;
    proof {
        assert(contents@.subrange(0, n as int) =~= contents@);
        assert(result.deep_view() + spec_lines(contents@) =~= spec_lines(contents@));
    }
    while i < n
        invariant
            n == contents@.len(),
            start <= i <= n,
            forall|j: int| start <= j < i ==> contents@[j] != '\n',
            result.deep_view() + spec_lines(contents@.subrange(start as int, n as int))
                == spec_lines(contents@),
        decreases n - i,
    {
        if contents.get_char(i) == '\n' {
            let ghost old_result = result.deep_view();
            let line_end = if i > start && contents.get_char(i - 1) == '\r' {
                i - 1
            } else {
                i
            };
            let line = contents.substring_char(start, line_end);
            proof {
                let segment = contents@.subrange(start as int, i as int);
                if i > start && contents@[i - 1] == '\r' {
                    assert(segment.last() == contents@[i - 1]);
                    assert(line@ =~= segment.drop_last());
                } else if i > start {
                    assert(segment.last() == contents@[i - 1]);
                }
                assert(line@ == strip_carriage_return(segment));
                lemma_lines_step(contents@, start as int, i as int);
            }
            result.push(line);
            proof {
                assert(result.deep_view() =~= old_result.push(line@));
                assert(old_result.push(line@) + spec_lines(
                    contents@.subrange(i + 1, n as int),
                ) =~= old_result + (seq![line@] + spec_lines(contents@.subrange(i + 1, n as int))));
            }
            start = i + 1;
        }
        i += 1;
    }
    if start < n {
        let ghost old_result = result.deep_view();
        let line = contents.substring_char(start, n);
        proof {
            lemma_lines_last(contents@, start as int);
            assert(old_result.push(line@) =~= old_result + seq![line@]);
        }
        result.push(line);
        proof {
            assert(result.deep_view() =~= old_result.push(line@));
        }
    } else {
        proof {
            assert(contents@.subrange(start as int, n as int).len() == 0);
            assert(result.deep_view() + spec_lines(contents@.subrange(start as int, n as int))
                =~= result.deep_view());
        }
    }
    result
}

/// Whether `text` contains `pattern` as a literal contiguous substring.
pub fn contains_substr(text: &str, pattern: &str) -> (r: bool)
    ensures
        r == contains_substring(text@, pattern@),
{
    let n = text.unicode_len();
    let m = pattern.unicode_len();
    if m > n {
        return false;
    }
    if m == 0 {
        proof {
            assert(text@.subrange(0, 0 + pattern@.len() as int) =~= pattern@);
        }
        return true;
    }
    let mut i: usize = 0;
    while i <= n - m
        invariant
            n == text@.len(),
            m == pattern@.len(),
            0 < m <= n,
            i <= n - m + 1,
            forall|p: int| 0 <= p < i ==> #[trigger] text@.subrange(p, p + m) != pattern@,
        decreases n - m - i + 1,
    {
        if matches_at(text, pattern, i) {
            return true;
        }
        i += 1;
    }
    false
}

/// The lines among `lines` that contain `pattern`, matched exactly, in their
/// original order.
pub open spec fn matching_lines(pattern: Seq<char>, lines: Seq<Seq<char>>) -> Seq<Seq<char>> {
    lines.filter(|line: Seq<char>| contains_substring(line, pattern))
}

/// What the case-sensitive search returns: the lines of `contents` that
/// contain `pattern`, in their original order and with their original text.
pub open spec fn spec_search(pattern: Seq<char>, contents: Seq<char>) -> Seq<Seq<char>> {
    matching_lines(pattern, spec_lines(contents))
}

proof fn lemma_matching_lines_push(pattern: Seq<char>, lines: Seq<Seq<char>>, line: Seq<char>)
    ensures
        matching_lines(pattern, lines.push(line)) == if contains_substring(line, pattern) {
            matching_lines(pattern, lines).push(line)
        } else {
            matching_lines(pattern, lines)
        },
{
    reveal(Seq::filter);
    assert(lines.push(line).drop_last() =~= lines);
}

/// A pattern that every line contains selects every line.
proof fn lemma_matching_lines_all(pattern: Seq<char>, lines: Seq<Seq<char>>)
    requires
        pattern.len() == 0,
    ensures
        matching_lines(pattern, lines) == lines,
    decreases lines.len(),
{
    reveal(Seq::filter);
    if lines.len() > 0 {
        lemma_matching_lines_all(pattern, lines.drop_last());
        assert(contains_substring(lines.last(), pattern)) by {
            assert(lines.last().subrange(0, 0 + pattern.len() as int) =~= pattern);
        }
        assert(matching_lines(pattern, lines) =~= lines);
    } else {
        assert(matching_lines(pattern, lines) =~= lines);
    }
}

/// Returns the lines of `contents` that contain `pattern` as an exact-case
/// literal substring, in their original order and with their original text.
/// An empty pattern selects every line.
pub fn search<'a>(pattern: &str, contents: &'a str) -> (result: Vec<&'a str>)
    ensures
        result.deep_view() == spec_search(pattern@, contents@),
        pattern@.len() == 0 ==> result.deep_view() == spec_lines(contents@),
{
    let lines = split_lines(contents);
    let mut result: Vec<&'a str> = Vec::new();
    let mut idx: usize = 0;
    proof {
        reveal(Seq::filter);
        assert(lines.deep_view().subrange(0, 0) =~= Seq::<Seq<char>>::empty());
        assert(result.deep_view() =~= matching_lines(pattern@, Seq::empty()));
    }
    while idx < lines.len()
        invariant
            lines.deep_view() == spec_lines(contents@),
            idx <= lines@.len(),
            result.deep_view() == matching_lines(
                pattern@,
                lines.deep_view().subrange(0, idx as int),
            ),
        decreases lines@.len() - idx,
    {
        let ghost old_result = result.deep_view();
        let ghost seen = lines.deep_view().subrange(0, idx as int);
        let line = lines[idx];
        if contains_substr(line, pattern) {
            result.push(line);
            proof {
                assert(result.deep_view() =~= old_result.push(line@));
            }
        }
        proof {
            lemma_matching_lines_push(pattern@, seen, line@);
            assert(lines.deep_view().subrange(0, idx + 1) =~= seen.push(line@));
        }
        idx += 1;
    }
    proof {
        assert(lines.deep_view().subrange(0, idx as int) =~= spec_lines(contents@));
        if pattern@.len() == 0 {
            lemma_matching_lines_all(pattern@, spec_lines(contents@));
        }
    }
    result
}

/// The lowercase form of a sequence of characters, as the standard library's
/// case folding computes it.
pub uninterp spec fn lower_of(s: Seq<char>) -> Seq<char>;

/// Relies on `str::to_lowercase`: the result is the lowercase form of the
/// input, a function of the input characters alone, and an empty input stays
/// empty.
#[verifier::external_body]
fn to_lowercase(s: &str) -> (r: String)
    ensures
        r@ == lower_of(s@),
        s@.len() == 0 ==> r@.len() == 0,
{
    s.to_lowercase()
}

/// The lines among `lines` whose lowercase form contains the lowercase form
/// of `pattern`, in their original order and with their original text.
pub open spec fn insensitive_matching_lines(pattern: Seq<char>, lines: Seq<Seq<char>>) -> Seq<
    Seq<char>,
> {
    lines.filter(|line: Seq<char>| contains_substring(lower_of(line), lower_of(pattern)))
}

/// What the case-insensitive search returns: the lines of `contents` whose
/// lowercase form contains the lowercase form of `pattern`, in their
/// original order and with their original (not lowercased) text.
pub open spec fn spec_search_case_insensitive(pattern: Seq<char>, contents: Seq<char>) -> Seq<
    Seq<char>,
> {
    insensitive_matching_lines(pattern, spec_lines(contents))
}

proof fn lemma_insensitive_matching_lines_push(
    pattern: Seq<char>,
    lines: Seq<Seq<char>>,
    line: Seq<char>,
)
    ensures
        insensitive_matching_lines(pattern, lines.push(line)) == if contains_substring(
            lower_of(line),
            lower_of(pattern),
        ) {
            insensitive_matching_lines(pattern, lines).push(line)
        } else {
            insensitive_matching_lines(pattern, lines)
        },
{
    reveal(Seq::filter);
    assert(lines.push(line).drop_last() =~= lines);
}

/// A pattern whose lowercase form is empty selects every line.
proof fn lemma_insensitive_matching_lines_all(pattern: Seq<char>, lines: Seq<Seq<char>>)
    requires
        lower_of(pattern).len() == 0,
    ensures
        insensitive_matching_lines(pattern, lines) == lines,
    decreases lines.len(),
{
    reveal(Seq::filter);
    if lines.len() > 0 {
        lemma_insensitive_matching_lines_all(pattern, lines.drop_last());
        assert(contains_substring(lower_of(lines.last()), lower_of(pattern))) by {
            assert(lower_of(lines.last()).subrange(0, 0 + lower_of(pattern).len() as int)
                =~= lower_of(pattern));
        }
        assert(insensitive_matching_lines(pattern, lines) =~= lines);
    } else {
        assert(insensitive_matching_lines(pattern, lines) =~= lines);
    }
}

/// Returns the lines of `contents` whose lowercase form contains the
/// lowercase form of `pattern`, in their original order and with their
/// original (not lowercased) text. An empty pattern selects every line.
pub fn search_case_insensitive<'a>(pattern: &str, contents: &'a str) -> (result: Vec<&'a str>)
    ensures
        result.deep_view() == spec_search_case_insensitive(pattern@, contents@),
        pattern@.len() == 0 ==> result.deep_view() == spec_lines(contents@),
{
    let lowered_pattern = to_lowercase(pattern);
    let lines = split_lines(contents);
    let mut result: Vec<&'a str> = Vec::new();
    let mut idx: usize = 0;
    proof {
        reveal(Seq::filter);
        assert(lines.deep_view().subrange(0, 0) =~= Seq::<Seq<char>>::empty());
        assert(result.deep_view() =~= insensitive_matching_lines(pattern@, Seq::empty()));
    }
    while idx < lines.len()
        invariant
            lines.deep_view() == spec_lines(contents@),
            idx <= lines@.len(),
            lowered_pattern@ == lower_of(pattern@),
            result.deep_view() == insensitive_matching_lines(
                pattern@,
                lines.deep_view().subrange(0, idx as int),
            ),
        decreases lines@.len() - idx,
    {
        let ghost old_result = result.deep_view();
        let ghost seen = lines.deep_view().subrange(0, idx as int);
        let line = lines[idx];
        let lowered_line = to_lowercase(line);
        if contains_substr(lowered_line.as_str(), lowered_pattern.as_str()) {
            result.push(line);
            proof {
                assert(result.deep_view() =~= old_result.push(line@));
            }
        }
        proof {
            lemma_insensitive_matching_lines_push(pattern@, seen, line@);
            assert(lines.deep_view().subrange(0, idx + 1) =~= seen.push(line@));
        }
        idx += 1;
    }
    proof {
        assert(lines.deep_view().subrange(0, idx as int) =~= spec_lines(contents@));
        if pattern@.len() == 0 {
            lemma_insensitive_matching_lines_all(pattern@, spec_lines(contents@));
        }
    }
    result
}

/// Runs the search that the configuration selects: exact-case matching when
/// `case_sensitive` holds, lowercased matching otherwise.
pub fn run_search<'a>(config: &Config, contents: &'a str) -> (result: Vec<&'a str>)
    ensures
        config.case_sensitive ==> result.deep_view() == spec_search(
            config.pattern@,
            contents@,
        ),
        !config.case_sensitive ==> result.deep_view() == spec_search_case_insensitive(
            config.pattern@,
            contents@,
        ),
{
    if config.case_sensitive {
        search(config.pattern.as_str(), contents)
    } else {
        search_case_insensitive(config.pattern.as_str(), contents)
    }
}

/// The case-sensitive search is referentially transparent: its contract pins
/// the result as a function of the pattern and the contents alone, so the
/// results of two runs on identical inputs are identical and identically
/// ordered.
pub proof fn lemma_search_idempotent(
    pattern: Seq<char>,
    contents: Seq<char>,
    first: Seq<Seq<char>>,
    second: Seq<Seq<char>>,
)
    requires
        first == spec_search(pattern, contents),
        second == spec_search(pattern, contents),
    ensures
        first == second,
{
}

/// The case-insensitive search is referentially transparent in the same way
/// as the case-sensitive one.
pub proof fn lemma_search_case_insensitive_idempotent(
    pattern: Seq<char>,
    contents: Seq<char>,
    first: Seq<Seq<char>>,
    second: Seq<Seq<char>>,
)
    requires
        first == spec_search_case_insensitive(pattern, contents),
        second == spec_search_case_insensitive(pattern, contents),
    ensures
        first == second,
{
}

/// An empty pattern is a substring of every line, so the case-sensitive
/// search with an empty pattern returns every line of the contents.
pub proof fn lemma_empty_pattern_selects_all(contents: Seq<char>)
    ensures
        spec_search(Seq::empty(), contents) == spec_lines(contents),
{
    lemma_matching_lines_all(Seq::empty(), spec_lines(contents));
}

/// Every line the case-sensitive search returns contains the pattern and is
/// one of the lines of the contents: nothing else is returned.
pub proof fn lemma_search_sound(pattern: Seq<char>, contents: Seq<char>, i: int)
    requires
        0 <= i < spec_search(pattern, contents).len(),
    ensures
        contains_substring(spec_search(pattern, contents)[i], pattern),
        spec_lines(contents).contains(spec_search(pattern, contents)[i]),
{
    broadcast use vstd::seq_lib::group_filter_ensures;
    broadcast use vstd::prelude::Seq::lemma_filter_contains_rev;

    assert(spec_search(pattern, contents).contains(spec_search(pattern, contents)[i]));
}

/// Every line of the contents that contains the pattern appears in what the
/// case-sensitive search returns: no match is dropped.
pub proof fn lemma_search_complete(pattern: Seq<char>, contents: Seq<char>, i: int)
    requires
        0 <= i < spec_lines(contents).len(),
        contains_substring(spec_lines(contents)[i], pattern),
    ensures
        spec_search(pattern, contents).contains(spec_lines(contents)[i]),
{
    broadcast use vstd::seq_lib::group_filter_ensures;

}

/// Every line the case-insensitive search returns matches the pattern after
/// lowercasing both and is one of the lines of the contents, with its
/// original casing: nothing else is returned.
pub proof fn lemma_search_case_insensitive_sound(pattern: Seq<char>, contents: Seq<char>, i: int)
    requires
        0 <= i < spec_search_case_insensitive(pattern, contents).len(),
    ensures
        contains_substring(
            lower_of(spec_search_case_insensitive(pattern, contents)[i]),
            lower_of(pattern),
        ),
        spec_lines(contents).contains(spec_search_case_insensitive(pattern, contents)[i]),
{
    broadcast use vstd::seq_lib::group_filter_ensures;
    broadcast use vstd::prelude::Seq::lemma_filter_contains_rev;

    assert(spec_search_case_insensitive(pattern, contents).contains(
        spec_search_case_insensitive(pattern, contents)[i],
    ));
}

/// Every line of the contents that matches the pattern after lowercasing
/// both appears in what the case-insensitive search returns: no match is
/// dropped.
pub proof fn lemma_search_case_insensitive_complete(
    pattern: Seq<char>,
    contents: Seq<char>,
    i: int,
)
    requires
        0 <= i < spec_lines(contents).len(),
        contains_substring(lower_of(spec_lines(contents)[i]), lower_of(pattern)),
    ensures
        spec_search_case_insensitive(pattern, contents).contains(spec_lines(contents)[i]),
{
    broadcast use vstd::seq_lib::group_filter_ensures;

}

} // verus!
