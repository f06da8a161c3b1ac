//! Recognition of the two preprocessor directives that matter for
//! flattening: `#version NNN` and `#include "path"` / `#include <path>`.
//!
//! A line is a directive candidate when its first character that is not
//! white space is `#`, directly followed by one of the two keywords. What
//! follows the keyword is then searched for a version number or a delimited
//! path at the end of the line. A candidate that holds neither is an ordinary
//! line: nothing here is an error.
use crate::text::{
    chars_of, digit_of, digit_value, is_digit, is_digit_char, is_space, is_space_char, string_from,
};
use vstd::prelude::*;

verus! {

broadcast use vstd::string::group_string_axioms;

/// A recognised directive.
#[derive(Debug, PartialEq, Eq)]
pub enum Directive {
    /// `#version NNN`, with the number.
    Version(usize),
    /// `#include`, with the path between the delimiters as it is written.
    Include(String),
}

/// What a [`Directive`] stands for.
pub enum DirectiveView {
    Version(usize),
    Include(Seq<char>),
}

impl View for Directive {
    type V = DirectiveView;

    open spec fn view(&self) -> DirectiveView {
        match self {
            Directive::Version(v) => DirectiveView::Version(*v),
            Directive::Include(p) => DirectiveView::Include(p@),
        }
    }
}

/// The keyword of an include directive.
pub open spec fn keyword_include() -> Seq<char> {
    seq!['i', 'n', 'c', 'l', 'u', 'd', 'e']
}

/// The keyword of a version directive.
pub open spec fn keyword_version() -> Seq<char> {
    seq!['v', 'e', 'r', 's', 'i', 'o', 'n']
}

/// The index of the first character of `line` at or after `from` that is not
/// white space, or the length of `line` where there is none.
pub open spec fn skip_spaces(line: Seq<char>, from: int) -> int
    decreases line.len() - from,
{
    if 0 <= from < line.len() && is_space(line[from]) {
        skip_spaces(line, from + 1)
    } else {
        from
    }
}

/// The length of `rest` without the white space at its end.
pub open spec fn trimmed_len(rest: Seq<char>) -> int
    decreases rest.len(),
{
    if rest.len() > 0 && is_space(rest.last()) {
        trimmed_len(rest.drop_last())
    } else {
        rest.len() as int
    }
}

/// The version number that `rest` ends in: exactly three digits, neither
/// more nor fewer, with nothing but white space after them.
pub open spec fn version_number(rest: Seq<char>) -> Option<usize> {
    let e = trimmed_len(rest);
    if e >= 3 && is_digit(rest[e - 3]) && is_digit(rest[e - 2]) && is_digit(rest[e - 1]) && (e == 3
        || !is_digit(rest[e - 4])) {
        Some(
            (100 * digit_value(rest[e - 3]) + 10 * digit_value(rest[e - 2]) + digit_value(
                rest[e - 1],
            )) as usize,
        )
    } else {
        None
    }
}

/// Whether `c` may stand inside a delimited path.
pub open spec fn is_path_char(c: char) -> bool {
    c != '"' && c != '>'
}

/// Whether a delimited path opens at `p` and closes with the last character
/// of `rest`: an opening delimiter at `p`, a closing one at the end, and
/// between them at least one character, none of which ends a path.
pub open spec fn path_opens_at(rest: Seq<char>, p: int) -> bool {
    let last = rest.len() - 1;
    &&& 0 <= p
    &&& p + 1 < last
    &&& (rest[p] == '"' || rest[p] == '<')
    &&& (rest[last] == '"' || rest[last] == '>')
    &&& forall|k: int| p < k < last ==> is_path_char(#[trigger] rest[k])
}

/// Whether `p` is the leftmost place at which a delimited path opens.
pub open spec fn path_opens_first_at(rest: Seq<char>, p: int) -> bool {
    &&& path_opens_at(rest, p)
    &&& forall|q: int| path_opens_at(rest, q) ==> p <= q
}

/// Whether the two delimiters belong together.
pub open spec fn delimiters_match(open: char, close: char) -> bool {
    (open == '"' && close == '"') || (open == '<' && close == '>')
}

/// The path that `rest` ends in: what stands between the leftmost opening
/// delimiter from which a path runs to the end of `rest` and the closing
/// delimiter there, provided the two delimiters belong together.
pub open spec fn include_target(rest: Seq<char>) -> Option<Seq<char>> {
    if exists|p: int| path_opens_first_at(rest, p) {
        let p = choose|p: int| path_opens_first_at(rest, p);
        if delimiters_match(rest[p], rest.last()) {
            Some(rest.subrange(p + 1, rest.len() - 1))
        } else {
            None
        }
    } else {
        None
    }
}

/// The directive that `line` holds, if any.
pub open spec fn parse_directive(line: Seq<char>) -> Option<DirectiveView> {
    let i = skip_spaces(line, 0);
    if i + 8 <= line.len() && line[i] == '#' {
        let word = line.subrange(i + 1, i + 8);
        let rest = line.subrange(i + 8, line.len() as int);
        if word == keyword_include() {
            match include_target(rest) {
                Some(path) => Some(DirectiveView::Include(path)),
                None => None,
            }
        } else if word == keyword_version() {
            match version_number(rest) {
                Some(version) => Some(DirectiveView::Version(version)),
                None => None,
            }
        } else {
            None
        }
    } else {
        None
    }
}

/// Skipping white space from `from` ends at `to` when everything between is
/// white space and `to` is the end of the line or holds something else.
proof fn lemma_skip_spaces(line: Seq<char>, from: int, to: int)
    requires
        0 <= from <= to <= line.len(),
        forall|k: int| from <= k < to ==> is_space(#[trigger] line[k]),
        to == line.len() || !is_space(line[to]),
    ensures
        skip_spaces(line, from) == to,
    decreases to - from,
{
    if from < to {
        lemma_skip_spaces(line, from + 1, to);
    }
}

/// Trimming ends at `e` when everything from `e` on is white space and the
/// character before `e`, if there is one, is not.
proof fn lemma_trimmed_len(rest: Seq<char>, e: int)
    requires
        0 <= e <= rest.len(),
        forall|k: int| e <= k < rest.len() ==> is_space(#[trigger] rest[k]),
        e == 0 || !is_space(rest[e - 1]),
    ensures
        trimmed_len(rest) == e,
    decreases rest.len(),
{
    if e < rest.len() {
        let shorter = rest.drop_last();
        lemma_trimmed_len(shorter, e);
    }
}

/// The version number at the end of the characters from `from` on.
fn version_value(chars: &Vec<char>, from: usize) -> (r: Option<usize>)
    requires
        from <= chars.len(),
    ensures
        r == version_number(chars@.subrange(from as int, chars.len() as int)),
{
    let ghost rest = chars@.subrange(from as int, chars.len() as int);
    let mut e: usize = chars.len();
    while e > from && is_space_char(chars[e - 1])
        invariant
            from <= e <= chars.len(),
            forall|k: int| e <= k < chars.len() ==> is_space(#[trigger] chars[k]),
        decreases e,
    {
        e = e - 1;
    }
    proof {
        lemma_trimmed_len(rest, e - from);
    }
    if e - from >= 3 && is_digit_char(chars[e - 3]) && is_digit_char(chars[e - 2]) && is_digit_char(
        chars[e - 1],
    ) && (e - from == 3 || !is_digit_char(chars[e - 4])) {
        Some(100 * digit_of(chars[e - 3]) + 10 * digit_of(chars[e - 2]) + digit_of(chars[e - 1]))
    } else {
        None
    }
}

/// The bounds, within `chars`, of the path at the end of the characters from
/// `from` on.
fn include_range(chars: &Vec<char>, from: usize) -> (r: Option<(usize, usize)>)
    requires
        from <= chars.len(),
    ensures
        match r {
            Some((a, b)) => from <= a <= b <= chars.len() && include_target(
                chars@.subrange(from as int, chars.len() as int),
            ) == Some(chars@.subrange(a as int, b as int)),
            None => include_target(chars@.subrange(from as int, chars.len() as int)) is None,
        },
{
    let n: usize = chars.len();
    let ghost rest = chars@.subrange(from as int, n as int);
    let ghost last = rest.len() - 1;
    if n - from < 3 {
        return None;
    }
    let close: char = chars[n - 1];
    if close != '"' && close != '>' {
        return None;
    }
    // the characters in [k, n - 1) may all stand inside a path
    let mut k: usize = n - 1;
    while k > from && chars[k - 1] != '"' && chars[k - 1] != '>'
        invariant
            from <= k <= n - 1,
            n == chars.len(),
            forall|j: int| k <= j < n - 1 ==> is_path_char(#[trigger] chars[j]),
        decreases k,
    {
        k = k - 1;
    }
    if k > from && k < n - 1 && chars[k - 1] == '"' {
        // a quote directly before the run: nothing opens further left
        let ghost p = k - 1 - from;
        proof {
            assert(path_opens_first_at(rest, p));
        }
        if close == '"' {
            return Some((k, n - 1));
        } else {
            return None;
        }
    }
    // otherwise a path can only open with `<` inside the run
    let mut j: usize = k;
    while n - j > 2 && chars[j] != '<'
        invariant
            k <= j <= n - 1,
            n == chars.len(),
            from <= k,
            forall|i: int| k <= i < j && i + 2 < n ==> chars[i] != '<',
        decreases n - j,
    {
        j = j + 1;
    }
    proof {
        // nothing opens left of the run
        assert forall|q: int| 0 <= q < k - from implies !path_opens_at(rest, q) by {
            if path_opens_at(rest, q) {
                if k == n - 1 {
                    assert(rest[last - 1] == chars[n - 2]);
                } else {
                    assert(rest[k - 1 - from] == chars[k - 1]);
                }
            }
        }
    }
    if n - j > 2 {
        let ghost p = j - from;
        proof {
            assert(path_opens_first_at(rest, p));
        }
        if close == '>' {
            Some((j + 1, n - 1))
        } else {
            None
        }
    } else {
        None
    }
}

/// Whether the seven characters of `chars` from `at` on spell `word`.
fn spells(chars: &Vec<char>, at: usize, word: [char; 7]) -> (b: bool)
    requires
        at + 7 <= chars.len(),
    ensures
        b == (chars@.subrange(at as int, at + 7) == word@),
{
    let mut i: usize = 0;
    while i < 7
        invariant
            i <= 7,
            at + 7 <= chars.len(),
            forall|k: int| 0 <= k < i ==> chars[at + k] == word[k],
        decreases 7 - i,
    {
        if chars[at + i] != word[i] {
            return false;
        }
        i = i + 1;
    }
    proof {
        assert(chars@.subrange(at as int, at + 7) =~= word@);
    }
    true
}

/// Recognises the directive in `line`.
///
/// The result is `None` for every line that is no well-formed directive:
/// such a line is ordinary text.
pub fn directive(line: &str) -> (r: Option<Directive>)
    ensures
        match r {
            Some(d) => parse_directive(line@) == Some(d@),
            None => parse_directive(line@) is None,
        },
{
    let chars = chars_of(line);
    let n: usize = chars.len();
    let mut i: usize = 0;
    while i < n && is_space_char(chars[i])
        invariant
            i <= n,
            n == chars.len(),
            forall|k: int| 0 <= k < i ==> is_space(#[trigger] chars[k]),
        decreases n - i,
    {
        i = i + 1;
    }
    proof {
        lemma_skip_spaces(line@, 0, i as int);
    }
    if n - i < 8 || chars[i] != '#' {
        return None;
    }
    if spells(&chars, i + 1, ['i', 'n', 'c', 'l', 'u', 'd', 'e']) {
        match include_range(&chars, i + 8) {
            Some((a, b)) => {
                let path = string_from(&chars, a, b);
                Some(Directive::Include(path))
            },
            None => None,
        }
    } else if spells(&chars, i + 1, ['v', 'e', 'r', 's', 'i', 'o', 'n']) {
        match version_value(&chars, i + 8) {
            Some(v) => Some(Directive::Version(v)),
            None => None,
        }
    } else {
        None
    }
}

} // verus!
