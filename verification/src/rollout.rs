//! The text of rollout files: the first line (the session record) and the
//! lines that follow it.
use vstd::prelude::*;
use crate::text::{
    append_chars, chars_of, is_blank, lemma_utf8_len_append, lemma_utf8_len_prefix_monotone,
    slice_chars, str_byte_len, string_of, trim, utf8_len, utf8_width_exec,
};

verus! {

/// `i` is the position of the first `\n` of `s`.
pub open spec fn is_first_newline(s: Seq<char>, i: int) -> bool {
    0 <= i < s.len() && s[i] == '\n' && forall|j: int| 0 <= j < i ==> s[j] != '\n'
}

/// The first line of `s` (without its line ending), the line ending
/// (`\r\n`, `\n`, or empty when there is no `\n`), and the position where
/// the rest of the text starts.
pub open spec fn split_spec(s: Seq<char>) -> (Seq<char>, Seq<char>, nat) {
    if exists|i: int| is_first_newline(s, i) {
        let i = choose|i: int| is_first_newline(s, i);
        if i > 0 && s[i - 1] == '\r' {
            (s.take(i - 1), seq!['\r', '\n'], (i + 1) as nat)
        } else {
            (s.take(i), seq!['\n'], (i + 1) as nat)
        }
    } else {
        (s, Seq::empty(), s.len())
    }
}

/// The first line of a rollout and what follows it.
pub struct FirstLineRecord {
    pub first_line: String,
    pub separator: String,
    /// Offset, in bytes, where the text after the first line starts.
    pub rest_start: usize,
}

/// The first line, its ending and the position (in characters) of the
/// rest.
fn split_at_first_line(content: &str) -> (r: (String, String, usize))
    ensures
        (r.0@, r.1@, r.2 as nat) == split_spec(content@),
        r.2 <= content@.len(),
{
    let chars = chars_of(content);
    let mut i: usize = 0;
    while i < chars.len() && chars[i] != '\n'
        invariant
            i <= chars@.len(),
            chars@ == content@,
            forall|j: int| 0 <= j < i ==> chars@[j] != '\n',
        decreases chars@.len() - i,
    {
        i = i + 1;
    }
    if i < chars.len() {
        proof {
            assert(is_first_newline(content@, i as int));
            let c = choose|k: int| is_first_newline(content@, k);
            if c < i {
                assert(content@[c] != '\n');
            } else if c > i {
                assert(content@[i as int] != '\n');
            }
        }
        let crlf = i > 0 && chars[i - 1] == '\r';
        let line_end: usize = if crlf {
            i - 1
        } else {
            i
        };
        let line = slice_chars(chars.as_slice(), 0, line_end);
        assert(line@ =~= content@.take(line_end as int));
        let sep = if crlf {
            string_of(vec!['\r', '\n'].as_slice())
        } else {
            string_of(vec!['\n'].as_slice())
        };
        (string_of(line.as_slice()), sep, i + 1)
    } else {
        proof {
            assert forall|k: int| !is_first_newline(content@, k) by {
                if 0 <= k < content@.len() {
                    assert(chars@[k] != '\n');
                }
            }
        }
        (String::from_str(content), String::new(), chars.len())
    }
}

/// Splits off the first line of a text; the rest starts at the byte
/// offset `rest_start`.
pub fn split_first_line(content: &str) -> (r: FirstLineRecord)
    ensures
        (r.first_line@, r.separator@) == (split_spec(content@).0, split_spec(content@).1),
        r.rest_start == utf8_len(content@.take(split_spec(content@).2 as int)),
{
    let (first_line, separator, pos) = split_at_first_line(content);
    let chars = chars_of(content);
    let total_bytes = str_byte_len(content);
    let mut offset: usize = 0;
    let mut k: usize = 0;
    while k < pos
        invariant
            pos <= chars@.len(),
            chars@ == content@,
            total_bytes == utf8_len(content@),
            k <= pos,
            offset == utf8_len(chars@.take(k as int)),
        decreases pos - k,
    {
        proof {
            lemma_utf8_len_append(chars@.take(k as int), chars@[k as int]);
            assert(chars@.take(k as int).push(chars@[k as int]) =~= chars@.take(k + 1));
            lemma_utf8_len_prefix_monotone(chars@, k + 1, chars@.len() as int);
            assert(chars@.take(chars@.len() as int) =~= chars@);
        }
        offset = offset + utf8_width_exec(chars[k]);
        k = k + 1;
    }
    FirstLineRecord { first_line, separator, rest_start: offset }
}

proof fn lemma_first_newline_exists(s: Seq<char>, k: int)
    requires
        0 <= k < s.len(),
        s[k] == '\n',
    ensures
        exists|i: int| is_first_newline(s, i),
    decreases k,
{
    if forall|j: int| 0 <= j < k ==> s[j] != '\n' {
        assert(is_first_newline(s, k));
    } else {
        let j = choose|j: int| 0 <= j < k && s[j] == '\n';
        lemma_first_newline_exists(s, j);
    }
}

/// The first line, its ending and the rest make up the text again.
pub proof fn law_split_first_line_rejoins(s: Seq<char>)
    ensures
        split_spec(s).0 + split_spec(s).1 + s.skip(split_spec(s).2 as int) == s,
        !split_spec(s).0.contains('\n'),
{
    if exists|i: int| is_first_newline(s, i) {
        let i = choose|i: int| is_first_newline(s, i);
        if i > 0 && s[i - 1] == '\r' {
            assert(s.take(i - 1) + seq!['\r', '\n'] + s.skip(i + 1) =~= s);
        } else {
            assert(s.take(i) + seq!['\n'] + s.skip(i + 1) =~= s);
        }
        assert forall|k: int| 0 <= k < split_spec(s).0.len() implies split_spec(s).0[k] != '\n' by {
        }
    } else {
        assert(s + Seq::<char>::empty() + s.skip(s.len() as int) =~= s);
        assert forall|k: int| 0 <= k < s.len() implies s[k] != '\n' by {
            if s[k] == '\n' {
                lemma_first_newline_exists(s, k);
            }
        }
    }
}

/// The text of a rollout whose first line is rewritten: `None` when the
/// current first line is no longer `original_first_line` (the file changed
/// since it was read), else the new first line, the original line ending
/// and the rest of the current text.
pub open spec fn rewritten_spec(
    content: Seq<char>,
    original_first_line: Seq<char>,
    original_separator: Seq<char>,
    updated_first_line: Seq<char>,
) -> Option<Seq<char>> {
    let (line, _sep, rest) = split_spec(content);
    if line != original_first_line {
        None
    } else {
        Some(updated_first_line + original_separator + content.skip(rest as int))
    }
}

/// A planned rewrite of the first line of a rollout file.
pub struct RolloutChange {
    pub path: String,
    pub original_first_line: String,
    pub original_separator: String,
    pub updated_first_line: String,
}

/// The new text of a rollout file for a planned change, or `None` when the
/// file must be skipped.
pub fn apply_rollout_change(content: &str, change: &RolloutChange) -> (r: Option<String>)
    ensures
        r matches Some(t) ==> rewritten_spec(
            content@,
            change.original_first_line@,
            change.original_separator@,
            change.updated_first_line@,
        ) == Some(t@),
        r is None <==> rewritten_spec(
            content@,
            change.original_first_line@,
            change.original_separator@,
            change.updated_first_line@,
        ) is None,
{
    let (current_line, _separator, rest_start) = split_at_first_line(content);
    if current_line != change.original_first_line {
        return None;
    }
    let chars = chars_of(content);
    let rest = slice_chars(chars.as_slice(), rest_start, chars.len());
    assert(rest@ =~= content@.skip(rest_start as int));
    let mut next = String::new();
    next.append(change.updated_first_line.as_str());
    next.append(change.original_separator.as_str());
    append_chars(&mut next, rest.as_slice());
    assert(next@ =~= change.updated_first_line@ + change.original_separator@ + content@.skip(
        rest_start as int,
    ));
    Some(next)
}

/// Rewriting a first line with itself gives the text back.
pub proof fn law_rewrite_with_same_line_keeps_text(content: Seq<char>)
    ensures
        rewritten_spec(
            content,
            split_spec(content).0,
            split_spec(content).1,
            split_spec(content).0,
        ) == Some(content),
{
    law_split_first_line_rejoins(content);
}

/// `line` without a final `\r`.
pub open spec fn strip_cr(line: Seq<char>) -> Seq<char> {
    if line.len() > 0 && line.last() == '\r' {
        line.drop_last()
    } else {
        line
    }
}

/// `line` if it is not blank.
pub open spec fn keep_nonblank(line: Seq<char>) -> Seq<Seq<char>> {
    if trim(line).len() == 0 {
        Seq::empty()
    } else {
        seq![line]
    }
}

/// The non-blank lines of `s`, given the part `cur` of the current line
/// already read: lines end at `\n`, a `\r` before it is dropped, and a last
/// line without `\n` counts when it is not empty (as `str::lines` and
/// `BufRead::lines` split).
pub open spec fn lines_from(s: Seq<char>, cur: Seq<char>) -> Seq<Seq<char>>
    decreases s.len(),
{
    if s.len() == 0 {
        if cur.len() > 0 {
            keep_nonblank(cur)
        } else {
            Seq::empty()
        }
    } else if s[0] == '\n' {
        keep_nonblank(strip_cr(cur)) + lines_from(s.drop_first(), Seq::empty())
    } else {
        lines_from(s.drop_first(), cur.push(s[0]))
    }
}

/// The non-blank lines of a text.
pub open spec fn nonblank_lines(s: Seq<char>) -> Seq<Seq<char>> {
    lines_from(s, Seq::empty())
}

fn push_if_nonblank(out: &mut Vec<String>, line: &Vec<char>)
    ensures
        crate::text::views(final(out)@) == crate::text::views(old(out)@) + keep_nonblank(line@),
{
    if !is_blank(line.as_slice()) {
        let s = string_of(line.as_slice());
        out.push(s);
        assert(crate::text::views(out@) =~= crate::text::views(old(out)@) + keep_nonblank(line@));
    } else {
        assert(crate::text::views(out@) =~= crate::text::views(old(out)@) + keep_nonblank(line@));
    }
}

/// The non-blank lines of a text, in order.
pub fn content_lines(content: &str) -> (r: Vec<String>)
    ensures
        crate::text::views(r@) == nonblank_lines(content@),
{
    let chars = chars_of(content);
    let mut out: Vec<String> = Vec::new();
    let mut cur: Vec<char> = Vec::new();
    let mut i: usize = 0;
    assert(chars@.skip(0) =~= chars@);
    while i < chars.len()
        invariant
            i <= chars@.len(),
            chars@ == content@,
            nonblank_lines(content@) == crate::text::views(out@) + lines_from(
                chars@.skip(i as int),
                cur@,
            ),
        decreases chars@.len() - i,
    {
        let c = chars[i];
        assert(chars@.skip(i as int).drop_first() =~= chars@.skip(i + 1));
        if c == '\n' {
            let ghost cur0 = cur@;
            if cur.len() > 0 && cur[cur.len() - 1] == '\r' {
                cur.pop();
            }
            assert(cur@ =~= strip_cr(cur0));
            let ghost before = crate::text::views(out@);
            push_if_nonblank(&mut out, &cur);
            assert(crate::text::views(out@) + lines_from(chars@.skip(i + 1), Seq::empty()) =~= before
                + lines_from(chars@.skip(i as int), cur0));
            cur = Vec::new();
        } else {
            cur.push(c);
        }
        i = i + 1;
    }
    if cur.len() > 0 {
        push_if_nonblank(&mut out, &cur);
    }
    out
}

} // verus!
