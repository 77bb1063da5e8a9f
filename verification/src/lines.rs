//! Splitting a content buffer into lines.
//!
//! Newline is the sole delimiter: each newline ends the line before it, and a
//! non-empty unterminated tail counts as a final line, so a buffer without any
//! newline is a single line and an empty buffer has no lines at all.

use vstd::prelude::*;

verus! {

/// The position of the first newline in `s`, or `s.len()` when `s` has none.
pub open spec fn first_newline(s: Seq<char>) -> int
    decreases s.len(),
{
    if s.len() == 0 {
        0
    } else if s[0] == '\n' {
        0
    } else {
        1 + first_newline(s.drop_first())
    }
}

/// `first_newline` stays within `s`, everything before it is not a newline,
/// and when it lies inside `s` it points at a newline.
pub proof fn lemma_first_newline_bounds(s: Seq<char>)
    ensures
        0 <= first_newline(s) <= s.len(),
        forall|j: int| 0 <= j < first_newline(s) ==> s[j] != '\n',
        first_newline(s) < s.len() ==> s[first_newline(s)] == '\n',
    decreases s.len(),
{
    if s.len() == 0 {
    } else if s[0] == '\n' {
    } else {
        let d = s.drop_first();
        lemma_first_newline_bounds(d);
        assert forall|j: int| 0 <= j < first_newline(s) implies s[j] != '\n' by {
            if j > 0 {
                assert(d[j - 1] == s[j]);
            }
        }
        if first_newline(s) < s.len() {
            assert(s[first_newline(s)] == d[first_newline(s) - 1]);
        }
    }
}

/// A position that carries a newline, with none before it, is exactly
/// `first_newline`.
pub proof fn lemma_first_newline_at(s: Seq<char>, cut: int)
    requires
        0 <= cut < s.len(),
        s[cut] == '\n',
        forall|j: int| 0 <= j < cut ==> s[j] != '\n',
    ensures
        first_newline(s) == cut,
    decreases s.len(),
{
    if cut == 0 {
    } else {
        let d = s.drop_first();
        assert(s[0] != '\n');
        assert(d[cut - 1] == s[cut]);
        assert forall|j: int| 0 <= j < cut - 1 implies d[j] != '\n' by {
            assert(d[j] == s[j + 1]);
        }
        lemma_first_newline_at(d, cut - 1);
    }
}

/// The lines of `s`: the segments between newlines, in order, each newline
/// ending the line before it; a non-empty unterminated tail is a final line.
pub open spec fn lines_of(s: Seq<char>) -> Seq<Seq<char>>
    decreases s.len(),
{
    if s.len() == 0 {
        Seq::empty()
    } else {
        let cut = first_newline(s);
        if cut == s.len() {
            seq![s]
        } else {
            proof {
                lemma_first_newline_bounds(s);
            }
            seq![s.subrange(0, cut)] + lines_of(s.subrange(cut + 1, s.len() as int))
        }
    }
}

/// A non-empty buffer without any newline is a single line.
pub proof fn lemma_lines_of_unbroken(s: Seq<char>)
    requires
        s.len() > 0,
        forall|j: int| 0 <= j < s.len() ==> s[j] != '\n',
    ensures
        lines_of(s) == seq![s],
{
    lemma_first_newline_bounds(s);
    if first_newline(s) < s.len() {
        assert(s[first_newline(s)] == '\n');
    }
}

/// A buffer that opens with a newline-free segment followed by a newline has
/// that segment as its first line, and the lines of the rest after it.
pub proof fn lemma_lines_of_split(head: Seq<char>, tail: Seq<char>)
    requires
        forall|j: int| 0 <= j < head.len() ==> head[j] != '\n',
    ensures
        lines_of(head + seq!['\n'] + tail) == seq![head] + lines_of(tail),
{
    let s = head + seq!['\n'] + tail;
    assert(s.len() == head.len() + 1 + tail.len());
    assert(s[head.len() as int] == '\n');
    assert forall|j: int| 0 <= j < head.len() implies s[j] != '\n' by {
        assert(s[j] == head[j]);
    }
    lemma_first_newline_at(s, head.len() as int);
    assert(s.subrange(0, head.len() as int) =~= head);
    assert(s.subrange(head.len() as int + 1, s.len() as int) =~= tail);
}

/// Splits `content` into its lines, each borrowed from `content` itself.
pub fn split_lines<'a>(content: &'a str) -> (r: Vec<&'a str>)
    ensures
        r.deep_view() == lines_of(content@),
{
    let len = content.unicode_len();
    let mut r: Vec<&'a str> = Vec::new();
    let mut start: usize = 0;
    let mut i: usize = 0;
    proof {
        assert(content@.subrange(0, len as int) =~= content@);
        assert(r.deep_view() =~= Seq::<Seq<char>>::empty());
        assert(r.deep_view() + lines_of(content@) =~= lines_of(content@));
    }
    while i < len
        invariant
            len == content@.len(),
            start <= i <= len,
            forall|t: int| start <= t < i ==> content@[t] != '\n',
            lines_of(content@) == r.deep_view() + lines_of(
                content@.subrange(start as int, len as int),
            ),
        decreases len - i,
    {
        if content.get_char(i) == '\n' {
            let line = content.substring_char(start, i);
            let ghost tail = content@.subrange(i as int + 1, len as int);
            proof {
                assert(content@.subrange(start as int, len as int) =~= line@ + seq!['\n'] + tail);
                lemma_lines_of_split(line@, tail);
            }
            let ghost prev = r.deep_view();
            r.push(line);
            proof {
                assert(r.deep_view() =~= prev.push(line@));
                assert(prev.push(line@) + lines_of(tail) =~= prev + (seq![line@] + lines_of(
                    tail,
                )));
            }
            start = i + 1;
        }
        i += 1;
    }
    if start < len {
        let line = content.substring_char(start, len);
        proof {
            lemma_lines_of_unbroken(content@.subrange(start as int, len as int));
        }
        let ghost prev = r.deep_view();
        r.push(line);
        proof {
            assert(r.deep_view() =~= prev.push(line@));
            assert(prev.push(line@) =~= prev + seq![line@]);
        }
    } else {
        proof {
            assert(content@.subrange(start as int, len as int) =~= Seq::<char>::empty());
            assert(r.deep_view() + Seq::<Seq<char>>::empty() =~= r.deep_view());
        }
    }
    r
}

} // verus!
