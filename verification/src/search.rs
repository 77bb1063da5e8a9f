//! The search engine: which lines of a content buffer contain the query.

use vstd::prelude::*;
use crate::config::Config;
use crate::lines::lines_of;
use crate::lines::split_lines;

verus! {

/// `needle` occurs contiguously somewhere in `hay`; an empty `needle` occurs
/// in every `hay`.
pub open spec fn has_substring(hay: Seq<char>, needle: Seq<char>) -> bool {
    exists|k: int|
        0 <= k && k + needle.len() <= hay.len() && #[trigger] hay.subrange(
            k,
            k + needle.len() as int,
        ) == needle
}

/// What `str::to_lowercase` returns for a given character sequence, left
/// uninterpreted here beyond being a function of the characters alone.
pub uninterp spec fn lower_of(s: Seq<char>) -> Seq<char>;

/// Relies on str::to_lowercase: the returned text depends on the input
/// characters alone, and an empty input stays empty.
#[verifier::external_body]
fn fold_case(s: &str) -> (r: String)
    ensures
        r@ == lower_of(s@),
        s@.len() == 0 ==> r@.len() == 0,
{
    s.to_lowercase()
}

/// The match predicate of one line: containment of the query, with both sides
/// case-folded first when `case_insensitive` is set.
pub open spec fn line_matches(query: Seq<char>, case_insensitive: bool, line: Seq<char>) -> bool {
    if case_insensitive {
        has_substring(lower_of(line), lower_of(query))
    } else {
        has_substring(line, query)
    }
}

/// The lines among `ls` that match, in the order `ls` gives them.
pub open spec fn matching_lines(
    query: Seq<char>,
    case_insensitive: bool,
    ls: Seq<Seq<char>>,
) -> Seq<Seq<char>>
    decreases ls.len(),
{
    if ls.len() == 0 {
        Seq::empty()
    } else {
        let rest = matching_lines(query, case_insensitive, ls.drop_last());
        if line_matches(query, case_insensitive, ls.last()) {
            rest.push(ls.last())
        } else {
            rest
        }
    }
}

/// What `search` returns: the matching lines of the content, in source order.
pub open spec fn search_spec(query: Seq<char>, case_insensitive: bool, content: Seq<char>) -> Seq<
    Seq<char>,
> {
    matching_lines(query, case_insensitive, lines_of(content))
}

/// Appending one line to the input either appends it to the matching lines or
/// leaves them unchanged, by whether it matches.
proof fn lemma_matching_lines_push(
    query: Seq<char>,
    case_insensitive: bool,
    ls: Seq<Seq<char>>,
    line: Seq<char>,
)
    ensures
        matching_lines(query, case_insensitive, ls.push(line)) == (if line_matches(
            query,
            case_insensitive,
            line,
        ) {
            matching_lines(query, case_insensitive, ls).push(line)
        } else {
            matching_lines(query, case_insensitive, ls)
        }),
{
    assert(ls.push(line).drop_last() =~= ls);
    assert(ls.push(line).last() == line);
}

/// A predicate that holds of every line keeps all of them: matching then
/// changes nothing.
proof fn lemma_matching_lines_all(query: Seq<char>, case_insensitive: bool, ls: Seq<Seq<char>>)
    requires
        forall|j: int| 0 <= j < ls.len() ==> line_matches(query, case_insensitive, ls[j]),
    ensures
        matching_lines(query, case_insensitive, ls) == ls,
    decreases ls.len(),
{
    if ls.len() == 0 {
        assert(matching_lines(query, case_insensitive, ls) =~= ls);
    } else {
        let d = ls.drop_last();
        assert forall|j: int| 0 <= j < d.len() implies line_matches(
            query,
            case_insensitive,
            d[j],
        ) by {
            assert(d[j] == ls[j]);
        }
        lemma_matching_lines_all(query, case_insensitive, d);
        assert(d.push(ls.last()) =~= ls);
    }
}

/// Whether `hay[at .. at + needle.len()]` is exactly `needle`.
fn matches_at(hay: &str, at: usize, needle: &str) -> (r: bool)
    requires
        at + needle@.len() <= hay@.len(),
    ensures
        r == (hay@.subrange(at as int, at as int + needle@.len() as int) == needle@),
{
    let hay_len = hay.unicode_len();
    let needle_len = needle.unicode_len();
    let mut k: usize = 0;
    while k < needle_len
        invariant
            hay_len == hay@.len(),
            needle_len == needle@.len(),
            at + needle_len <= hay_len,
            k <= needle_len,
            forall|t: int| 0 <= t < k ==> hay@[at + t] == needle@[t],
        decreases needle_len - k,
    {
        if hay.get_char(at + k) != needle.get_char(k) {
            proof {
                assert(hay@.subrange(at as int, at as int + needle@.len() as int)[k as int]
                    == hay@[at + k]);
            }
            return false;
        }
        k += 1;
    }
    proof {
        assert(hay@.subrange(at as int, at as int + needle@.len() as int) =~= needle@);
    }
    true
}

/// Whether `needle` occurs contiguously in `hay`.
fn contains_str(hay: &str, needle: &str) -> (r: bool)
    ensures
        r == has_substring(hay@, needle@),
{
    let hay_len = hay.unicode_len();
    let needle_len = needle.unicode_len();
    if needle_len > hay_len {
        return false;
    }
    if needle_len == 0 {
        proof {
            assert(hay@.subrange(0, 0 + needle@.len() as int) =~= needle@);
        }
        return true;
    }
    let mut k: usize = 0;
    while k <= hay_len - needle_len
        invariant
            hay_len == hay@.len(),
            needle_len == needle@.len(),
            0 < needle_len <= hay_len,
            k <= hay_len - needle_len + 1,
            forall|j: int|
                0 <= j < k ==> #[trigger] hay@.subrange(j, j + needle@.len() as int) != needle@,
        decreases hay_len - needle_len - k + 1,
    {
        if matches_at(hay, k, needle) {
            proof {
                assert(hay@.subrange(k as int, k as int + needle@.len() as int) == needle@);
            }
            return true;
        }
        k += 1;
    }
    proof {
        assert forall|j: int|
            0 <= j && j + needle@.len() <= hay@.len() implies #[trigger] hay@.subrange(
            j,
            j + needle@.len() as int,
        ) != needle@ by {
            assert(j < k);
        }
    }
    false
}

/// Returns every line of `content` that contains the configured query, each
/// borrowed from `content` itself, in source order; an empty query matches
/// every line, in either mode.
pub fn search<'a>(config: &Config, content: &'a str) -> (r: Vec<&'a str>)
    ensures
        r.deep_view() == search_spec(config.query@, config.case_insensitive, content@),
        config.query@.len() == 0 ==> r.deep_view() == lines_of(content@),
{
    let all_lines = split_lines(content);
    let ghost lv = all_lines.deep_view();
    let mut r: Vec<&'a str> = Vec::new();
    if config.case_insensitive {
        let folded_query = fold_case(config.query.as_str());
        let mut idx: usize = 0;
        while idx < all_lines.len()
            invariant
                lv == all_lines.deep_view(),
                lv == lines_of(content@),
                folded_query@ == lower_of(config.query@),
                config.query@.len() == 0 ==> folded_query@.len() == 0,
                config.case_insensitive,
                idx <= all_lines.len(),
                all_lines@.len() == lv.len(),
                r.deep_view() == matching_lines(config.query@, true, lv.take(idx as int)),
            decreases all_lines.len() - idx,
        {
            let line = all_lines[idx];
            let folded_line = fold_case(line);
            let ghost prev = r.deep_view();
            let is_match = contains_str(folded_line.as_str(), folded_query.as_str());
            if is_match {
                r.push(line);
            }
            proof {
                assert(lv[idx as int] == line@);
                assert(lv.take(idx as int + 1) =~= lv.take(idx as int).push(lv[idx as int]));
                lemma_matching_lines_push(config.query@, true, lv.take(idx as int), line@);
                if is_match {
                    assert(r.deep_view() =~= prev.push(line@));
                }
            }
            idx += 1;
        }
        proof {
            assert(lv.take(lv.len() as int) =~= lv);
            if config.query@.len() == 0 {
                assert forall|j: int| 0 <= j < lv.len() implies line_matches(
                    config.query@,
                    true,
                    lv[j],
                ) by {
                    assert(lower_of(lv[j]).subrange(0, 0 + lower_of(config.query@).len() as int)
                        =~= lower_of(config.query@));
                }
                lemma_matching_lines_all(config.query@, true, lv);
            }
        }
    } else {
        let mut idx: usize = 0;
        while idx < all_lines.len()
            invariant
                lv == all_lines.deep_view(),
                lv == lines_of(content@),
                !config.case_insensitive,
                idx <= all_lines.len(),
                all_lines@.len() == lv.len(),
                r.deep_view() == matching_lines(config.query@, false, lv.take(idx as int)),
            decreases all_lines.len() - idx,
        {
            let line = all_lines[idx];
            let ghost prev = r.deep_view();
            let is_match = contains_str(line, config.query.as_str());
            if is_match {
                r.push(line);
            }
            proof {
                assert(lv[idx as int] == line@);
                assert(lv.take(idx as int + 1) =~= lv.take(idx as int).push(lv[idx as int]));
                lemma_matching_lines_push(config.query@, false, lv.take(idx as int), line@);
                if is_match {
                    assert(r.deep_view() =~= prev.push(line@));
                }
            }
            idx += 1;
        }
        proof {
            assert(lv.take(lv.len() as int) =~= lv);
            if config.query@.len() == 0 {
                assert forall|j: int| 0 <= j < lv.len() implies line_matches(
                    config.query@,
                    false,
                    lv[j],
                ) by {
                    assert(lv[j].subrange(0, 0 + config.query@.len() as int) =~= config.query@);
                }
                lemma_matching_lines_all(config.query@, false, lv);
            }
        }
    }
    r
}

/// `a` can be read off `b` left to right: `a` is `b` with zero or more
/// elements removed and none reordered.
pub open spec fn is_subsequence_of<T>(a: Seq<T>, b: Seq<T>) -> bool
    decreases b.len(),
{
    if a.len() == 0 {
        true
    } else if b.len() == 0 {
        false
    } else if a.last() == b.last() {
        is_subsequence_of(a.drop_last(), b.drop_last())
    } else {
        is_subsequence_of(a, b.drop_last())
    }
}

/// A subsequence stays one when its own last element is removed.
proof fn lemma_subsequence_drop_last<T>(a: Seq<T>, b: Seq<T>)
    requires
        a.len() > 0,
        is_subsequence_of(a, b),
    ensures
        is_subsequence_of(a.drop_last(), b),
    decreases b.len(),
{
    let a2 = a.drop_last();
    if a.last() == b.last() {
        if a2.len() > 0 {
            if a2.last() == b.last() {
                lemma_subsequence_drop_last(a2, b.drop_last());
            }
        }
    } else {
        lemma_subsequence_drop_last(a, b.drop_last());
        if a2.len() > 0 {
            if a2.last() == b.last() {
                lemma_subsequence_drop_last(a2, b.drop_last());
            }
        }
    }
}

/// A subsequence stays one when the other sequence grows at its end.
proof fn lemma_subsequence_push<T>(a: Seq<T>, b: Seq<T>, x: T)
    requires
        is_subsequence_of(a, b),
    ensures
        is_subsequence_of(a, b.push(x)),
{
    if a.len() > 0 {
        assert(b.push(x).last() == x);
        assert(b.push(x).drop_last() =~= b);
        if a.last() == x {
            lemma_subsequence_drop_last(a, b);
        }
    }
}

/// The matching lines are a subsequence of the lines they were taken from.
proof fn lemma_matching_lines_subsequence(
    query: Seq<char>,
    case_insensitive: bool,
    ls: Seq<Seq<char>>,
)
    ensures
        is_subsequence_of(matching_lines(query, case_insensitive, ls), ls),
    decreases ls.len(),
{
    if ls.len() > 0 {
        let d = ls.drop_last();
        lemma_matching_lines_subsequence(query, case_insensitive, d);
        assert(ls =~= d.push(ls.last()));
        if line_matches(query, case_insensitive, ls.last()) {
            let m = matching_lines(query, case_insensitive, ls);
            assert(m.last() == ls.last());
            assert(m.drop_last() =~= matching_lines(query, case_insensitive, d));
        } else {
            lemma_subsequence_push(matching_lines(query, case_insensitive, d), d, ls.last());
        }
    }
}

/// Every element of the matching lines matches and is one of the lines it was
/// taken from; every line that matches is among the matching lines.
proof fn lemma_matching_lines_membership(
    query: Seq<char>,
    case_insensitive: bool,
    ls: Seq<Seq<char>>,
)
    ensures
        forall|i: int|
            0 <= i < matching_lines(query, case_insensitive, ls).len() ==> line_matches(
                query,
                case_insensitive,
                #[trigger] matching_lines(query, case_insensitive, ls)[i],
            ) && ls.contains(matching_lines(query, case_insensitive, ls)[i]),
        forall|j: int|
            0 <= j < ls.len() && line_matches(query, case_insensitive, #[trigger] ls[j])
                ==> matching_lines(query, case_insensitive, ls).contains(ls[j]),
    decreases ls.len(),
{
    if ls.len() > 0 {
        let d = ls.drop_last();
        let m = matching_lines(query, case_insensitive, ls);
        let md = matching_lines(query, case_insensitive, d);
        lemma_matching_lines_membership(query, case_insensitive, d);
        assert forall|i: int| 0 <= i < m.len() implies line_matches(
            query,
            case_insensitive,
            #[trigger] m[i],
        ) && ls.contains(m[i]) by {
            if i < md.len() {
                assert(m[i] == md[i]);
                let w = choose|w: int| 0 <= w < d.len() && d[w] == md[i];
                assert(ls[w] == m[i]);
            } else {
                assert(m[i] == ls.last());
                assert(ls[ls.len() - 1] == ls.last());
            }
        }
        assert forall|j: int|
            0 <= j < ls.len() && line_matches(query, case_insensitive, #[trigger] ls[j]) implies m
            .contains(ls[j]) by {
            if j < d.len() {
                assert(d[j] == ls[j]);
                let w = choose|w: int| 0 <= w < md.len() && md[w] == d[j];
                assert(m[w] == ls[j]);
            } else {
                if line_matches(query, case_insensitive, ls.last()) {
                    assert(m[m.len() - 1] == ls.last());
                }
            }
        }
    }
}

/// Every line of the result matches the query under the configured mode, every
/// line of the content that matches is in the result, and every one that does
/// not match is absent from it.
pub proof fn lemma_search_finds_exactly_the_matches(
    query: Seq<char>,
    case_insensitive: bool,
    content: Seq<char>,
)
    ensures
        forall|i: int|
            0 <= i < search_spec(query, case_insensitive, content).len() ==> line_matches(
                query,
                case_insensitive,
                #[trigger] search_spec(query, case_insensitive, content)[i],
            ),
        forall|j: int|
            0 <= j < lines_of(content).len() ==> (search_spec(
                query,
                case_insensitive,
                content,
            ).contains(#[trigger] lines_of(content)[j]) <==> line_matches(
                query,
                case_insensitive,
                lines_of(content)[j],
            )),
{
    let ls = lines_of(content);
    let m = search_spec(query, case_insensitive, content);
    lemma_matching_lines_membership(query, case_insensitive, ls);
    assert forall|j: int|
        0 <= j < ls.len() && m.contains(#[trigger] ls[j]) implies line_matches(
        query,
        case_insensitive,
        ls[j],
    ) by {
        let w = choose|w: int| 0 <= w < m.len() && m[w] == ls[j];
        assert(line_matches(query, case_insensitive, m[w]));
    }
}

/// The result's order is a subsequence of the content's line order: relative
/// order is preserved and no line is reordered.
pub proof fn lemma_search_preserves_order(
    query: Seq<char>,
    case_insensitive: bool,
    content: Seq<char>,
)
    ensures
        is_subsequence_of(search_spec(query, case_insensitive, content), lines_of(content)),
{
    lemma_matching_lines_subsequence(query, case_insensitive, lines_of(content));
}

/// Case-insensitive search emits original line text: each element of the
/// result is a line of the content itself, never a case-folded copy, even
/// though the matching decision was case-folded.
pub proof fn lemma_search_insensitive_emits_original_lines(query: Seq<char>, content: Seq<char>)
    ensures
        forall|i: int|
            0 <= i < search_spec(query, true, content).len() ==> lines_of(content).contains(
                #[trigger] search_spec(query, true, content)[i],
            ),
{
    lemma_matching_lines_membership(query, true, lines_of(content));
}

} // verus!
